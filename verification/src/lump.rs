//! Lumps: opaque byte blobs addressed by 128-bit keys, together with the
//! storage-strategy bookkeeping that decides where a payload will live.

use vstd::prelude::*;

use crate::error::{Error, ErrorKind};

verus! {

/// Identifier of a lump: a 128-bit unsigned integer with its natural total
/// order, used both as a point key and as a range bound.
#[derive(Debug, Clone, Copy, PartialEq, Eq, PartialOrd, Ord, Hash, Structural)]
pub struct LumpId(u128);

impl LumpId {
    /// The identifier's numeric value.
    pub closed spec fn spec_u128(&self) -> u128 {
        self.0
    }

    /// Creates a new `LumpId` for the given 128-bit value.
    pub fn new(id: u128) -> (r: Self)
        ensures
            r.spec_u128() == id,
    {
        LumpId(id)
    }

    /// The identifier's value as a 128-bit integer.
    pub fn as_u128(&self) -> (r: u128)
        ensures
            r == self.spec_u128(),
    {
        self.0
    }
}

/// Summary metadata of a lump: its approximate payload size.
#[derive(Debug, Clone, Copy, PartialEq, Eq, Structural)]
pub struct LumpHeader {
    /// Approximate size of the lump's payload, in bytes.
    pub approximate_data_size: u32,
}

/// A device's storage usage over a key range: unknown, or an approximate
/// byte count.
#[derive(Debug, Clone, Copy, PartialEq, Eq, Structural)]
pub enum StorageUsage {
    /// The usage could not be determined.
    Unknown,
    /// An approximate usage in bytes.
    Approximate(u64),
}

impl StorageUsage {
    /// Creates an approximate usage.
    pub fn approximate(usage: u64) -> (r: Self)
        ensures
            r == StorageUsage::Approximate(usage),
    {
        StorageUsage::Approximate(usage)
    }

    /// Creates an unknown usage.
    pub fn unknown() -> (r: Self)
        ensures
            r == StorageUsage::Unknown,
    {
        StorageUsage::Unknown
    }

    /// The approximate byte count, if one is known.
    pub fn bytecount(&self) -> (r: Option<u64>)
        ensures
            r == (match *self {
                StorageUsage::Unknown => None::<u64>,
                StorageUsage::Approximate(n) => Some(n),
            }),
    {
        match *self {
            StorageUsage::Unknown => None,
            StorageUsage::Approximate(n) => Some(n),
        }
    }
}

/// The largest payload a lump may hold, in bytes.  The bound comes from the
/// smallest block size the storage engine supports (`0xFFFF` blocks of 512
/// bytes, less two bytes of internal metadata).
pub const MAX_LUMP_DATA_SIZE: usize = 0xFFFF * 512 - 2;

/// The largest payload that may be embedded in a device's write-ahead
/// journal, in bytes.
pub const MAX_EMBEDDED_DATA_SIZE: usize = 0xFFFF;

/// The smallest block size of any storage device, in bytes.
pub const MIN_BLOCK_SIZE: u16 = 512;

/// How a lump payload's buffer was allocated.  The choice is made once, at
/// construction, and is invisible to readers of the bytes; it decides copy
/// count and journal placement inside the owning device.
#[derive(Debug, Clone, Copy, PartialEq, Eq, Structural)]
pub enum LumpDataKind {
    /// Small payload intended to be held inline in the device's journal.
    Embedded,
    /// Payload allocated through the owning device's own allocator.
    DeviceAllocated,
    /// Plain heap buffer, used when no device context is available.
    Heap,
}

/// An owned lump payload.  To callers it is always just "the bytes"; the
/// allocation strategy is fixed at construction.
#[derive(Debug, Clone, PartialEq, Eq)]
pub struct LumpData {
    bytes: Vec<u8>,
    kind: LumpDataKind,
}

impl LumpData {
    /// The payload bytes.
    pub closed spec fn data(&self) -> Seq<u8> {
        self.bytes@
    }

    /// The allocation strategy the payload was constructed with.
    pub closed spec fn spec_kind(&self) -> LumpDataKind {
        self.kind
    }

    /// Size bounds every payload obeys: embedded payloads fit the journal,
    /// all payloads fit the engine's maximum lump size.
    pub open spec fn wf(&self) -> bool {
        &&& self.data().len() <= MAX_LUMP_DATA_SIZE
        &&& self.spec_kind() == LumpDataKind::Embedded ==> self.data().len()
            <= MAX_EMBEDDED_DATA_SIZE
    }

    /// Creates a heap-allocated payload.  Rejects data larger than
    /// `MAX_LUMP_DATA_SIZE` as invalid input.
    pub fn new(data: Vec<u8>) -> (r: Result<Self, Error>)
        ensures
            data@.len() <= MAX_LUMP_DATA_SIZE <==> r is Ok,
            r matches Ok(d) ==> d.data() == data@ && d.spec_kind() == LumpDataKind::Heap && d.wf(),
            r matches Err(e) ==> e.kind == ErrorKind::InvalidInput,
    {
        if data.len() <= MAX_LUMP_DATA_SIZE {
            Ok(LumpData { bytes: data, kind: LumpDataKind::Heap })
        } else {
            Err(Error::new(ErrorKind::InvalidInput, "too large lump data".to_owned()))
        }
    }

    /// Creates a journal-embedded payload.  Rejects data larger than
    /// `MAX_EMBEDDED_DATA_SIZE` as invalid input.
    pub fn new_embedded(data: Vec<u8>) -> (r: Result<Self, Error>)
        ensures
            data@.len() <= MAX_EMBEDDED_DATA_SIZE <==> r is Ok,
            r matches Ok(d) ==> d.data() == data@ && d.spec_kind() == LumpDataKind::Embedded
                && d.wf(),
            r matches Err(e) ==> e.kind == ErrorKind::InvalidInput,
    {
        if data.len() <= MAX_EMBEDDED_DATA_SIZE {
            Ok(LumpData { bytes: data, kind: LumpDataKind::Embedded })
        } else {
            Err(Error::new(ErrorKind::InvalidInput, "too large embedded lump data".to_owned()))
        }
    }

    /// Creates a payload standing for a buffer obtained from a device's own
    /// allocator.  Rejects data larger than `MAX_LUMP_DATA_SIZE` as invalid
    /// input.
    pub fn new_device_allocated(data: Vec<u8>) -> (r: Result<Self, Error>)
        ensures
            data@.len() <= MAX_LUMP_DATA_SIZE <==> r is Ok,
            r matches Ok(d) ==> d.data() == data@ && d.spec_kind() == LumpDataKind::DeviceAllocated
                && d.wf(),
            r matches Err(e) ==> e.kind == ErrorKind::InvalidInput,
    {
        if data.len() <= MAX_LUMP_DATA_SIZE {
            Ok(LumpData { bytes: data, kind: LumpDataKind::DeviceAllocated })
        } else {
            Err(Error::new(ErrorKind::InvalidInput, "too large lump data".to_owned()))
        }
    }

    /// The payload bytes.
    pub fn as_bytes(&self) -> (r: &[u8])
        ensures
            r@ == self.data(),
    {
        self.bytes.as_slice()
    }

    /// The payload size in bytes.
    pub fn len(&self) -> (r: usize)
        ensures
            r == self.data().len(),
    {
        self.bytes.len()
    }

    /// The allocation strategy the payload was constructed with.
    pub fn kind(&self) -> (r: LumpDataKind)
        ensures
            r == self.spec_kind(),
    {
        self.kind
    }

    /// Gives up ownership and returns the payload bytes.
    pub fn into_bytes(self) -> (r: Vec<u8>)
        ensures
            r@ == self.data(),
    {
        self.bytes
    }

    /// Overwrites `count` bytes at `offset` with the start of `src`, leaving
    /// every other byte as it was.  The payload decoder streams arriving
    /// chunks into place with this.
    pub fn fill_from(&mut self, offset: usize, src: &[u8], count: usize)
        requires
            count <= src@.len(),
            offset + count <= old(self).data().len(),
        ensures
            final(self).data().len() == old(self).data().len(),
            final(self).spec_kind() == old(self).spec_kind(),
            forall|j: int|
                0 <= j < old(self).data().len() ==> final(self).data()[j] == (if offset <= j
                    < offset + count {
                    src@[j - offset]
                } else {
                    old(self).data()[j]
                }),
    {
        let ghost orig = old(self).data();
        let ghost orig_kind = old(self).spec_kind();
        let n = self.bytes.len();
        let mut i: usize = 0;
        while i < count
            invariant
                i <= count <= src@.len(),
                offset + count <= orig.len() <= n,
                self.data().len() == orig.len(),
                self.spec_kind() == orig_kind,
                forall|j: int|
                    0 <= j < orig.len() ==> self.data()[j] == (if offset <= j < offset + i {
                        src@[j - offset]
                    } else {
                        orig[j]
                    }),
            decreases count - i,
        {
            self.bytes[offset + i] = src[i];
            i = i + 1;
        }
    }
}

/// A zero-filled vector of the given length.
pub fn zeroed_vec(len: usize) -> (r: Vec<u8>)
    ensures
        r@ == Seq::new(len as nat, |i: int| 0u8),
{
    let mut out: Vec<u8> = Vec::new();
    let mut i: usize = 0;
    while i < len
        invariant
            i <= len,
            out@ == Seq::new(i as nat, |j: int| 0u8),
        decreases len - i,
    {
        out.push(0u8);
        i = i + 1;
        assert(out@ =~= Seq::new(i as nat, |j: int| 0u8));
    }
    out
}

} // verus!
