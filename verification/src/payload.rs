//! Streaming decode of a put-lump payload with deferred storage-strategy
//! selection — the codec's hardest piece.
//!
//! The payload field's length is not known up front; it is inferred on the
//! first chunk from the bytes in hand plus the byte count the framing layer
//! says is still to come.  At that moment, and never again, the decoder
//! chooses where the payload will live: inline in the target device's
//! journal, in a buffer from that device's allocator, or on the plain heap —
//! depending on the payload size, and on whether the device id seen earlier
//! in the same message resolved to a device and its block size.  Every later
//! chunk streams straight into the buffer allocated then.

use vstd::prelude::*;

use crate::device::DeviceId;
use crate::error::DecodeError;
use crate::lump::{zeroed_vec, LumpData, LumpDataKind, LumpId, MAX_LUMP_DATA_SIZE, MIN_BLOCK_SIZE};
use crate::options::RequestOptions;
use crate::rpc::PutLumpRequest;
use crate::codec::{enc_lump_id, dec_lump_id, enc_request_options, dec_request_options,
    lemma_lump_id_round_trip, lemma_request_options_round_trip, decode_lump_id,
    decode_request_options, write_request_options};
use crate::wire::{enc_len_field, lemma_encode_utf8_len, FieldValue, FieldRef, dec_field,
    lemma_dec_field_bounds, lemma_dec_field_len, read_field, write_len_field, copy_range,
    string_from_utf8};

verus! {

use vstd::utf8::{decode_utf8, encode_utf8, encode_utf8_decode_utf8, encode_utf8_valid_utf8,
    valid_utf8};

/// A point-in-time directory from device id to that device's block size,
/// consulted mid-decode for the sizing hint.
pub struct DeviceDirectory {
    entries: Vec<(DeviceId, u16)>,
}

impl DeviceDirectory {
    /// The block size the directory gives for `id`: the first entry with
    /// that id, if any.
    pub closed spec fn spec_lookup(&self, id: Seq<char>) -> Option<u16> {
        Self::lookup_in(self.entries@, id)
    }

    /// First-match lookup in a sequence of entries.
    pub closed spec fn lookup_in(entries: Seq<(DeviceId, u16)>, id: Seq<char>) -> Option<u16>
        decreases entries.len(),
    {
        if entries.len() == 0 {
            None
        } else if entries[0].0.chars() == id {
            Some(entries[0].1)
        } else {
            Self::lookup_in(entries.drop_first(), id)
        }
    }

    /// An empty directory: every lookup fails.
    pub fn new() -> (r: Self)
        ensures
            forall|id: Seq<char>| r.spec_lookup(id) is None,
    {
        DeviceDirectory { entries: Vec::new() }
    }

    /// Adds an entry mapping `id` to `block_size`; earlier entries win.
    pub fn push(&mut self, id: DeviceId, block_size: u16)
        ensures
            forall|q: Seq<char>|
                final(self).spec_lookup(q) == (if old(self).spec_lookup(q) is Some {
                    old(self).spec_lookup(q)
                } else if q == id.chars() {
                    Some(block_size)
                } else {
                    None::<u16>
                }),
    {
        self.entries.push((id, block_size));
        proof {
            assert forall|q: Seq<char>|
                final(self).spec_lookup(q) == (if old(self).spec_lookup(q) is Some {
                    old(self).spec_lookup(q)
                } else if q == id.chars() {
                    Some(block_size)
                } else {
                    None::<u16>
                }) by {
                Self::lemma_lookup_push(old(self).entries@, id, block_size, q);
            }
        }
    }

    /// First-match lookup after appending one entry.
    proof fn lemma_lookup_push(entries: Seq<(DeviceId, u16)>, id: DeviceId, bs: u16, q: Seq<char>)
        ensures
            Self::lookup_in(entries.push((id, bs)), q) == (if Self::lookup_in(entries, q)
                is Some {
                Self::lookup_in(entries, q)
            } else if q == id.chars() {
                Some(bs)
            } else {
                None::<u16>
            }),
        decreases entries.len(),
    {
        if entries.len() == 0 {
            assert(entries.push((id, bs)).drop_first() =~= Seq::<(DeviceId, u16)>::empty());
        } else {
            assert(entries.push((id, bs)).drop_first() =~= entries.drop_first().push((id, bs)));
            Self::lemma_lookup_push(entries.drop_first(), id, bs, q);
        }
    }

    /// Looks up the block size for `id`.
    pub fn lookup(&self, id: &DeviceId) -> (r: Option<u16>)
        ensures
            r == self.spec_lookup(id.chars()),
    {
        let mut i: usize = 0;
        assert(self.entries@.skip(0) =~= self.entries@);
        while i < self.entries.len()
            invariant
                i <= self.entries@.len(),
                Self::lookup_in(self.entries@, id.chars()) == Self::lookup_in(
                    self.entries@.skip(i as int),
                    id.chars(),
                ),
            decreases self.entries@.len() - i,
        {
            proof {
                assert(self.entries@.skip(i as int).drop_first() =~= self.entries@.skip(
                    i as int + 1,
                ));
            }
            if self.entries[i].0.eq_id(id) {
                return Some(self.entries[i].1);
            }
            i = i + 1;
        }
        None
    }
}

/// The storage strategy the decoder commits to on the first chunk, given the
/// payload's total size and the resolved device's block size (if the device
/// id resolved at all): embedded when the payload fits one block of the
/// resolved device — or one minimum-size block when none resolved — else
/// allocated through the resolved device, else a plain heap buffer.
pub open spec fn chosen_kind(size: nat, hint: Option<u16>) -> LumpDataKind {
    let block: nat = match hint {
        Some(b) => b as nat,
        None => MIN_BLOCK_SIZE as nat,
    };
    if size <= block {
        LumpDataKind::Embedded
    } else if hint is Some {
        LumpDataKind::DeviceAllocated
    } else {
        LumpDataKind::Heap
    }
}

/// Storage-strategy selection, stated plainly: with a resolved device of
/// block size `block`, a payload of size `size <= block` is embedded and a
/// larger one is allocated through that device; with no resolved device, a
/// payload larger than one minimum-size block is a plain heap buffer.  (A
/// hint-less payload no larger than one minimum-size block is embedded.)
pub proof fn lemma_storage_strategy_selection(size: nat, block: u16)
    ensures
        size <= block ==> chosen_kind(size, Some(block)) == LumpDataKind::Embedded,
        size > block ==> chosen_kind(size, Some(block)) == LumpDataKind::DeviceAllocated,
        size > MIN_BLOCK_SIZE ==> chosen_kind(size, None) == LumpDataKind::Heap,
{
}

/// The two states of the payload decoder: waiting for the first chunk (the
/// strategy is still open) or streaming into the buffer chosen then.
enum DecoderState {
    AwaitingFirstChunk,
    Streaming { data: LumpData, filled: usize },
}

/// Streaming decoder of one lump payload.
pub struct LumpDataDecoder {
    state: DecoderState,
    device_hint: Option<u16>,
}

impl LumpDataDecoder {
    /// Whether the first chunk has been seen.
    pub closed spec fn is_started(&self) -> bool {
        self.state is Streaming
    }

    /// The buffer being filled.
    pub closed spec fn buffer(&self) -> LumpData {
        match self.state {
            DecoderState::Streaming { data, filled } => data,
            DecoderState::AwaitingFirstChunk => vstd::pervasive::arbitrary(),
        }
    }

    /// How many payload bytes have arrived.
    pub closed spec fn filled(&self) -> nat {
        match self.state {
            DecoderState::Streaming { data, filled } => filled as nat,
            DecoderState::AwaitingFirstChunk => 0,
        }
    }

    /// The sizing hint: the resolved device's block size, if any.
    pub closed spec fn hint(&self) -> Option<u16> {
        self.device_hint
    }

    /// The buffer holds the bytes received so far, then zeroes.
    pub open spec fn wf(&self) -> bool {
        self.is_started() ==> {
            &&& self.filled() <= self.buffer().data().len()
            &&& self.buffer().wf()
            &&& forall|j: int|
                self.filled() <= j < self.buffer().data().len() ==> self.buffer().data()[j] == 0u8
        }
    }

    /// A fresh decoder: no chunk seen, no hint.
    pub fn new() -> (r: Self)
        ensures
            !r.is_started(),
            r.hint() is None,
            r.wf(),
    {
        LumpDataDecoder { state: DecoderState::AwaitingFirstChunk, device_hint: None }
    }

    /// Records the resolved device's block size.  A failed resolution leaves
    /// the decoder without a hint rather than failing the decode.
    pub fn set_device_hint(&mut self, block_size: Option<u16>)
        requires
            !old(self).is_started(),
        ensures
            final(self).hint() == block_size,
            !final(self).is_started(),
            final(self).wf(),
    {
        self.device_hint = block_size;
    }

    /// Feeds one chunk of payload bytes.  `remaining_after` is the byte
    /// count the framing layer says is still to come after this chunk.
    ///
    /// On the first chunk the total payload size is computed as the bytes in
    /// hand plus `remaining_after`; a size above the 32-bit bound or above
    /// the engine's maximum lump size is rejected as invalid input, and
    /// otherwise a zero-filled buffer of the chosen strategy is allocated
    /// once.  Every chunk is then copied into the buffer at the current fill
    /// position; bytes beyond the promised total are rejected.
    pub fn decode_chunk(&mut self, chunk: &[u8], remaining_after: u64) -> (r: Result<
        (),
        DecodeError,
    >)
        requires
            old(self).wf(),
        ensures
            final(self).wf(),
            final(self).hint() == old(self).hint(),
            !old(self).is_started() ==> {
                let total = chunk@.len() + remaining_after;
                if total <= 0xFFFF_FFFF && total <= MAX_LUMP_DATA_SIZE {
                    &&& r is Ok
                    &&& final(self).is_started()
                    &&& final(self).buffer().data().len() == total
                    &&& final(self).buffer().spec_kind() == chosen_kind(
                        total as nat,
                        old(self).hint(),
                    )
                    &&& final(self).filled() == chunk@.len()
                    &&& final(self).buffer().data().subrange(0, chunk@.len() as int) == chunk@
                } else {
                    r is Err && *final(self) == *old(self)
                }
            },
            old(self).is_started() ==> {
                if old(self).filled() + chunk@.len() <= old(self).buffer().data().len() {
                    &&& r is Ok
                    &&& final(self).is_started()
                    &&& final(self).buffer().data().len() == old(self).buffer().data().len()
                    &&& final(self).buffer().spec_kind() == old(self).buffer().spec_kind()
                    &&& final(self).filled() == old(self).filled() + chunk@.len()
                    &&& final(self).buffer().data().subrange(0, final(self).filled() as int)
                        == old(self).buffer().data().subrange(0, old(self).filled() as int)
                        + chunk@
                } else {
                    r is Err && *final(self) == *old(self)
                }
            },
    {
        let is_first = match &self.state {
            DecoderState::AwaitingFirstChunk => true,
            DecoderState::Streaming { .. } => false,
        };
        if is_first {
            let chunk_len = chunk.len();
            if remaining_after > 0xFFFF_FFFF || chunk_len as u64 > 0xFFFF_FFFF - remaining_after {
                return Err(DecodeError::InvalidInput(Some(remaining_after)));
            }
            let total_u64: u64 = chunk_len as u64 + remaining_after;
            if total_u64 > MAX_LUMP_DATA_SIZE as u64 {
                return Err(DecodeError::InvalidInput(Some(total_u64)));
            }
            let total: usize = total_u64 as usize;
            let block: u16 = match self.device_hint {
                Some(b) => b,
                None => MIN_BLOCK_SIZE,
            };
            let zeros = zeroed_vec(total);
            let data_or_err = if total <= block as usize {
                LumpData::new_embedded(zeros)
            } else if self.device_hint.is_some() {
                LumpData::new_device_allocated(zeros)
            } else {
                LumpData::new(zeros)
            };
            let mut data = match data_or_err {
                Ok(d) => d,
                Err(e) => {
                    return Err(DecodeError::InvalidInput(None));
                },
            };
            data.fill_from(0, chunk, chunk_len);
            assert(data.data().subrange(0, chunk@.len() as int) =~= chunk@);
            self.state = DecoderState::Streaming { data, filled: chunk_len };
            Ok(())
        } else {
            let mut st = DecoderState::AwaitingFirstChunk;
            core::mem::swap(&mut st, &mut self.state);
            let (mut data, filled) = match st {
                DecoderState::Streaming { data, filled } => (data, filled),
                DecoderState::AwaitingFirstChunk => {
                    return Err(DecodeError::InvalidInput(None));
                },
            };
            let chunk_len = chunk.len();
            if chunk_len > data.len() - filled {
                self.state = DecoderState::Streaming { data, filled };
                return Err(DecodeError::InvalidInput(None));
            }
            data.fill_from(filled, chunk, chunk_len);
            assert(data.data().subrange(0, filled + chunk_len as int) =~= old(
                self,
            ).buffer().data().subrange(0, old(self).filled() as int) + chunk@);
            self.state = DecoderState::Streaming { data, filled: filled + chunk_len };
            Ok(())
        }
    }

    /// Finishes the decode and hands out the buffer.  Finishing before any
    /// chunk has been seen is an incomplete-decoding error, as is finishing
    /// before the promised byte count has arrived.  The device hint is
    /// discarded either way: it must not leak into the next decode.
    pub fn finish(&mut self) -> (r: Result<LumpData, DecodeError>)
        requires
            old(self).wf(),
        ensures
            !final(self).is_started(),
            final(self).hint() is None,
            final(self).wf(),
            if old(self).is_started() && old(self).filled() == old(
                self,
            ).buffer().data().len() {
                r matches Ok(d) && d == old(self).buffer()
            } else {
                r == Err::<LumpData, DecodeError>(DecodeError::IncompleteDecoding)
            },
    {
        self.device_hint = None;
        let mut st = DecoderState::AwaitingFirstChunk;
        core::mem::swap(&mut st, &mut self.state);
        match st {
            DecoderState::AwaitingFirstChunk => Err(DecodeError::IncompleteDecoding),
            DecoderState::Streaming { data, filled } => {
                if filled == data.len() {
                    Ok(data)
                } else {
                    Err(DecodeError::IncompleteDecoding)
                }
            },
        }
    }
}

/// The byte sequences a vector of chunk buffers stands for.
pub open spec fn chunks_view(chunks: Seq<Vec<u8>>) -> Seq<Seq<u8>> {
    chunks.map_values(|c: Vec<u8>| c@)
}

/// The whole payload a chunk split stands for.
pub open spec fn chunks_flat(chunks: Seq<Vec<u8>>) -> Seq<u8> {
    chunks_view(chunks).flatten()
}

/// Splitting a chunk list before `i` splits its payload at the same point.
proof fn lemma_chunks_flat_split(chunks: Seq<Vec<u8>>, i: int)
    requires
        0 <= i <= chunks.len(),
    ensures
        chunks_flat(chunks) == chunks_flat(chunks.take(i)) + chunks_view(
            chunks.skip(i),
        ).flatten(),
{
    assert(chunks_view(chunks) =~= chunks_view(chunks.take(i)) + chunks_view(chunks.skip(i)));
    vstd::seq_lib::lemma_flatten_concat(
        chunks_view(chunks.take(i)),
        chunks_view(chunks.skip(i)),
    );
}

/// Taking one more chunk appends its bytes to the payload prefix.
proof fn lemma_chunks_flat_take_step(chunks: Seq<Vec<u8>>, i: int)
    requires
        0 <= i < chunks.len(),
    ensures
        chunks_flat(chunks.take(i + 1)) == chunks_flat(chunks.take(i)) + chunks[i]@,
{
    assert(chunks_view(chunks.take(i + 1)) =~= chunks_view(chunks.take(i)).push(chunks[i]@));
    chunks_view(chunks.take(i)).lemma_flatten_push(chunks[i]@);
}

/// Streaming payload invariant: for any total payload and any way of
/// splitting it into chunks delivered to the decoder — with the framing
/// layer's remaining-byte counts — the fully decoded payload equals the
/// original bytes, regardless of chunk boundaries, and its buffer carries
/// the strategy chosen from the total size and the device hint.
pub fn decode_payload_chunks(hint: Option<u16>, chunks: &Vec<Vec<u8>>) -> (r: Result<
    LumpData,
    DecodeError,
>)
    ensures
        chunks_flat(chunks@).len() <= MAX_LUMP_DATA_SIZE ==> (r matches Ok(d) && d.data()
            == chunks_flat(chunks@) && d.spec_kind() == chosen_kind(
            chunks_flat(chunks@).len() as nat,
            hint,
        ) && d.wf()),
        chunks_flat(chunks@).len() > MAX_LUMP_DATA_SIZE ==> r is Err,
{
    let ghost whole = chunks_flat(chunks@);
    // First pass: the total size, as the framing layer would know it.
    let mut total: u64 = 0;
    let mut i: usize = 0;
    proof {
        assert(chunks@.take(0) =~= Seq::<Vec<u8>>::empty());
        assert(chunks_view(Seq::<Vec<u8>>::empty()) =~= Seq::<Seq<u8>>::empty());
    }
    while i < chunks.len()
        invariant
            i <= chunks@.len(),
            total == chunks_flat(chunks@.take(i as int)).len(),
        decreases chunks@.len() - i,
    {
        let cl: usize = chunks[i].len();
        if cl as u64 > u64::MAX - total {
            proof {
                lemma_chunks_flat_split(chunks@, i as int + 1);
                lemma_chunks_flat_take_step(chunks@, i as int);
            }
            return Err(DecodeError::InvalidInput(None));
        }
        proof {
            lemma_chunks_flat_take_step(chunks@, i as int);
        }
        total = total + cl as u64;
        i = i + 1;
    }
    proof {
        assert(chunks@.take(chunks@.len() as int) =~= chunks@);
    }
    // Second pass: feed every chunk, telling the decoder how many bytes are
    // still to come after each one.
    let mut dec = LumpDataDecoder::new();
    dec.set_device_hint(hint);
    if chunks.len() == 0 {
        let empty_chunk: Vec<u8> = Vec::new();
        match dec.decode_chunk(empty_chunk.as_slice(), 0) {
            Err(e) => {
                return Err(e);
            },
            Ok(()) => {},
        }
        let d = match dec.finish() {
            Err(e) => {
                return Err(e);
            },
            Ok(d) => d,
        };
        assert(d.data() =~= whole);
        return Ok(d);
    }
    let mut fed: u64 = 0;
    let mut i: usize = 0;
    while i < chunks.len()
        invariant
            0 < chunks@.len(),
            i <= chunks@.len(),
            total == whole.len(),
            whole == chunks_flat(chunks@),
            fed == chunks_flat(chunks@.take(i as int)).len(),
            dec.hint() == hint,
            dec.wf(),
            i == 0 ==> !dec.is_started() && fed == 0,
            i > 0 ==> {
                &&& dec.is_started()
                &&& dec.buffer().data().len() == total
                &&& dec.buffer().spec_kind() == chosen_kind(total as nat, hint)
                &&& dec.filled() == fed
                &&& dec.buffer().data().subrange(0, fed as int) == chunks_flat(
                    chunks@.take(i as int),
                )
            },
            whole.len() <= MAX_LUMP_DATA_SIZE ==> i > 0 || !dec.is_started(),
        decreases chunks@.len() - i,
    {
        let c = &chunks[i];
        proof {
            lemma_chunks_flat_take_step(chunks@, i as int);
            lemma_chunks_flat_split(chunks@, i as int + 1);
        }
        let remaining_after: u64 = total - fed - c.len() as u64;
        match dec.decode_chunk(c.as_slice(), remaining_after) {
            Err(e) => {
                return Err(e);
            },
            Ok(()) => {},
        }
        proof {
            if i > 0 {
                assert(dec.buffer().data().subrange(0, (fed + c@.len()) as int)
                    =~= chunks_flat(chunks@.take(i as int)) + c@);
            }
        }
        fed = fed + c.len() as u64;
        i = i + 1;
    }
    proof {
        assert(chunks@.take(chunks@.len() as int) =~= chunks@);
    }
    let d = match dec.finish() {
        Err(e) => {
            return Err(e);
        },
        Ok(d) => d,
    };
    assert(d.data() =~= whole);
    Ok(d)
}

/// Encoding of a put-lump request: device id, lump id, raw payload bytes,
/// options.
pub open spec fn enc_put_lump_request(r: PutLumpRequest) -> Seq<u8> {
    enc_len_field(1, encode_utf8(r.device_id.chars())) + enc_len_field(2, enc_lump_id(r.lump_id))
        + enc_len_field(3, r.lump_data.data()) + enc_len_field(
        4,
        enc_request_options(r.options),
    )
}

/// Folds a put-lump request's fields into the device-id, lump-id, payload
/// and options slots.  When a payload field arrives, the storage strategy is
/// chosen then and there, from the payload's size and the block size of
/// whatever device the id seen *so far* resolves to in `dir` — an id that
/// arrives later, or not at all, or does not resolve, leaves the payload on
/// the no-hint path rather than failing.  A payload above the engine's
/// maximum lump size fails the fold, as its allocation would.
pub open spec fn dec_put_lump_fields(
    s: Seq<u8>,
    dir: DeviceDirectory,
    dev: Option<Seq<char>>,
    lid: Option<u128>,
    data: Option<(Seq<u8>, LumpDataKind)>,
    opts: Option<RequestOptions>,
) -> Option<
    (Option<Seq<char>>, Option<u128>, Option<(Seq<u8>, LumpDataKind)>, Option<RequestOptions>),
>
    decreases s.len(),
{
    if s.len() == 0 {
        Some((dev, lid, data, opts))
    } else {
        match dec_field(s) {
            None => None,
            Some(((f, v), k)) => if 0 < k <= s.len() {
                match v {
                    FieldValue::Bytes(p) => if f == 1 {
                        if valid_utf8(p) {
                            dec_put_lump_fields(s.skip(k), dir, Some(decode_utf8(p)), lid, data, opts)
                        } else {
                            None
                        }
                    } else if f == 2 {
                        match dec_lump_id(p) {
                            None => None,
                            Some(x) => dec_put_lump_fields(s.skip(k), dir, dev, Some(x), data, opts),
                        }
                    } else if f == 3 {
                        let hint = match dev {
                            Some(c) => dir.spec_lookup(c),
                            None => None,
                        };
                        if p.len() <= 0xFFFF_FFFF && p.len() <= MAX_LUMP_DATA_SIZE {
                            dec_put_lump_fields(
                                s.skip(k),
                                dir,
                                dev,
                                lid,
                                Some((p, chosen_kind(p.len() as nat, hint))),
                                opts,
                            )
                        } else {
                            None
                        }
                    } else if f == 4 {
                        match dec_request_options(p) {
                            None => None,
                            Some(o) => dec_put_lump_fields(s.skip(k), dir, dev, lid, data, Some(o)),
                        }
                    } else {
                        dec_put_lump_fields(s.skip(k), dir, dev, lid, data, opts)
                    },
                    _ => dec_put_lump_fields(s.skip(k), dir, dev, lid, data, opts),
                }
            } else {
                None
            },
        }
    }
}

/// Total decoder of a put-lump request against a device directory, as views:
/// device id characters, lump id value, payload bytes with the storage
/// strategy chosen for them, and options.  All four fields are required.
pub open spec fn dec_put_lump_request(s: Seq<u8>, dir: DeviceDirectory) -> Option<
    (Seq<char>, u128, Seq<u8>, LumpDataKind, RequestOptions),
> {
    match dec_put_lump_fields(s, dir, None, None, None, None) {
        Some((Some(dev), Some(lid), Some((p, kind)), Some(opts))) => Some(
            (dev, lid, p, kind, opts),
        ),
        _ => None,
    }
}

/// A well-formed, encodable put-lump request decodes back to itself (the
/// payload as its bytes); the canonical encoding carries the device id
/// before the payload, so the strategy is chosen from that id's resolution.
#[verifier::rlimit(80)]
pub proof fn lemma_put_lump_request_round_trip(r: PutLumpRequest, dir: DeviceDirectory)
    requires
        r.options.wf(),
        r.options.queue_len_encodable(),
        r.lump_data.wf(),
        4 * r.device_id.chars().len() <= u64::MAX,
    ensures
        dec_put_lump_request(enc_put_lump_request(r), dir) == Some(
            (
                r.device_id.chars(),
                r.lump_id.spec_u128(),
                r.lump_data.data(),
                chosen_kind(r.lump_data.data().len(), dir.spec_lookup(r.device_id.chars())),
                r.options,
            ),
        ),
{
    let dc = r.device_id.chars();
    let db = encode_utf8(dc);
    let ib = enc_lump_id(r.lump_id);
    let data = r.lump_data.data();
    let ob = enc_request_options(r.options);
    let s = enc_put_lump_request(r);
    lemma_encode_utf8_len(dc);
    crate::messages::lemma_enc_request_options_len(r.options);
    encode_utf8_valid_utf8(dc);
    encode_utf8_decode_utf8(dc);
    lemma_lump_id_round_trip(r.lump_id);
    lemma_request_options_round_trip(r.options);
    assert(s =~= enc_len_field(1, db) + (enc_len_field(2, ib) + (enc_len_field(3, data)
        + enc_len_field(4, ob))));
    lemma_dec_field_len(1, db, enc_len_field(2, ib) + (enc_len_field(3, data) + enc_len_field(4, ob)));
    lemma_dec_field_bounds(s);
    let k1 = enc_len_field(1, db).len() as int;
    let s2 = enc_len_field(2, ib) + (enc_len_field(3, data) + (enc_len_field(4, ob)
        + Seq::<u8>::empty()));
    assert(s.skip(k1) =~= s2);
    lemma_dec_field_len(2, ib, enc_len_field(3, data) + (enc_len_field(4, ob) + Seq::<u8>::empty()));
    lemma_dec_field_bounds(s2);
    let k2 = enc_len_field(2, ib).len() as int;
    let s3 = enc_len_field(3, data) + (enc_len_field(4, ob) + Seq::<u8>::empty());
    assert(s2.skip(k2) =~= s3);
    lemma_dec_field_len(3, data, enc_len_field(4, ob) + Seq::<u8>::empty());
    lemma_dec_field_bounds(s3);
    let k3 = enc_len_field(3, data).len() as int;
    let s4 = enc_len_field(4, ob) + Seq::<u8>::empty();
    assert(s3.skip(k3) =~= s4);
    lemma_dec_field_len(4, ob, Seq::<u8>::empty());
    lemma_dec_field_bounds(s4);
    let k4 = enc_len_field(4, ob).len() as int;
    assert(s4.skip(k4) =~= Seq::<u8>::empty());
    let lid = r.lump_id.spec_u128();
    let kind = chosen_kind(data.len(), dir.spec_lookup(dc));
    assert(dec_put_lump_fields(s, dir, None, None, None, None) == dec_put_lump_fields(
        s.skip(k1),
        dir,
        Some(dc),
        None,
        None,
        None,
    ));
    assert(dec_put_lump_fields(s2, dir, Some(dc), None, None, None) == dec_put_lump_fields(
        s2.skip(k2),
        dir,
        Some(dc),
        Some(lid),
        None,
        None,
    ));
    assert(dec_put_lump_fields(s3, dir, Some(dc), Some(lid), None, None) == dec_put_lump_fields(
        s3.skip(k3),
        dir,
        Some(dc),
        Some(lid),
        Some((data, kind)),
        None,
    ));
    assert(dec_put_lump_fields(s4, dir, Some(dc), Some(lid), Some((data, kind)), None)
        == dec_put_lump_fields(
        s4.skip(k4),
        dir,
        Some(dc),
        Some(lid),
        Some((data, kind)),
        Some(r.options),
    ));
    assert(dec_put_lump_fields(
        Seq::<u8>::empty(),
        dir,
        Some(dc),
        Some(lid),
        Some((data, kind)),
        Some(r.options),
    ) == Some((Some(dc), Some(lid), Some((data, kind)), Some(r.options))));
}

/// Appends the encoding of `r` to `out`.
pub fn write_put_lump_request(out: &mut Vec<u8>, r: &PutLumpRequest)
    requires
        r.options.queue_len_encodable(),
    ensures
        final(out)@ == old(out)@ + enc_put_lump_request(*r),
{
    let db = r.device_id.as_str().as_bytes();
    let ghost n1 = db.len();
    write_len_field(out, 1, db);
    let ib = crate::codec::encode_lump_id(&r.lump_id);
    write_len_field(out, 2, ib.as_slice());
    let data = r.lump_data.as_bytes();
    let ghost n2 = data.len();
    write_len_field(out, 3, data);
    let mut ob: Vec<u8> = Vec::new();
    write_request_options(&mut ob, &r.options);
    proof {
        crate::messages::lemma_enc_request_options_len(r.options);
    }
    write_len_field(out, 4, ob.as_slice());
    assert(out@ =~= old(out)@ + enc_put_lump_request(*r));
}

/// Encodes `r` as a whole message.
pub fn encode_put_lump_request(r: &PutLumpRequest) -> (out: Vec<u8>)
    requires
        r.options.queue_len_encodable(),
    ensures
        out@ == enc_put_lump_request(*r),
{
    let mut out: Vec<u8> = Vec::new();
    write_put_lump_request(&mut out, r);
    out
}

/// Decoder of put-lump requests: resolves the device id seen so far in the
/// message against its directory when the payload arrives, to pick the
/// payload's storage strategy.
pub struct PutLumpRequestDecoder {
    directory: DeviceDirectory,
}

impl PutLumpRequestDecoder {
    /// The directory consulted for the sizing hint.
    pub closed spec fn spec_directory(&self) -> DeviceDirectory {
        self.directory
    }

    /// Creates a decoder over the given device directory.
    pub fn new(directory: DeviceDirectory) -> (r: Self)
        ensures
            r.spec_directory() == directory,
    {
        PutLumpRequestDecoder { directory }
    }

    /// Decodes the put-lump request at `buf[pos..end]`, consuming all of it.
    /// The payload's storage strategy is chosen when the payload field
    /// arrives, from its size and the block size of the device the id seen
    /// so far resolves to; an id that has not arrived yet or does not
    /// resolve falls back to the no-hint path rather than failing.
    #[verifier::rlimit(80)]
    pub fn decode(&self, buf: &[u8], pos: usize, end: usize) -> (r: Result<
        PutLumpRequest,
        DecodeError,
    >)
        requires
            pos <= end <= buf@.len(),
        ensures
            match dec_put_lump_request(buf@.subrange(pos as int, end as int), self.spec_directory()) {
                Some((chars, v, data, kind, o)) => r matches Ok(req) && req.device_id.chars()
                    == chars && req.lump_id.spec_u128() == v && req.options == o
                    && req.lump_data.data() == data && req.lump_data.wf()
                    && req.lump_data.spec_kind() == kind,
                None => (r matches Err(e) && e is InvalidInput),
            },
    {
        let ghost s = buf@.subrange(pos as int, end as int);
        let ghost dir = self.spec_directory();
        let mut dev: Option<DeviceId> = None;
        let ghost mut dev_g: Option<Seq<char>> = None;
        let mut lid: Option<LumpId> = None;
        let ghost mut lid_g: Option<u128> = None;
        let mut data: Option<LumpData> = None;
        let ghost mut data_g: Option<(Seq<u8>, LumpDataKind)> = None;
        let mut opts: Option<RequestOptions> = None;
        let mut p: usize = pos;
        loop
            invariant
                pos <= p <= end <= buf@.len(),
                s == buf@.subrange(pos as int, end as int),
                dir == self.spec_directory(),
                (dev matches Some(d) && dev_g matches Some(g) && d.chars() == g) || (dev is None
                    && dev_g is None),
                (lid matches Some(i) && lid_g matches Some(g) && i.spec_u128() == g) || (lid
                    is None && lid_g is None),
                (data matches Some(d) && data_g matches Some((q, kind)) && d.data() == q
                    && d.spec_kind() == kind && d.wf()) || (data is None && data_g is None),
                dec_put_lump_fields(s, dir, None, None, None, None) == dec_put_lump_fields(
                    buf@.subrange(p as int, end as int),
                    dir,
                    dev_g,
                    lid_g,
                    data_g,
                    opts,
                ),
            ensures
                p == end,
                (dev matches Some(d) && dev_g matches Some(g) && d.chars() == g) || (dev is None
                    && dev_g is None),
                (lid matches Some(i) && lid_g matches Some(g) && i.spec_u128() == g) || (lid
                    is None && lid_g is None),
                (data matches Some(d) && data_g matches Some((q, kind)) && d.data() == q
                    && d.spec_kind() == kind && d.wf()) || (data is None && data_g is None),
                dec_put_lump_fields(s, dir, None, None, None, None) == Some(
                    (dev_g, lid_g, data_g, opts),
                ),
            decreases end - p,
        {
            if p >= end {
                proof {
                    assert(buf@.subrange(p as int, end as int) =~= Seq::<u8>::empty());
                }
                break ;
            }
            let ghost sp = buf@.subrange(p as int, end as int);
            proof {
                lemma_dec_field_bounds(sp);
            }
            match read_field(buf, p, end) {
                None => {
                    return Err(DecodeError::InvalidInput(None));
                },
                Some((f, v, np)) => {
                    proof {
                        assert(buf@.subrange(np as int, end as int) =~= sp.skip(np - p));
                    }
                    match v {
                        FieldRef::Bytes(a, b) => {
                            if f == 1 {
                                let bytes = copy_range(buf, a, b);
                                let d = match string_from_utf8(bytes) {
                                    None => {
                                        return Err(DecodeError::InvalidInput(None));
                                    },
                                    Some(d) => d,
                                };
                                proof {
                                    encode_utf8_decode_utf8(d@);
                                    dev_g = Some(decode_utf8(buf@.subrange(a as int, b as int)));
                                }
                                dev = Some(DeviceId::new(d));
                            } else if f == 2 {
                                let i = match decode_lump_id(buf, a, b) {
                                    Err(e) => {
                                        return Err(DecodeError::InvalidInput(None));
                                    },
                                    Ok(i) => i,
                                };
                                proof {
                                    lid_g = Some(i.spec_u128());
                                }
                                lid = Some(i);
                            } else if f == 3 {
                                let hint = match &dev {
                                    Some(id) => self.directory.lookup(id),
                                    None => None,
                                };
                                let payload = copy_range(buf, a, b);
                                let mut decoder = LumpDataDecoder::new();
                                decoder.set_device_hint(hint);
                                match decoder.decode_chunk(payload.as_slice(), 0) {
                                    Err(e) => {
                                        return Err(DecodeError::InvalidInput(None));
                                    },
                                    Ok(()) => {},
                                }
                                let d = match decoder.finish() {
                                    Err(e) => {
                                        return Err(DecodeError::InvalidInput(None));
                                    },
                                    Ok(d) => d,
                                };
                                proof {
                                    assert(d.data() =~= buf@.subrange(a as int, b as int));
                                    data_g = Some(
                                        (buf@.subrange(a as int, b as int), d.spec_kind()),
                                    );
                                }
                                data = Some(d);
                            } else if f == 4 {
                                let o = match decode_request_options(buf, a, b) {
                                    Err(e) => {
                                        return Err(DecodeError::InvalidInput(None));
                                    },
                                    Ok(o) => o,
                                };
                                opts = Some(o);
                            }
                        },
                        _ => {},
                    }
                    p = np;
                },
            }
        }
        match (dev, lid, data, opts) {
            (Some(d), Some(i), Some(ld), Some(o)) => Ok(
                PutLumpRequest { device_id: d, lump_id: i, lump_data: ld, options: o },
            ),
            _ => Err(DecodeError::InvalidInput(None)),
        }
    }
}

} // verus!
