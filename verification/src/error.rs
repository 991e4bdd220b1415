//! Error taxonomy shared by the codec and the registry-facing call logic.
//!
//! Two vocabularies meet here: the storage engine's domain error kinds, which
//! travel over the wire as string tags, and the transport layer's narrower
//! kinds, which are folded into the domain kinds when a call returns.

use vstd::prelude::*;

verus! {

broadcast use vstd::string::group_string_axioms;

/// Domain-level error kinds of the storage engine.
///
/// The mapping to and from wire tags is listed explicitly, variant by
/// variant, so that adding a kind leaves a visible gap instead of a silent
/// fallthrough.
#[derive(Debug, Clone, Copy, PartialEq, Eq, Structural)]
pub enum ErrorKind {
    /// The target storage is out of space.
    StorageFull,
    /// The target storage is corrupted.
    StorageCorrupted,
    /// The device rejected the request (admission control).
    DeviceBusy,
    /// The device has terminated.
    DeviceTerminated,
    /// Malformed wire data, an unknown device, or an unknown discriminator.
    InvalidInput,
    /// The component is in an inconsistent state.
    InconsistentState,
    /// Catch-all: lock failures, dropped channels, folded transport errors.
    Other,
}

/// A domain error as carried in RPC responses: a kind plus causal context.
#[derive(Debug, Clone, PartialEq, Eq)]
pub struct Error {
    /// What went wrong.
    pub kind: ErrorKind,
    /// Human-readable causal context.
    pub message: String,
}

impl Error {
    /// Creates an error of the given kind with the given context.
    pub fn new(kind: ErrorKind, message: String) -> (r: Self)
        ensures
            r.kind == kind,
            r.message@ == message@,
    {
        Error { kind, message }
    }
}

/// Failure of a wire-level decode; local to one message.
#[derive(Debug, Clone, Copy, PartialEq, Eq, Structural)]
pub enum DecodeError {
    /// Malformed field tags, unknown discriminators, or over-large sizes.
    /// Carries the offending value, when a single value names the failure,
    /// for diagnosis.
    InvalidInput(Option<u64>),
    /// Decoding was finished before the input it needed had arrived.
    IncompleteDecoding,
}

/// Transport-level error kinds as reported by the RPC client machinery.
#[derive(Debug, Clone, Copy, PartialEq, Eq, Structural)]
pub enum RpcErrorKind {
    /// The request was rejected as malformed.
    InvalidInput,
    /// The call timed out.
    Timeout,
    /// The peer is unavailable.
    Unavailable,
    /// Any other transport failure.
    Other,
}

/// Folds a transport error kind into the domain taxonomy: *invalid input*
/// passes through, every other transport kind becomes *other*.
pub fn fold_rpc_error_kind(kind: RpcErrorKind) -> (r: ErrorKind)
    ensures
        r == (if kind == RpcErrorKind::InvalidInput {
            ErrorKind::InvalidInput
        } else {
            ErrorKind::Other
        }),
{
    match kind {
        RpcErrorKind::InvalidInput => ErrorKind::InvalidInput,
        RpcErrorKind::Timeout => ErrorKind::Other,
        RpcErrorKind::Unavailable => ErrorKind::Other,
        RpcErrorKind::Other => ErrorKind::Other,
    }
}

/// The wire tag of each domain error kind.
pub open spec fn spec_kind_tag(kind: ErrorKind) -> Seq<char> {
    match kind {
        ErrorKind::StorageFull => "StorageFull"@,
        ErrorKind::StorageCorrupted => "StorageCorrupted"@,
        ErrorKind::DeviceBusy => "DeviceBusy"@,
        ErrorKind::DeviceTerminated => "DeviceTerminated"@,
        ErrorKind::InvalidInput => "InvalidInput"@,
        ErrorKind::InconsistentState => "InconsistentState"@,
        ErrorKind::Other => "Other"@,
    }
}

/// The domain kind a wire tag decodes to; unrecognized tags fold to `Other`
/// (forward-compatible, lossy).
pub open spec fn spec_kind_of_tag(tag: Seq<char>) -> ErrorKind {
    if tag == "StorageFull"@ {
        ErrorKind::StorageFull
    } else if tag == "StorageCorrupted"@ {
        ErrorKind::StorageCorrupted
    } else if tag == "DeviceBusy"@ {
        ErrorKind::DeviceBusy
    } else if tag == "DeviceTerminated"@ {
        ErrorKind::DeviceTerminated
    } else if tag == "InvalidInput"@ {
        ErrorKind::InvalidInput
    } else if tag == "InconsistentState"@ {
        ErrorKind::InconsistentState
    } else {
        ErrorKind::Other
    }
}

/// Every kind's own tag decodes back to that kind: the tag mapping is lossy
/// only for tags that no kind produces.
pub proof fn lemma_kind_tag_round_trip(kind: ErrorKind)
    ensures
        spec_kind_of_tag(spec_kind_tag(kind)) == kind,
{
    reveal_strlit("StorageFull");
    reveal_strlit("StorageCorrupted");
    reveal_strlit("DeviceBusy");
    reveal_strlit("DeviceTerminated");
    reveal_strlit("InvalidInput");
    reveal_strlit("InconsistentState");
    reveal_strlit("Other");
    assert("StorageFull"@.len() == 11);
    assert("StorageCorrupted"@.len() == 16);
    assert("DeviceBusy"@.len() == 10);
    assert("DeviceTerminated"@.len() == 16);
    assert("InvalidInput"@.len() == 12);
    assert("InconsistentState"@.len() == 17);
    assert("Other"@.len() == 5);
    // The only two tags of equal length differ in their first character.
    assert("DeviceTerminated"@[0] == 'D');
    assert("StorageCorrupted"@[0] == 'S');
    assert("DeviceTerminated"@ != "StorageCorrupted"@);
    match kind {
        ErrorKind::StorageFull => {
            assert(spec_kind_of_tag("StorageFull"@) == ErrorKind::StorageFull);
        },
        ErrorKind::StorageCorrupted => {
            assert(spec_kind_of_tag("StorageCorrupted"@) == ErrorKind::StorageCorrupted);
        },
        ErrorKind::DeviceBusy => {
            assert(spec_kind_of_tag("DeviceBusy"@) == ErrorKind::DeviceBusy);
        },
        ErrorKind::DeviceTerminated => {
            assert(spec_kind_of_tag("DeviceTerminated"@) == ErrorKind::DeviceTerminated);
        },
        ErrorKind::InvalidInput => {
            assert(spec_kind_of_tag("InvalidInput"@) == ErrorKind::InvalidInput);
        },
        ErrorKind::InconsistentState => {
            assert(spec_kind_of_tag("InconsistentState"@) == ErrorKind::InconsistentState);
        },
        ErrorKind::Other => {
            assert(spec_kind_of_tag("Other"@) == ErrorKind::Other);
        },
    }
}

/// The wire tag of a domain error kind.
pub fn kind_tag(kind: ErrorKind) -> (r: &'static str)
    ensures
        r@ == spec_kind_tag(kind),
{
    match kind {
        ErrorKind::StorageFull => "StorageFull",
        ErrorKind::StorageCorrupted => "StorageCorrupted",
        ErrorKind::DeviceBusy => "DeviceBusy",
        ErrorKind::DeviceTerminated => "DeviceTerminated",
        ErrorKind::InvalidInput => "InvalidInput",
        ErrorKind::InconsistentState => "InconsistentState",
        ErrorKind::Other => "Other",
    }
}

/// Whether `tag` spells the same characters as `lit`.
fn tag_is(tag: &String, lit: &str) -> (r: bool)
    ensures
        r == (tag@ == lit@),
{
    tag.eq(&lit.to_owned())
}

/// The domain kind a wire tag stands for; unrecognized tags become `Other`.
pub fn kind_of_tag(tag: &String) -> (r: ErrorKind)
    ensures
        r == spec_kind_of_tag(tag@),
{
    if tag_is(tag, "StorageFull") {
        ErrorKind::StorageFull
    } else if tag_is(tag, "StorageCorrupted") {
        ErrorKind::StorageCorrupted
    } else if tag_is(tag, "DeviceBusy") {
        ErrorKind::DeviceBusy
    } else if tag_is(tag, "DeviceTerminated") {
        ErrorKind::DeviceTerminated
    } else if tag_is(tag, "InvalidInput") {
        ErrorKind::InvalidInput
    } else if tag_is(tag, "InconsistentState") {
        ErrorKind::InconsistentState
    } else {
        ErrorKind::Other
    }
}

} // verus!
