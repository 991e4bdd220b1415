//! Codec for the scalar wire values: lump ids, durations, deadlines, storage
//! usage, request options, and domain errors.
//!
//! Each value has a specification-level encoder `enc_*`, a total
//! specification-level decoder `dec_*`, executable functions proved to match
//! them, and a round-trip lemma.  The decoders fold over the message's
//! fields as the encoding admits them: in any order, with later occurrences
//! winning, with default-valued fields omitted, and with unknown fields
//! skipped.  Field numbers and discriminator values are part of the wire
//! compatibility surface.

use vstd::prelude::*;

use crate::error::{DecodeError, Error, ErrorKind};
use crate::lump::{LumpId, StorageUsage};
use crate::options::{Deadline, Duration, RequestOptions};
use crate::wire::{tag_value, WIRE_LEN, enc_fixed64_field, enc_varint_field, enc_len_field,
    FieldValue, FieldRef, dec_field, lemma_dec_field_bounds, lemma_dec_field_varint,
    lemma_dec_field_fixed64, lemma_dec_field_len, read_field, lemma_enc_varint_len,
    lemma_enc_varint_field_len, write_varint_field, write_fixed64_field, write_len_field,
    copy_range, string_from_utf8};

verus! {

use vstd::utf8::{decode_utf8, encode_utf8, encode_utf8_decode_utf8, encode_utf8_valid_utf8,
    valid_utf8};
use crate::error::{spec_kind_of_tag, spec_kind_tag, kind_of_tag, kind_tag,
    lemma_kind_tag_round_trip};

/// Encoding of a lump id: its high and low 64-bit halves as two fixed64
/// fields.
pub open spec fn enc_lump_id(id: LumpId) -> Seq<u8> {
    enc_fixed64_field(1, (id.spec_u128() >> 64) as u64) + enc_fixed64_field(
        2,
        id.spec_u128() as u64,
    )
}

/// The 128-bit value whose halves are `high` and `low`.
pub open spec fn combine64(high: u64, low: u64) -> u128 {
    ((high as u128) << 64) | (low as u128)
}

/// Folds a lump id message's fields into the two half slots: the halves are
/// required, later occurrences win, everything else is skipped.
pub open spec fn dec_lump_id_fields(
    s: Seq<u8>,
    high: Option<u64>,
    low: Option<u64>,
) -> Option<(Option<u64>, Option<u64>)>
    decreases s.len(),
{
    if s.len() == 0 {
        Some((high, low))
    } else {
        match dec_field(s) {
            None => None,
            Some(((f, v), k)) => if 0 < k <= s.len() {
                let slots = match v {
                    FieldValue::Fixed64(n) => if f == 1 {
                        (Some(n), low)
                    } else if f == 2 {
                        (high, Some(n))
                    } else {
                        (high, low)
                    },
                    _ => (high, low),
                };
                dec_lump_id_fields(s.skip(k), slots.0, slots.1)
            } else {
                None
            },
        }
    }
}

/// Total decoder of a lump id message; both halves must be present.
pub open spec fn dec_lump_id(s: Seq<u8>) -> Option<u128> {
    match dec_lump_id_fields(s, None, None) {
        Some((Some(high), Some(low))) => Some(combine64(high, low)),
        _ => None,
    }
}

/// A lump id decodes back to the value it encodes.
pub proof fn lemma_lump_id_round_trip(id: LumpId)
    ensures
        dec_lump_id(enc_lump_id(id)) == Some(id.spec_u128()),
{
    let x = id.spec_u128();
    let high = (x >> 64) as u64;
    let low = x as u64;
    let s = enc_lump_id(id);
    lemma_dec_field_fixed64(1, high, enc_fixed64_field(2, low));
    lemma_dec_field_bounds(s);
    let k1 = enc_fixed64_field(1, high).len() as int;
    let s2 = enc_fixed64_field(2, low) + Seq::<u8>::empty();
    assert(s.skip(k1) =~= s2);
    lemma_dec_field_fixed64(2, low, Seq::<u8>::empty());
    lemma_dec_field_bounds(s2);
    let k2 = enc_fixed64_field(2, low).len() as int;
    assert(s2.skip(k2) =~= Seq::<u8>::empty());
    assert(dec_lump_id_fields(s, None, None) == dec_lump_id_fields(s.skip(k1), Some(high), None));
    assert(dec_lump_id_fields(s2, Some(high), None) == dec_lump_id_fields(
        s2.skip(k2),
        Some(high),
        Some(low),
    ));
    assert(dec_lump_id_fields(Seq::<u8>::empty(), Some(high), Some(low)) == Some(
        (Some(high), Some(low)),
    ));
    assert(((((x >> 64) as u64) as u128) << 64) | ((x as u64) as u128) == x) by (bit_vector);
}

/// Appends the encoding of `id` to `out`.
pub fn write_lump_id(out: &mut Vec<u8>, id: &LumpId)
    ensures
        final(out)@ == old(out)@ + enc_lump_id(*id),
{
    let v = id.as_u128();
    write_fixed64_field(out, 1, (v >> 64) as u64);
    write_fixed64_field(out, 2, v as u64);
    assert(out@ =~= old(out)@ + enc_lump_id(*id));
}

/// Encodes `id` as a whole message.
pub fn encode_lump_id(id: &LumpId) -> (r: Vec<u8>)
    ensures
        r@ == enc_lump_id(*id),
{
    let mut out: Vec<u8> = Vec::new();
    write_lump_id(&mut out, id);
    out
}

/// Decodes the lump id message at `buf[pos..end]`, consuming all of it.
pub fn decode_lump_id(buf: &[u8], pos: usize, end: usize) -> (r: Result<LumpId, DecodeError>)
    requires
        pos <= end <= buf@.len(),
    ensures
        match dec_lump_id(buf@.subrange(pos as int, end as int)) {
            Some(v) => r matches Ok(id) && id.spec_u128() == v,
            None => (r matches Err(e) && e is InvalidInput),
        },
{
    let ghost s = buf@.subrange(pos as int, end as int);
    let mut high: Option<u64> = None;
    let mut low: Option<u64> = None;
    let mut p: usize = pos;
    loop
        invariant
            pos <= p <= end <= buf@.len(),
            s == buf@.subrange(pos as int, end as int),
            dec_lump_id_fields(s, None, None) == dec_lump_id_fields(
                buf@.subrange(p as int, end as int),
                high,
                low,
            ),
        ensures
            p == end,
            dec_lump_id_fields(s, None, None) == Some((high, low)),
        decreases end - p,
    {
        if p >= end {
            proof {
                assert(buf@.subrange(p as int, end as int) =~= Seq::<u8>::empty());
            }
            break ;
        }
        let ghost sp = buf@.subrange(p as int, end as int);
        proof {
            lemma_dec_field_bounds(sp);
        }
        match read_field(buf, p, end) {
            None => {
                return Err(DecodeError::InvalidInput(None));
            },
            Some((f, v, np)) => {
                proof {
                    assert(buf@.subrange(np as int, end as int) =~= sp.skip(np - p));
                }
                match v {
                    FieldRef::Fixed64(n) => {
                        if f == 1 {
                            high = Some(n);
                        } else if f == 2 {
                            low = Some(n);
                        }
                    },
                    _ => {},
                }
                p = np;
            },
        }
    }
    match (high, low) {
        (Some(h), Some(l)) => Ok(LumpId::new(((h as u128) << 64) | (l as u128))),
        _ => Err(DecodeError::InvalidInput(None)),
    }
}

/// Encoding of a duration: seconds and nanoseconds as two varint fields.
pub open spec fn enc_duration(d: Duration) -> Seq<u8> {
    enc_varint_field(1, d.secs) + enc_varint_field(2, d.nanos as u64)
}

/// Folds a duration message's fields into the seconds and nanoseconds slots.
pub open spec fn dec_duration_fields(
    s: Seq<u8>,
    secs: Option<u64>,
    nanos: Option<u64>,
) -> Option<(Option<u64>, Option<u64>)>
    decreases s.len(),
{
    if s.len() == 0 {
        Some((secs, nanos))
    } else {
        match dec_field(s) {
            None => None,
            Some(((f, v), k)) => if 0 < k <= s.len() {
                let slots = match v {
                    FieldValue::Varint(n) => if f == 1 {
                        (Some(n), nanos)
                    } else if f == 2 {
                        (secs, Some(n))
                    } else {
                        (secs, nanos)
                    },
                    _ => (secs, nanos),
                };
                dec_duration_fields(s.skip(k), slots.0, slots.1)
            } else {
                None
            },
        }
    }
}

/// Total decoder of a duration message: omitted parts default to zero; a
/// nanosecond part of a full second or more is rejected.
pub open spec fn dec_duration(s: Seq<u8>) -> Option<Duration> {
    match dec_duration_fields(s, None, None) {
        None => None,
        Some((se, na)) => {
            let secs = match se {
                Some(x) => x,
                None => 0,
            };
            let nanos = match na {
                Some(x) => x,
                None => 0,
            };
            if nanos < 1_000_000_000 {
                Some(Duration { secs, nanos: nanos as u32 })
            } else {
                None
            }
        },
    }
}

/// A duration encoding is always short.
pub proof fn lemma_enc_duration_len(d: Duration)
    ensures
        enc_duration(d).len() <= 40,
{
    lemma_enc_varint_field_len(1, d.secs);
    lemma_enc_varint_field_len(2, d.nanos as u64);
}

/// A well-formed duration decodes back to itself.
pub proof fn lemma_duration_round_trip(d: Duration)
    requires
        d.wf(),
    ensures
        dec_duration(enc_duration(d)) == Some(d),
{
    let s = enc_duration(d);
    lemma_dec_field_varint(1, d.secs, enc_varint_field(2, d.nanos as u64));
    lemma_dec_field_bounds(s);
    let k1 = enc_varint_field(1, d.secs).len() as int;
    let s2 = enc_varint_field(2, d.nanos as u64) + Seq::<u8>::empty();
    assert(s.skip(k1) =~= s2);
    lemma_dec_field_varint(2, d.nanos as u64, Seq::<u8>::empty());
    lemma_dec_field_bounds(s2);
    let k2 = enc_varint_field(2, d.nanos as u64).len() as int;
    assert(s2.skip(k2) =~= Seq::<u8>::empty());
    assert(dec_duration_fields(s, None, None) == dec_duration_fields(
        s.skip(k1),
        Some(d.secs),
        None,
    ));
    assert(dec_duration_fields(s2, Some(d.secs), None) == dec_duration_fields(
        s2.skip(k2),
        Some(d.secs),
        Some(d.nanos as u64),
    ));
    assert(dec_duration_fields(Seq::<u8>::empty(), Some(d.secs), Some(d.nanos as u64)) == Some(
        (Some(d.secs), Some(d.nanos as u64)),
    ));
}

/// Appends the encoding of `d` to `out`.
pub fn write_duration(out: &mut Vec<u8>, d: &Duration)
    ensures
        final(out)@ == old(out)@ + enc_duration(*d),
{
    write_varint_field(out, 1, d.secs);
    write_varint_field(out, 2, d.nanos as u64);
    assert(out@ =~= old(out)@ + enc_duration(*d));
}

/// Decodes the duration message at `buf[pos..end]`, consuming all of it.
pub fn decode_duration(buf: &[u8], pos: usize, end: usize) -> (r: Result<Duration, DecodeError>)
    requires
        pos <= end <= buf@.len(),
    ensures
        match dec_duration(buf@.subrange(pos as int, end as int)) {
            Some(d) => r == Ok::<Duration, DecodeError>(d) && d.wf(),
            None => (r matches Err(e) && e is InvalidInput),
        },
{
    let ghost s = buf@.subrange(pos as int, end as int);
    let mut secs: Option<u64> = None;
    let mut nanos: Option<u64> = None;
    let mut p: usize = pos;
    loop
        invariant
            pos <= p <= end <= buf@.len(),
            s == buf@.subrange(pos as int, end as int),
            dec_duration_fields(s, None, None) == dec_duration_fields(
                buf@.subrange(p as int, end as int),
                secs,
                nanos,
            ),
        ensures
            p == end,
            dec_duration_fields(s, None, None) == Some((secs, nanos)),
        decreases end - p,
    {
        if p >= end {
            proof {
                assert(buf@.subrange(p as int, end as int) =~= Seq::<u8>::empty());
            }
            break ;
        }
        let ghost sp = buf@.subrange(p as int, end as int);
        proof {
            lemma_dec_field_bounds(sp);
        }
        match read_field(buf, p, end) {
            None => {
                return Err(DecodeError::InvalidInput(None));
            },
            Some((f, v, np)) => {
                proof {
                    assert(buf@.subrange(np as int, end as int) =~= sp.skip(np - p));
                }
                match v {
                    FieldRef::Varint(n) => {
                        if f == 1 {
                            secs = Some(n);
                        } else if f == 2 {
                            nanos = Some(n);
                        }
                    },
                    _ => {},
                }
                p = np;
            },
        }
    }
    let secs_v: u64 = match secs {
        Some(x) => x,
        None => 0,
    };
    let nanos_v: u64 = match nanos {
        Some(x) => x,
        None => 0,
    };
    if nanos_v >= 1_000_000_000 {
        return Err(DecodeError::InvalidInput(Some(nanos_v)));
    }
    Ok(Duration::new(secs_v, nanos_v as u32))
}

/// The wire discriminator of each deadline variant.
pub open spec fn deadline_kind(d: Deadline) -> u64 {
    match d {
        Deadline::Infinity => 0,
        Deadline::Within(_) => 1,
        Deadline::Immediate => 2,
    }
}

/// Encoding of a deadline: its discriminator as a varint field, plus the
/// duration as a nested message only when the deadline is bounded.
pub open spec fn enc_deadline(d: Deadline) -> Seq<u8> {
    match d {
        Deadline::Within(dur) => enc_varint_field(1, 1) + enc_len_field(2, enc_duration(dur)),
        _ => enc_varint_field(1, deadline_kind(d)),
    }
}

/// Folds a deadline message's fields into the discriminator and duration
/// slots; a duration field that does not itself decode fails the fold.
pub open spec fn dec_deadline_fields(
    s: Seq<u8>,
    kind: Option<u64>,
    dur: Option<Duration>,
) -> Option<(Option<u64>, Option<Duration>)>
    decreases s.len(),
{
    if s.len() == 0 {
        Some((kind, dur))
    } else {
        match dec_field(s) {
            None => None,
            Some(((f, v), k)) => if 0 < k <= s.len() {
                match v {
                    FieldValue::Varint(n) => if f == 1 {
                        dec_deadline_fields(s.skip(k), Some(n), dur)
                    } else {
                        dec_deadline_fields(s.skip(k), kind, dur)
                    },
                    FieldValue::Bytes(p) => if f == 2 {
                        match dec_duration(p) {
                            None => None,
                            Some(d) => dec_deadline_fields(s.skip(k), kind, Some(d)),
                        }
                    } else {
                        dec_deadline_fields(s.skip(k), kind, dur)
                    },
                    _ => dec_deadline_fields(s.skip(k), kind, dur),
                }
            } else {
                None
            },
        }
    }
}

/// Total decoder of a deadline message: an omitted discriminator defaults to
/// *infinite*, an omitted duration to zero, and an unrecognized
/// discriminator is rejected.
pub open spec fn dec_deadline(s: Seq<u8>) -> Option<Deadline> {
    match dec_deadline_fields(s, None, None) {
        None => None,
        Some((k0, d0)) => {
            let kind = match k0 {
                Some(x) => x,
                None => 0,
            };
            if kind == 0 {
                Some(Deadline::Infinity)
            } else if kind == 2 {
                Some(Deadline::Immediate)
            } else if kind == 1 {
                Some(
                    Deadline::Within(
                        match d0 {
                            Some(d) => d,
                            None => Duration { secs: 0u64, nanos: 0u32 },
                        },
                    ),
                )
            } else {
                None
            }
        },
    }
}

/// A deadline encoding is always short.
pub proof fn lemma_enc_deadline_len(d: Deadline)
    ensures
        enc_deadline(d).len() <= 100,
{
    match d {
        Deadline::Within(dur) => {
            lemma_enc_varint_field_len(1, 1);
            lemma_enc_duration_len(dur);
            lemma_enc_varint_len(tag_value(2, WIRE_LEN));
            lemma_enc_varint_len(enc_duration(dur).len() as u64);
        },
        _ => {
            lemma_enc_varint_field_len(1, deadline_kind(d));
        },
    }
}

/// A well-formed deadline decodes back to itself.
pub proof fn lemma_deadline_round_trip(d: Deadline)
    requires
        d.wf(),
    ensures
        dec_deadline(enc_deadline(d)) == Some(d),
{
    let s = enc_deadline(d);
    match d {
        Deadline::Within(dur) => {
            let payload = enc_duration(dur);
            lemma_enc_duration_len(dur);
            lemma_dec_field_varint(1, 1, enc_len_field(2, payload));
            lemma_dec_field_bounds(s);
            let k1 = enc_varint_field(1, 1).len() as int;
            let s2 = enc_len_field(2, payload) + Seq::<u8>::empty();
            assert(s.skip(k1) =~= s2);
            lemma_dec_field_len(2, payload, Seq::<u8>::empty());
            lemma_dec_field_bounds(s2);
            lemma_duration_round_trip(dur);
            let k2 = enc_len_field(2, payload).len() as int;
            assert(s2.skip(k2) =~= Seq::<u8>::empty());
            assert(dec_deadline_fields(s, None, None) == dec_deadline_fields(
                s.skip(k1),
                Some(1u64),
                None,
            ));
            assert(dec_deadline_fields(s2, Some(1u64), None) == dec_deadline_fields(
                s2.skip(k2),
                Some(1u64),
                Some(dur),
            ));
            assert(dec_deadline_fields(Seq::<u8>::empty(), Some(1u64), Some(dur)) == Some(
                (Some(1u64), Some(dur)),
            ));
        },
        _ => {
            assert(s =~= enc_varint_field(1, deadline_kind(d)) + Seq::<u8>::empty());
            lemma_dec_field_varint(1, deadline_kind(d), Seq::<u8>::empty());
            lemma_dec_field_bounds(s);
            let k1 = enc_varint_field(1, deadline_kind(d)).len() as int;
            assert(s.skip(k1) =~= Seq::<u8>::empty());
            assert(dec_deadline_fields(s, None, None) == dec_deadline_fields(
                s.skip(k1),
                Some(deadline_kind(d)),
                None::<Duration>,
            ));
            assert(dec_deadline_fields(Seq::<u8>::empty(), Some(deadline_kind(d)), None::<Duration>)
                == Some((Some(deadline_kind(d)), None::<Duration>)));
        },
    }
}

/// Appends the encoding of `d` to `out`.
pub fn write_deadline(out: &mut Vec<u8>, d: &Deadline)
    ensures
        final(out)@ == old(out)@ + enc_deadline(*d),
{
    match d {
        Deadline::Infinity => {
            write_varint_field(out, 1, 0);
        },
        Deadline::Immediate => {
            write_varint_field(out, 1, 2);
        },
        Deadline::Within(dur) => {
            write_varint_field(out, 1, 1);
            let payload = encode_duration_payload(dur);
            proof {
                lemma_enc_duration_len(*dur);
            }
            write_len_field(out, 2, payload.as_slice());
            assert(out@ =~= old(out)@ + enc_deadline(*d));
        },
    }
}

/// Encodes a duration as a nested-message payload.
fn encode_duration_payload(d: &Duration) -> (r: Vec<u8>)
    ensures
        r@ == enc_duration(*d),
{
    let mut out: Vec<u8> = Vec::new();
    write_duration(&mut out, d);
    out
}

/// Decodes the deadline message at `buf[pos..end]`, consuming all of it.
pub fn decode_deadline(buf: &[u8], pos: usize, end: usize) -> (r: Result<Deadline, DecodeError>)
    requires
        pos <= end <= buf@.len(),
    ensures
        match dec_deadline(buf@.subrange(pos as int, end as int)) {
            Some(d) => r == Ok::<Deadline, DecodeError>(d) && d.wf(),
            None => (r matches Err(e) && e is InvalidInput),
        },
{
    let ghost s = buf@.subrange(pos as int, end as int);
    let mut kind: Option<u64> = None;
    let mut dur: Option<Duration> = None;
    let mut p: usize = pos;
    loop
        invariant
            pos <= p <= end <= buf@.len(),
            s == buf@.subrange(pos as int, end as int),
            dur matches Some(d) ==> d.wf(),
            dec_deadline_fields(s, None, None) == dec_deadline_fields(
                buf@.subrange(p as int, end as int),
                kind,
                dur,
            ),
        ensures
            p == end,
            dur matches Some(d) ==> d.wf(),
            dec_deadline_fields(s, None, None) == Some((kind, dur)),
        decreases end - p,
    {
        if p >= end {
            proof {
                assert(buf@.subrange(p as int, end as int) =~= Seq::<u8>::empty());
            }
            break ;
        }
        let ghost sp = buf@.subrange(p as int, end as int);
        proof {
            lemma_dec_field_bounds(sp);
        }
        match read_field(buf, p, end) {
            None => {
                return Err(DecodeError::InvalidInput(None));
            },
            Some((f, v, np)) => {
                proof {
                    assert(buf@.subrange(np as int, end as int) =~= sp.skip(np - p));
                }
                match v {
                    FieldRef::Varint(n) => {
                        if f == 1 {
                            kind = Some(n);
                        }
                    },
                    FieldRef::Bytes(a, b) => {
                        if f == 2 {
                            let d = match decode_duration(buf, a, b) {
                                Err(e) => {
                                    return Err(DecodeError::InvalidInput(None));
                                },
                                Ok(d) => d,
                            };
                            dur = Some(d);
                        }
                    },
                    _ => {},
                }
                p = np;
            },
        }
    }
    let kind_v: u64 = match kind {
        Some(x) => x,
        None => 0,
    };
    if kind_v == 0 {
        Ok(Deadline::Infinity)
    } else if kind_v == 2 {
        Ok(Deadline::Immediate)
    } else if kind_v == 1 {
        Ok(
            Deadline::Within(
                match dur {
                    Some(d) => d,
                    None => Duration::new(0, 0),
                },
            ),
        )
    } else {
        Err(DecodeError::InvalidInput(Some(kind_v)))
    }
}

/// The wire discriminator and magnitude of a storage usage.
pub open spec fn storage_usage_parts(u: StorageUsage) -> (u64, u64) {
    match u {
        StorageUsage::Unknown => (0, 0),
        StorageUsage::Approximate(n) => (1, n),
    }
}

/// Encoding of a storage usage: discriminator and magnitude as two varint
/// fields; the magnitude is zero when the usage is unknown.
pub open spec fn enc_storage_usage(u: StorageUsage) -> Seq<u8> {
    enc_varint_field(1, storage_usage_parts(u).0) + enc_varint_field(2, storage_usage_parts(u).1)
}

/// Folds a storage usage message's fields into the discriminator and
/// magnitude slots.
pub open spec fn dec_storage_usage_fields(
    s: Seq<u8>,
    kind: Option<u64>,
    mag: Option<u64>,
) -> Option<(Option<u64>, Option<u64>)>
    decreases s.len(),
{
    if s.len() == 0 {
        Some((kind, mag))
    } else {
        match dec_field(s) {
            None => None,
            Some(((f, v), k)) => if 0 < k <= s.len() {
                let slots = match v {
                    FieldValue::Varint(n) => if f == 1 {
                        (Some(n), mag)
                    } else if f == 2 {
                        (kind, Some(n))
                    } else {
                        (kind, mag)
                    },
                    _ => (kind, mag),
                };
                dec_storage_usage_fields(s.skip(k), slots.0, slots.1)
            } else {
                None
            },
        }
    }
}

/// Total decoder of a storage usage message: omitted fields default to zero
/// (so the empty message is *unknown*); an unrecognized discriminator is
/// rejected.
pub open spec fn dec_storage_usage(s: Seq<u8>) -> Option<StorageUsage> {
    match dec_storage_usage_fields(s, None, None) {
        None => None,
        Some((k0, m0)) => {
            let kind = match k0 {
                Some(x) => x,
                None => 0,
            };
            let mag = match m0 {
                Some(x) => x,
                None => 0,
            };
            if kind == 0 {
                Some(StorageUsage::Unknown)
            } else if kind == 1 {
                Some(StorageUsage::Approximate(mag))
            } else {
                None
            }
        },
    }
}

/// A storage usage decodes back to itself.
pub proof fn lemma_storage_usage_round_trip(u: StorageUsage)
    ensures
        dec_storage_usage(enc_storage_usage(u)) == Some(u),
{
    let (kind, mag) = storage_usage_parts(u);
    let s = enc_storage_usage(u);
    lemma_dec_field_varint(1, kind, enc_varint_field(2, mag));
    lemma_dec_field_bounds(s);
    let k1 = enc_varint_field(1, kind).len() as int;
    let s2 = enc_varint_field(2, mag) + Seq::<u8>::empty();
    assert(s.skip(k1) =~= s2);
    lemma_dec_field_varint(2, mag, Seq::<u8>::empty());
    lemma_dec_field_bounds(s2);
    let k2 = enc_varint_field(2, mag).len() as int;
    assert(s2.skip(k2) =~= Seq::<u8>::empty());
    assert(dec_storage_usage_fields(s, None, None) == dec_storage_usage_fields(
        s.skip(k1),
        Some(kind),
        None,
    ));
    assert(dec_storage_usage_fields(s2, Some(kind), None) == dec_storage_usage_fields(
        s2.skip(k2),
        Some(kind),
        Some(mag),
    ));
    assert(dec_storage_usage_fields(Seq::<u8>::empty(), Some(kind), Some(mag)) == Some(
        (Some(kind), Some(mag)),
    ));
}

/// Appends the encoding of `u` to `out`.
pub fn write_storage_usage(out: &mut Vec<u8>, u: &StorageUsage)
    ensures
        final(out)@ == old(out)@ + enc_storage_usage(*u),
{
    match u {
        StorageUsage::Unknown => {
            write_varint_field(out, 1, 0);
            write_varint_field(out, 2, 0);
        },
        StorageUsage::Approximate(n) => {
            write_varint_field(out, 1, 1);
            write_varint_field(out, 2, *n);
        },
    }
    assert(out@ =~= old(out)@ + enc_storage_usage(*u));
}

/// Decodes the storage usage message at `buf[pos..end]`, consuming all of it.
pub fn decode_storage_usage(buf: &[u8], pos: usize, end: usize) -> (r: Result<
    StorageUsage,
    DecodeError,
>)
    requires
        pos <= end <= buf@.len(),
    ensures
        match dec_storage_usage(buf@.subrange(pos as int, end as int)) {
            Some(u) => r == Ok::<StorageUsage, DecodeError>(u),
            None => (r matches Err(e) && e is InvalidInput),
        },
{
    let ghost s = buf@.subrange(pos as int, end as int);
    let mut kind: Option<u64> = None;
    let mut mag: Option<u64> = None;
    let mut p: usize = pos;
    loop
        invariant
            pos <= p <= end <= buf@.len(),
            s == buf@.subrange(pos as int, end as int),
            dec_storage_usage_fields(s, None, None) == dec_storage_usage_fields(
                buf@.subrange(p as int, end as int),
                kind,
                mag,
            ),
        ensures
            p == end,
            dec_storage_usage_fields(s, None, None) == Some((kind, mag)),
        decreases end - p,
    {
        if p >= end {
            proof {
                assert(buf@.subrange(p as int, end as int) =~= Seq::<u8>::empty());
            }
            break ;
        }
        let ghost sp = buf@.subrange(p as int, end as int);
        proof {
            lemma_dec_field_bounds(sp);
        }
        match read_field(buf, p, end) {
            None => {
                return Err(DecodeError::InvalidInput(None));
            },
            Some((f, v, np)) => {
                proof {
                    assert(buf@.subrange(np as int, end as int) =~= sp.skip(np - p));
                }
                match v {
                    FieldRef::Varint(n) => {
                        if f == 1 {
                            kind = Some(n);
                        } else if f == 2 {
                            mag = Some(n);
                        }
                    },
                    _ => {},
                }
                p = np;
            },
        }
    }
    let kind_v: u64 = match kind {
        Some(x) => x,
        None => 0,
    };
    let mag_v: u64 = match mag {
        Some(x) => x,
        None => 0,
    };
    if kind_v == 0 {
        Ok(StorageUsage::Unknown)
    } else if kind_v == 1 {
        Ok(StorageUsage::Approximate(mag_v))
    } else {
        Err(DecodeError::InvalidInput(Some(kind_v)))
    }
}

/// Encoding of request options: the deadline as a nested message and the
/// queue-length bound as a varint field carrying `n + 1` (`0` for no limit).
pub open spec fn enc_request_options(o: RequestOptions) -> Seq<u8> {
    enc_len_field(1, enc_deadline(o.deadline)) + enc_varint_field(
        2,
        o.spec_queue_len_wire() as u64,
    )
}

/// Folds a request options message's fields into the deadline and
/// queue-length slots; a deadline field that does not itself decode fails
/// the fold.
pub open spec fn dec_request_options_fields(
    s: Seq<u8>,
    dl: Option<Deadline>,
    q: Option<u64>,
) -> Option<(Option<Deadline>, Option<u64>)>
    decreases s.len(),
{
    if s.len() == 0 {
        Some((dl, q))
    } else {
        match dec_field(s) {
            None => None,
            Some(((f, v), k)) => if 0 < k <= s.len() {
                match v {
                    FieldValue::Bytes(p) => if f == 1 {
                        match dec_deadline(p) {
                            None => None,
                            Some(d) => dec_request_options_fields(s.skip(k), Some(d), q),
                        }
                    } else {
                        dec_request_options_fields(s.skip(k), dl, q)
                    },
                    FieldValue::Varint(n) => if f == 2 {
                        dec_request_options_fields(s.skip(k), dl, Some(n))
                    } else {
                        dec_request_options_fields(s.skip(k), dl, q)
                    },
                    _ => dec_request_options_fields(s.skip(k), dl, q),
                }
            } else {
                None
            },
        }
    }
}

/// Total decoder of a request options message: an omitted deadline defaults
/// to *infinite*, an omitted queue-length field to no limit, and the
/// queue-length field must fit 32 bits.
pub open spec fn dec_request_options(s: Seq<u8>) -> Option<RequestOptions> {
    match dec_request_options_fields(s, None, None) {
        None => None,
        Some((dl0, q0)) => {
            let dl = match dl0 {
                Some(d) => d,
                None => Deadline::Infinity,
            };
            let q = match q0 {
                Some(x) => x,
                None => 0,
            };
            if q <= 0xFFFF_FFFF {
                Some(
                    RequestOptions {
                        deadline: dl,
                        max_queue_len: if q == 0 {
                            None
                        } else {
                            Some((q - 1) as usize)
                        },
                    },
                )
            } else {
                None
            }
        },
    }
}

/// Well-formed, encodable request options decode back to themselves;
/// in particular the queue-length bound `None` round-trips through wire value
/// `0` and `Some(0)` through wire value `1`.
pub proof fn lemma_request_options_round_trip(o: RequestOptions)
    requires
        o.wf(),
        o.queue_len_encodable(),
    ensures
        dec_request_options(enc_request_options(o)) == Some(o),
{
    let payload = enc_deadline(o.deadline);
    let q = o.spec_queue_len_wire() as u64;
    let s = enc_request_options(o);
    lemma_enc_deadline_len(o.deadline);
    lemma_dec_field_len(1, payload, enc_varint_field(2, q));
    lemma_dec_field_bounds(s);
    lemma_deadline_round_trip(o.deadline);
    let k1 = enc_len_field(1, payload).len() as int;
    let s2 = enc_varint_field(2, q) + Seq::<u8>::empty();
    assert(s.skip(k1) =~= s2);
    lemma_dec_field_varint(2, q, Seq::<u8>::empty());
    lemma_dec_field_bounds(s2);
    let k2 = enc_varint_field(2, q).len() as int;
    assert(s2.skip(k2) =~= Seq::<u8>::empty());
    assert(dec_request_options_fields(s, None, None) == dec_request_options_fields(
        s.skip(k1),
        Some(o.deadline),
        None,
    ));
    assert(dec_request_options_fields(s2, Some(o.deadline), None) == dec_request_options_fields(
        s2.skip(k2),
        Some(o.deadline),
        Some(q),
    ));
    assert(dec_request_options_fields(Seq::<u8>::empty(), Some(o.deadline), Some(q)) == Some(
        (Some(o.deadline), Some(q)),
    ));
    assert(dec_request_options(s) == Some(o));
}

/// Appends the encoding of `o` to `out`.
pub fn write_request_options(out: &mut Vec<u8>, o: &RequestOptions)
    requires
        o.queue_len_encodable(),
    ensures
        final(out)@ == old(out)@ + enc_request_options(*o),
{
    let mut payload: Vec<u8> = Vec::new();
    write_deadline(&mut payload, &o.deadline);
    proof {
        lemma_enc_deadline_len(o.deadline);
    }
    write_len_field(out, 1, payload.as_slice());
    let q: u64 = match o.max_queue_len {
        None => 0,
        Some(n) => n as u64 + 1,
    };
    write_varint_field(out, 2, q);
    assert(out@ =~= old(out)@ + enc_request_options(*o));
}

/// Decodes the request options message at `buf[pos..end]`, consuming all of
/// it.
pub fn decode_request_options(buf: &[u8], pos: usize, end: usize) -> (r: Result<
    RequestOptions,
    DecodeError,
>)
    requires
        pos <= end <= buf@.len(),
    ensures
        match dec_request_options(buf@.subrange(pos as int, end as int)) {
            Some(o) => r == Ok::<RequestOptions, DecodeError>(o) && o.wf()
                && o.queue_len_encodable(),
            None => (r matches Err(e) && e is InvalidInput),
        },
{
    let ghost s = buf@.subrange(pos as int, end as int);
    let mut dl: Option<Deadline> = None;
    let mut q: Option<u64> = None;
    let mut p: usize = pos;
    loop
        invariant
            pos <= p <= end <= buf@.len(),
            s == buf@.subrange(pos as int, end as int),
            dl matches Some(d) ==> d.wf(),
            dec_request_options_fields(s, None, None) == dec_request_options_fields(
                buf@.subrange(p as int, end as int),
                dl,
                q,
            ),
        ensures
            p == end,
            dl matches Some(d) ==> d.wf(),
            dec_request_options_fields(s, None, None) == Some((dl, q)),
        decreases end - p,
    {
        if p >= end {
            proof {
                assert(buf@.subrange(p as int, end as int) =~= Seq::<u8>::empty());
            }
            break ;
        }
        let ghost sp = buf@.subrange(p as int, end as int);
        proof {
            lemma_dec_field_bounds(sp);
        }
        match read_field(buf, p, end) {
            None => {
                return Err(DecodeError::InvalidInput(None));
            },
            Some((f, v, np)) => {
                proof {
                    assert(buf@.subrange(np as int, end as int) =~= sp.skip(np - p));
                }
                match v {
                    FieldRef::Bytes(a, b) => {
                        if f == 1 {
                            let d = match decode_deadline(buf, a, b) {
                                Err(e) => {
                                    return Err(DecodeError::InvalidInput(None));
                                },
                                Ok(d) => d,
                            };
                            dl = Some(d);
                        }
                    },
                    FieldRef::Varint(n) => {
                        if f == 2 {
                            q = Some(n);
                        }
                    },
                    _ => {},
                }
                p = np;
            },
        }
    }
    let deadline: Deadline = match dl {
        Some(d) => d,
        None => Deadline::Infinity,
    };
    let q_v: u64 = match q {
        Some(x) => x,
        None => 0,
    };
    if q_v > 0xFFFF_FFFF {
        return Err(DecodeError::InvalidInput(Some(q_v)));
    }
    let max_queue_len: Option<usize> = if q_v == 0 {
        None
    } else {
        Some((q_v - 1) as usize)
    };
    Ok(RequestOptions { deadline, max_queue_len })
}

/// Encoding of a domain error: the kind's tag and the context message, each
/// as a UTF-8 length-delimited field.
pub open spec fn enc_error(kind: ErrorKind, message: Seq<char>) -> Seq<u8> {
    enc_len_field(1, encode_utf8(spec_kind_tag(kind))) + enc_len_field(2, encode_utf8(message))
}

/// Folds a domain error message's fields into the kind and message slots;
/// byte sequences that are not UTF-8 fail the fold.
pub open spec fn dec_error_fields(
    s: Seq<u8>,
    kind: Option<ErrorKind>,
    msg: Option<Seq<char>>,
) -> Option<(Option<ErrorKind>, Option<Seq<char>>)>
    decreases s.len(),
{
    if s.len() == 0 {
        Some((kind, msg))
    } else {
        match dec_field(s) {
            None => None,
            Some(((f, v), k)) => if 0 < k <= s.len() {
                match v {
                    FieldValue::Bytes(p) => if f == 1 {
                        if valid_utf8(p) {
                            dec_error_fields(s.skip(k), Some(spec_kind_of_tag(decode_utf8(p))), msg)
                        } else {
                            None
                        }
                    } else if f == 2 {
                        if valid_utf8(p) {
                            dec_error_fields(s.skip(k), kind, Some(decode_utf8(p)))
                        } else {
                            None
                        }
                    } else {
                        dec_error_fields(s.skip(k), kind, msg)
                    },
                    _ => dec_error_fields(s.skip(k), kind, msg),
                }
            } else {
                None
            },
        }
    }
}

/// Total decoder of a domain error message.  An unrecognized kind tag folds
/// to `Other`, as does an omitted one; an omitted message is empty.
pub open spec fn dec_error(s: Seq<u8>) -> Option<(ErrorKind, Seq<char>)> {
    match dec_error_fields(s, None, None) {
        None => None,
        Some((k0, m0)) => Some(
            (
                match k0 {
                    Some(k) => k,
                    None => ErrorKind::Other,
                },
                match m0 {
                    Some(m) => m,
                    None => Seq::<char>::empty(),
                },
            ),
        ),
    }
}

/// An error encoding is bounded by the message's length.
pub proof fn lemma_enc_error_len(kind: ErrorKind, message: Seq<char>)
    requires
        message.len() <= 0xFFFF_FFFF,
    ensures
        enc_error(kind, message).len() <= 0x6_0000_0000,
{
    let tb = encode_utf8(spec_kind_tag(kind));
    let mb = encode_utf8(message);
    crate::wire::lemma_encode_utf8_len(spec_kind_tag(kind));
    crate::wire::lemma_encode_utf8_len(message);
    assert(spec_kind_tag(kind).len() <= 17) by {
        reveal_strlit("StorageFull");
        reveal_strlit("StorageCorrupted");
        reveal_strlit("DeviceBusy");
        reveal_strlit("DeviceTerminated");
        reveal_strlit("InvalidInput");
        reveal_strlit("InconsistentState");
        reveal_strlit("Other");
    }
    lemma_enc_varint_len(tag_value(1, WIRE_LEN));
    lemma_enc_varint_len(tb.len() as u64);
    lemma_enc_varint_len(tag_value(2, WIRE_LEN));
    lemma_enc_varint_len(mb.len() as u64);
}

/// An error's kind and message decode back to themselves, whatever the kind.
pub proof fn lemma_error_round_trip(kind: ErrorKind, message: Seq<char>)
    requires
        message.len() <= 0xFFFF_FFFF,
    ensures
        dec_error(enc_error(kind, message)) == Some((kind, message)),
{
    let tb = encode_utf8(spec_kind_tag(kind));
    let mb = encode_utf8(message);
    let s = enc_error(kind, message);
    lemma_enc_error_len(kind, message);
    lemma_dec_field_len(1, tb, enc_len_field(2, mb));
    lemma_dec_field_bounds(s);
    let k1 = enc_len_field(1, tb).len() as int;
    let s2 = enc_len_field(2, mb) + Seq::<u8>::empty();
    assert(s.skip(k1) =~= s2);
    lemma_dec_field_len(2, mb, Seq::<u8>::empty());
    lemma_dec_field_bounds(s2);
    let k2 = enc_len_field(2, mb).len() as int;
    assert(s2.skip(k2) =~= Seq::<u8>::empty());
    encode_utf8_valid_utf8(spec_kind_tag(kind));
    encode_utf8_valid_utf8(message);
    encode_utf8_decode_utf8(spec_kind_tag(kind));
    encode_utf8_decode_utf8(message);
    lemma_kind_tag_round_trip(kind);
    assert(dec_error_fields(s, None, None) == dec_error_fields(
        s.skip(k1),
        Some(spec_kind_of_tag(decode_utf8(tb))),
        None,
    ));
    assert(dec_error_fields(s2, Some(kind), None) == dec_error_fields(
        s2.skip(k2),
        Some(kind),
        Some(decode_utf8(mb)),
    ));
    assert(dec_error_fields(Seq::<u8>::empty(), Some(kind), Some(message)) == Some(
        (Some(kind), Some(message)),
    ));
}

/// Appends the encoding of `e` to `out`.
pub fn write_error(out: &mut Vec<u8>, e: &Error)
    ensures
        final(out)@ == old(out)@ + enc_error(e.kind, e.message@),
{
    let tag = kind_tag(e.kind);
    let tb = tag.as_bytes();
    let n1: usize = tb.len();
    write_len_field(out, 1, tb);
    let mb = e.message.as_str().as_bytes();
    let n2: usize = mb.len();
    write_len_field(out, 2, mb);
    assert(out@ =~= old(out)@ + enc_error(e.kind, e.message@));
}

/// Decodes the domain error message at `buf[pos..end]`, consuming all of it.
pub fn decode_error(buf: &[u8], pos: usize, end: usize) -> (r: Result<Error, DecodeError>)
    requires
        pos <= end <= buf@.len(),
    ensures
        match dec_error(buf@.subrange(pos as int, end as int)) {
            Some((k, msg)) => r matches Ok(e) && e.kind == k && e.message@ == msg,
            None => (r matches Err(e) && e is InvalidInput),
        },
{
    let ghost s = buf@.subrange(pos as int, end as int);
    let mut kind: Option<ErrorKind> = None;
    let mut msg: Option<String> = None;
    let ghost mut kind_g: Option<ErrorKind> = None;
    let ghost mut msg_g: Option<Seq<char>> = None;
    let mut p: usize = pos;
    loop
        invariant
            pos <= p <= end <= buf@.len(),
            s == buf@.subrange(pos as int, end as int),
            kind == kind_g,
            (msg matches Some(m) && msg_g matches Some(g) && m@ == g) || (msg is None && msg_g
                is None),
            dec_error_fields(s, None, None) == dec_error_fields(
                buf@.subrange(p as int, end as int),
                kind_g,
                msg_g,
            ),
        ensures
            p == end,
            kind == kind_g,
            (msg matches Some(m) && msg_g matches Some(g) && m@ == g) || (msg is None && msg_g
                is None),
            dec_error_fields(s, None, None) == Some((kind_g, msg_g)),
        decreases end - p,
    {
        if p >= end {
            proof {
                assert(buf@.subrange(p as int, end as int) =~= Seq::<u8>::empty());
            }
            break ;
        }
        let ghost sp = buf@.subrange(p as int, end as int);
        proof {
            lemma_dec_field_bounds(sp);
        }
        match read_field(buf, p, end) {
            None => {
                return Err(DecodeError::InvalidInput(None));
            },
            Some((f, v, np)) => {
                proof {
                    assert(buf@.subrange(np as int, end as int) =~= sp.skip(np - p));
                }
                match v {
                    FieldRef::Bytes(a, b) => {
                        if f == 1 {
                            let bytes = copy_range(buf, a, b);
                            let tag = match string_from_utf8(bytes) {
                                None => {
                                    return Err(DecodeError::InvalidInput(None));
                                },
                                Some(t) => t,
                            };
                            proof {
                                encode_utf8_decode_utf8(tag@);
                            }
                            kind = Some(kind_of_tag(&tag));
                            proof {
                                kind_g = Some(spec_kind_of_tag(decode_utf8(buf@.subrange(
                                    a as int,
                                    b as int,
                                ))));
                            }
                        } else if f == 2 {
                            let bytes = copy_range(buf, a, b);
                            let m = match string_from_utf8(bytes) {
                                None => {
                                    return Err(DecodeError::InvalidInput(None));
                                },
                                Some(m) => m,
                            };
                            proof {
                                encode_utf8_decode_utf8(m@);
                                msg_g = Some(decode_utf8(buf@.subrange(a as int, b as int)));
                            }
                            msg = Some(m);
                        }
                    },
                    _ => {},
                }
                p = np;
            },
        }
    }
    let kind_v: ErrorKind = match kind {
        Some(k) => k,
        None => ErrorKind::Other,
    };
    let message: String = match msg {
        Some(m) => m,
        None => String::new(),
    };
    Ok(Error { kind: kind_v, message })
}

} // verus!
