//! Codec for the response messages: every operation's response is exactly one
//! of a success payload or a domain error, never both.
//!
//! The get-lump and head-lump responses additionally distinguish "found"
//! from "not found": absence of both fields is the well-formed encoding of
//! "not found", so those responses are an *optional* union.  As everywhere
//! in this codec, the decoders accept fields in any order, let later
//! occurrences win, and skip unknown fields.

use vstd::prelude::*;

use crate::error::{DecodeError, Error, ErrorKind};
use crate::lump::{LumpData, LumpDataKind, LumpHeader, LumpId, StorageUsage, MAX_LUMP_DATA_SIZE};
use crate::codec::{enc_lump_id, dec_lump_id, enc_storage_usage, dec_storage_usage, enc_error,
    dec_error, lemma_lump_id_round_trip, lemma_storage_usage_round_trip, lemma_error_round_trip,
    lemma_enc_error_len, decode_lump_id, write_storage_usage, decode_storage_usage, write_error,
    decode_error};
use crate::wire::{enc_varint_field, enc_len_field, FieldValue, FieldRef, dec_field,
    lemma_dec_field_bounds, lemma_dec_field_varint, lemma_dec_field_len, read_field,
    lemma_enc_varint_field_len, write_varint_field, write_len_field, copy_range};

verus! {

/// The view of a domain error in decoded responses: its kind and the
/// characters of its context message.
pub open spec fn error_view(e: Error) -> (ErrorKind, Seq<char>) {
    (e.kind, e.message@)
}

/// Encoding of the error arm of a response: the error as a nested message in
/// field two.
pub open spec fn enc_error_field(e: Error) -> Seq<u8> {
    enc_len_field(2, enc_error(e.kind, e.message@))
}

/// Appends the error arm of a response to `out`.
pub fn write_error_field(out: &mut Vec<u8>, e: &Error)
    ensures
        final(out)@ == old(out)@ + enc_error_field(*e),
{
    let mut p: Vec<u8> = Vec::new();
    write_error(&mut p, e);
    let n: usize = p.len();
    write_len_field(out, 2, p.as_slice());
    assert(out@ =~= old(out)@ + enc_error_field(*e));
}

/// Encoding of a boolean response (put-lump and delete-lump): exactly one of
/// the boolean in field one or the error in field two.
pub open spec fn enc_bool_response(r: Result<bool, Error>) -> Seq<u8> {
    match r {
        Ok(b) => enc_varint_field(
            1,
            if b {
                1
            } else {
                0
            },
        ),
        Err(e) => enc_error_field(e),
    }
}

/// Folds a boolean response's fields into the union slot; the later of the
/// boolean and error arms wins.
pub open spec fn dec_bool_response_fields(
    s: Seq<u8>,
    slot: Option<Result<bool, (ErrorKind, Seq<char>)>>,
) -> Option<Option<Result<bool, (ErrorKind, Seq<char>)>>>
    decreases s.len(),
{
    if s.len() == 0 {
        Some(slot)
    } else {
        match dec_field(s) {
            None => None,
            Some(((f, v), k)) => if 0 < k <= s.len() {
                match v {
                    FieldValue::Varint(n) => if f == 1 {
                        dec_bool_response_fields(s.skip(k), Some(Ok(n != 0)))
                    } else {
                        dec_bool_response_fields(s.skip(k), slot)
                    },
                    FieldValue::Bytes(p) => if f == 2 {
                        match dec_error(p) {
                            None => None,
                            Some(em) => dec_bool_response_fields(s.skip(k), Some(Err(em))),
                        }
                    } else {
                        dec_bool_response_fields(s.skip(k), slot)
                    },
                    _ => dec_bool_response_fields(s.skip(k), slot),
                }
            } else {
                None
            },
        }
    }
}

/// Total decoder of a boolean response; one of the two arms must be present.
pub open spec fn dec_bool_response(s: Seq<u8>) -> Option<Result<bool, (ErrorKind, Seq<char>)>> {
    match dec_bool_response_fields(s, None) {
        Some(Some(r)) => Some(r),
        _ => None,
    }
}

/// A boolean response decodes back to itself.
pub proof fn lemma_bool_response_round_trip(r: Result<bool, Error>)
    requires
        r matches Err(e) ==> e.message@.len() <= 0xFFFF_FFFF,
    ensures
        dec_bool_response(enc_bool_response(r)) == Some(
            match r {
                Ok(b) => Ok::<bool, (ErrorKind, Seq<char>)>(b),
                Err(e) => Err::<bool, (ErrorKind, Seq<char>)>(error_view(e)),
            },
        ),
{
    let s = enc_bool_response(r);
    match r {
        Ok(b) => {
            let v: u64 = if b {
                1
            } else {
                0
            };
            assert(s =~= enc_varint_field(1, v) + Seq::<u8>::empty());
            lemma_dec_field_varint(1, v, Seq::<u8>::empty());
            lemma_dec_field_bounds(s);
            let k1 = enc_varint_field(1, v).len() as int;
            assert(s.skip(k1) =~= Seq::<u8>::empty());
            assert(dec_bool_response_fields(s, None) == dec_bool_response_fields(
                s.skip(k1),
                Some(Ok(b)),
            ));
            assert(dec_bool_response_fields(Seq::<u8>::empty(), Some(Ok(b))) == Some(
                Some(Ok::<bool, (ErrorKind, Seq<char>)>(b)),
            ));
        },
        Err(e) => {
            let p = enc_error(e.kind, e.message@);
            lemma_enc_error_len(e.kind, e.message@);
            assert(s =~= enc_len_field(2, p) + Seq::<u8>::empty());
            lemma_dec_field_len(2, p, Seq::<u8>::empty());
            lemma_dec_field_bounds(s);
            lemma_error_round_trip(e.kind, e.message@);
            let k1 = enc_len_field(2, p).len() as int;
            assert(s.skip(k1) =~= Seq::<u8>::empty());
            assert(dec_bool_response_fields(s, None) == dec_bool_response_fields(
                s.skip(k1),
                Some(Err(error_view(e))),
            ));
            assert(dec_bool_response_fields(Seq::<u8>::empty(), Some(Err(error_view(e)))) == Some(
                Some(Err::<bool, (ErrorKind, Seq<char>)>(error_view(e))),
            ));
        },
    }
}

/// Appends the encoding of `r` to `out`.
pub fn write_bool_response(out: &mut Vec<u8>, r: &Result<bool, Error>)
    ensures
        final(out)@ == old(out)@ + enc_bool_response(*r),
{
    match r {
        Ok(b) => {
            write_varint_field(
                out,
                1,
                if *b {
                    1
                } else {
                    0
                },
            );
        },
        Err(e) => {
            write_error_field(out, e);
        },
    }
    assert(out@ =~= old(out)@ + enc_bool_response(*r));
}

/// Encodes `r` as a whole message.
pub fn encode_bool_response(r: &Result<bool, Error>) -> (out: Vec<u8>)
    ensures
        out@ == enc_bool_response(*r),
{
    let mut out: Vec<u8> = Vec::new();
    write_bool_response(&mut out, r);
    out
}

/// Decodes the boolean response at `buf[pos..end]`, consuming all of it.
pub fn decode_bool_response(buf: &[u8], pos: usize, end: usize) -> (r: Result<
    Result<bool, Error>,
    DecodeError,
>)
    requires
        pos <= end <= buf@.len(),
    ensures
        match dec_bool_response(buf@.subrange(pos as int, end as int)) {
            Some(Ok(b)) => r == Ok::<Result<bool, Error>, DecodeError>(Ok(b)),
            Some(Err((k, m))) => r matches Ok(res) && res matches Err(e) && e.kind == k
                && e.message@ == m,
            None => (r matches Err(e) && e is InvalidInput),
        },
{
    let ghost s = buf@.subrange(pos as int, end as int);
    let mut slot: Option<Result<bool, Error>> = None;
    let ghost mut slot_g: Option<Result<bool, (ErrorKind, Seq<char>)>> = None;
    let mut p: usize = pos;
    loop
        invariant
            pos <= p <= end <= buf@.len(),
            s == buf@.subrange(pos as int, end as int),
            match (slot, slot_g) {
                (Some(Ok(b1)), Some(Ok(b2))) => b1 == b2,
                (Some(Err(e)), Some(Err((k, m)))) => e.kind == k && e.message@ == m,
                (None, None) => true,
                _ => false,
            },
            dec_bool_response_fields(s, None) == dec_bool_response_fields(
                buf@.subrange(p as int, end as int),
                slot_g,
            ),
        ensures
            p == end,
            match (slot, slot_g) {
                (Some(Ok(b1)), Some(Ok(b2))) => b1 == b2,
                (Some(Err(e)), Some(Err((k, m)))) => e.kind == k && e.message@ == m,
                (None, None) => true,
                _ => false,
            },
            dec_bool_response_fields(s, None) == Some(slot_g),
        decreases end - p,
    {
        if p >= end {
            proof {
                assert(buf@.subrange(p as int, end as int) =~= Seq::<u8>::empty());
            }
            break ;
        }
        let ghost sp = buf@.subrange(p as int, end as int);
        proof {
            lemma_dec_field_bounds(sp);
        }
        match read_field(buf, p, end) {
            None => {
                return Err(DecodeError::InvalidInput(None));
            },
            Some((f, v, np)) => {
                proof {
                    assert(buf@.subrange(np as int, end as int) =~= sp.skip(np - p));
                }
                match v {
                    FieldRef::Varint(n) => {
                        if f == 1 {
                            slot = Some(Ok(n != 0));
                            proof {
                                slot_g = Some(Ok(n != 0));
                            }
                        }
                    },
                    FieldRef::Bytes(a, b) => {
                        if f == 2 {
                            let e = match decode_error(buf, a, b) {
                                Err(de) => {
                                    return Err(DecodeError::InvalidInput(None));
                                },
                                Ok(e) => e,
                            };
                            proof {
                                slot_g = Some(
                                    Err(
                                        dec_error(
                                            buf@.subrange(a as int, b as int),
                                        ).unwrap(),
                                    ),
                                );
                            }
                            slot = Some(Err(e));
                        }
                    },
                    _ => {},
                }
                p = np;
            },
        }
    }
    match slot {
        Some(res) => Ok(res),
        None => Err(DecodeError::InvalidInput(None)),
    }
}

/// Encoding of a head-lump response: nothing for "not found", the
/// approximate size in field one, or the error in field two.
pub open spec fn enc_head_response(r: Result<Option<LumpHeader>, Error>) -> Seq<u8> {
    match r {
        Ok(None) => Seq::<u8>::empty(),
        Ok(Some(h)) => enc_varint_field(1, h.approximate_data_size as u64),
        Err(e) => enc_error_field(e),
    }
}

/// Folds a head-lump response's fields into the union slot; a size beyond
/// 32 bits fails the fold.
pub open spec fn dec_head_response_fields(
    s: Seq<u8>,
    slot: Option<Result<u32, (ErrorKind, Seq<char>)>>,
) -> Option<Option<Result<u32, (ErrorKind, Seq<char>)>>>
    decreases s.len(),
{
    if s.len() == 0 {
        Some(slot)
    } else {
        match dec_field(s) {
            None => None,
            Some(((f, v), k)) => if 0 < k <= s.len() {
                match v {
                    FieldValue::Varint(n) => if f == 1 {
                        if n <= u32::MAX {
                            dec_head_response_fields(s.skip(k), Some(Ok(n as u32)))
                        } else {
                            None
                        }
                    } else {
                        dec_head_response_fields(s.skip(k), slot)
                    },
                    FieldValue::Bytes(p) => if f == 2 {
                        match dec_error(p) {
                            None => None,
                            Some(em) => dec_head_response_fields(s.skip(k), Some(Err(em))),
                        }
                    } else {
                        dec_head_response_fields(s.skip(k), slot)
                    },
                    _ => dec_head_response_fields(s.skip(k), slot),
                }
            } else {
                None
            },
        }
    }
}

/// Total decoder of a head-lump response; an empty message is "not found".
pub open spec fn dec_head_response(s: Seq<u8>) -> Option<
    Result<Option<u32>, (ErrorKind, Seq<char>)>,
> {
    match dec_head_response_fields(s, None) {
        None => None,
        Some(None) => Some(Ok(None)),
        Some(Some(Ok(n))) => Some(Ok(Some(n))),
        Some(Some(Err(em))) => Some(Err(em)),
    }
}

/// A head-lump response decodes back to itself.
pub proof fn lemma_head_response_round_trip(r: Result<Option<LumpHeader>, Error>)
    requires
        r matches Err(e) ==> e.message@.len() <= 0xFFFF_FFFF,
    ensures
        dec_head_response(enc_head_response(r)) == Some(
            match r {
                Ok(None) => Ok::<Option<u32>, (ErrorKind, Seq<char>)>(None),
                Ok(Some(h)) => Ok::<Option<u32>, (ErrorKind, Seq<char>)>(
                    Some(h.approximate_data_size),
                ),
                Err(e) => Err::<Option<u32>, (ErrorKind, Seq<char>)>(error_view(e)),
            },
        ),
{
    let s = enc_head_response(r);
    match r {
        Ok(None) => {
            assert(dec_head_response_fields(Seq::<u8>::empty(), None) == Some(
                None::<Result<u32, (ErrorKind, Seq<char>)>>,
            ));
        },
        Ok(Some(h)) => {
            let v = h.approximate_data_size as u64;
            assert(s =~= enc_varint_field(1, v) + Seq::<u8>::empty());
            lemma_dec_field_varint(1, v, Seq::<u8>::empty());
            lemma_dec_field_bounds(s);
            let k1 = enc_varint_field(1, v).len() as int;
            assert(s.skip(k1) =~= Seq::<u8>::empty());
            assert(dec_head_response_fields(s, None) == dec_head_response_fields(
                s.skip(k1),
                Some(Ok(h.approximate_data_size)),
            ));
            assert(dec_head_response_fields(
                Seq::<u8>::empty(),
                Some(Ok(h.approximate_data_size)),
            ) == Some(Some(Ok::<u32, (ErrorKind, Seq<char>)>(h.approximate_data_size))));
        },
        Err(e) => {
            let p = enc_error(e.kind, e.message@);
            lemma_enc_error_len(e.kind, e.message@);
            assert(s =~= enc_len_field(2, p) + Seq::<u8>::empty());
            lemma_dec_field_len(2, p, Seq::<u8>::empty());
            lemma_dec_field_bounds(s);
            lemma_error_round_trip(e.kind, e.message@);
            let k1 = enc_len_field(2, p).len() as int;
            assert(s.skip(k1) =~= Seq::<u8>::empty());
            assert(dec_head_response_fields(s, None) == dec_head_response_fields(
                s.skip(k1),
                Some(Err(error_view(e))),
            ));
            assert(dec_head_response_fields(Seq::<u8>::empty(), Some(Err(error_view(e)))) == Some(
                Some(Err::<u32, (ErrorKind, Seq<char>)>(error_view(e))),
            ));
        },
    }
}

/// Appends the encoding of `r` to `out`.
pub fn write_head_response(out: &mut Vec<u8>, r: &Result<Option<LumpHeader>, Error>)
    ensures
        final(out)@ == old(out)@ + enc_head_response(*r),
{
    match r {
        Ok(None) => {
        },
        Ok(Some(h)) => {
            write_varint_field(out, 1, h.approximate_data_size as u64);
        },
        Err(e) => {
            write_error_field(out, e);
        },
    }
    assert(out@ =~= old(out)@ + enc_head_response(*r));
}

/// Encodes `r` as a whole message.
pub fn encode_head_response(r: &Result<Option<LumpHeader>, Error>) -> (out: Vec<u8>)
    ensures
        out@ == enc_head_response(*r),
{
    let mut out: Vec<u8> = Vec::new();
    write_head_response(&mut out, r);
    out
}

/// Decodes the head-lump response at `buf[pos..end]`, consuming all of it.
pub fn decode_head_response(buf: &[u8], pos: usize, end: usize) -> (r: Result<
    Result<Option<LumpHeader>, Error>,
    DecodeError,
>)
    requires
        pos <= end <= buf@.len(),
    ensures
        match dec_head_response(buf@.subrange(pos as int, end as int)) {
            Some(Ok(None)) => r == Ok::<Result<Option<LumpHeader>, Error>, DecodeError>(Ok(None)),
            Some(Ok(Some(n))) => r == Ok::<Result<Option<LumpHeader>, Error>, DecodeError>(
                Ok(Some(LumpHeader { approximate_data_size: n })),
            ),
            Some(Err((k, m))) => r matches Ok(res) && res matches Err(e) && e.kind == k
                && e.message@ == m,
            None => (r matches Err(e) && e is InvalidInput),
        },
{
    let ghost s = buf@.subrange(pos as int, end as int);
    let mut slot: Option<Result<u32, Error>> = None;
    let ghost mut slot_g: Option<Result<u32, (ErrorKind, Seq<char>)>> = None;
    let mut p: usize = pos;
    loop
        invariant
            pos <= p <= end <= buf@.len(),
            s == buf@.subrange(pos as int, end as int),
            match (slot, slot_g) {
                (Some(Ok(n1)), Some(Ok(n2))) => n1 == n2,
                (Some(Err(e)), Some(Err((k, m)))) => e.kind == k && e.message@ == m,
                (None, None) => true,
                _ => false,
            },
            dec_head_response_fields(s, None) == dec_head_response_fields(
                buf@.subrange(p as int, end as int),
                slot_g,
            ),
        ensures
            p == end,
            match (slot, slot_g) {
                (Some(Ok(n1)), Some(Ok(n2))) => n1 == n2,
                (Some(Err(e)), Some(Err((k, m)))) => e.kind == k && e.message@ == m,
                (None, None) => true,
                _ => false,
            },
            dec_head_response_fields(s, None) == Some(slot_g),
        decreases end - p,
    {
        if p >= end {
            proof {
                assert(buf@.subrange(p as int, end as int) =~= Seq::<u8>::empty());
            }
            break ;
        }
        let ghost sp = buf@.subrange(p as int, end as int);
        proof {
            lemma_dec_field_bounds(sp);
        }
        match read_field(buf, p, end) {
            None => {
                return Err(DecodeError::InvalidInput(None));
            },
            Some((f, v, np)) => {
                proof {
                    assert(buf@.subrange(np as int, end as int) =~= sp.skip(np - p));
                }
                match v {
                    FieldRef::Varint(n) => {
                        if f == 1 {
                            if n > 0xFFFF_FFFF {
                                return Err(DecodeError::InvalidInput(None));
                            }
                            slot = Some(Ok(n as u32));
                            proof {
                                slot_g = Some(Ok(n as u32));
                            }
                        }
                    },
                    FieldRef::Bytes(a, b) => {
                        if f == 2 {
                            let e = match decode_error(buf, a, b) {
                                Err(de) => {
                                    return Err(DecodeError::InvalidInput(None));
                                },
                                Ok(e) => e,
                            };
                            proof {
                                slot_g = Some(
                                    Err(
                                        dec_error(
                                            buf@.subrange(a as int, b as int),
                                        ).unwrap(),
                                    ),
                                );
                            }
                            slot = Some(Err(e));
                        }
                    },
                    _ => {},
                }
                p = np;
            },
        }
    }
    match slot {
        None => Ok(Ok(None)),
        Some(Ok(n)) => Ok(Ok(Some(LumpHeader { approximate_data_size: n }))),
        Some(Err(e)) => Ok(Err(e)),
    }
}

/// Encoding of a get-lump response: nothing for "not found", the payload
/// bytes in field one, or the error in field two.
pub open spec fn enc_get_response(r: Result<Option<LumpData>, Error>) -> Seq<u8> {
    match r {
        Ok(None) => Seq::<u8>::empty(),
        Ok(Some(d)) => enc_len_field(1, d.data()),
        Err(e) => enc_error_field(e),
    }
}

/// Folds a get-lump response's fields into the union slot; a payload above
/// the engine's maximum lump size fails the fold.
pub open spec fn dec_get_response_fields(
    s: Seq<u8>,
    slot: Option<Result<Seq<u8>, (ErrorKind, Seq<char>)>>,
) -> Option<Option<Result<Seq<u8>, (ErrorKind, Seq<char>)>>>
    decreases s.len(),
{
    if s.len() == 0 {
        Some(slot)
    } else {
        match dec_field(s) {
            None => None,
            Some(((f, v), k)) => if 0 < k <= s.len() {
                match v {
                    FieldValue::Bytes(p) => if f == 1 {
                        if p.len() <= MAX_LUMP_DATA_SIZE {
                            dec_get_response_fields(s.skip(k), Some(Ok(p)))
                        } else {
                            None
                        }
                    } else if f == 2 {
                        match dec_error(p) {
                            None => None,
                            Some(em) => dec_get_response_fields(s.skip(k), Some(Err(em))),
                        }
                    } else {
                        dec_get_response_fields(s.skip(k), slot)
                    },
                    _ => dec_get_response_fields(s.skip(k), slot),
                }
            } else {
                None
            },
        }
    }
}

/// Total decoder of a get-lump response; an empty message is "not found".
pub open spec fn dec_get_response(s: Seq<u8>) -> Option<
    Result<Option<Seq<u8>>, (ErrorKind, Seq<char>)>,
> {
    match dec_get_response_fields(s, None) {
        None => None,
        Some(None) => Some(Ok(None)),
        Some(Some(Ok(p))) => Some(Ok(Some(p))),
        Some(Some(Err(em))) => Some(Err(em)),
    }
}

/// A get-lump response over well-formed data decodes back to itself.
pub proof fn lemma_get_response_round_trip(r: Result<Option<LumpData>, Error>)
    requires
        r matches Err(e) ==> e.message@.len() <= 0xFFFF_FFFF,
        r matches Ok(Some(d)) ==> d.wf(),
    ensures
        dec_get_response(enc_get_response(r)) == Some(
            match r {
                Ok(None) => Ok::<Option<Seq<u8>>, (ErrorKind, Seq<char>)>(None),
                Ok(Some(d)) => Ok::<Option<Seq<u8>>, (ErrorKind, Seq<char>)>(Some(d.data())),
                Err(e) => Err::<Option<Seq<u8>>, (ErrorKind, Seq<char>)>(error_view(e)),
            },
        ),
{
    let s = enc_get_response(r);
    match r {
        Ok(None) => {
            assert(dec_get_response_fields(Seq::<u8>::empty(), None) == Some(
                None::<Result<Seq<u8>, (ErrorKind, Seq<char>)>>,
            ));
        },
        Ok(Some(d)) => {
            assert(s =~= enc_len_field(1, d.data()) + Seq::<u8>::empty());
            lemma_dec_field_len(1, d.data(), Seq::<u8>::empty());
            lemma_dec_field_bounds(s);
            let k1 = enc_len_field(1, d.data()).len() as int;
            assert(s.skip(k1) =~= Seq::<u8>::empty());
            assert(dec_get_response_fields(s, None) == dec_get_response_fields(
                s.skip(k1),
                Some(Ok(d.data())),
            ));
            assert(dec_get_response_fields(Seq::<u8>::empty(), Some(Ok(d.data()))) == Some(
                Some(Ok::<Seq<u8>, (ErrorKind, Seq<char>)>(d.data())),
            ));
        },
        Err(e) => {
            let p = enc_error(e.kind, e.message@);
            lemma_enc_error_len(e.kind, e.message@);
            assert(s =~= enc_len_field(2, p) + Seq::<u8>::empty());
            lemma_dec_field_len(2, p, Seq::<u8>::empty());
            lemma_dec_field_bounds(s);
            lemma_error_round_trip(e.kind, e.message@);
            let k1 = enc_len_field(2, p).len() as int;
            assert(s.skip(k1) =~= Seq::<u8>::empty());
            assert(dec_get_response_fields(s, None) == dec_get_response_fields(
                s.skip(k1),
                Some(Err(error_view(e))),
            ));
            assert(dec_get_response_fields(Seq::<u8>::empty(), Some(Err(error_view(e)))) == Some(
                Some(Err::<Seq<u8>, (ErrorKind, Seq<char>)>(error_view(e))),
            ));
        },
    }
}

/// Appends the encoding of `r` to `out`.
pub fn write_get_response(out: &mut Vec<u8>, r: &Result<Option<LumpData>, Error>)
    ensures
        final(out)@ == old(out)@ + enc_get_response(*r),
{
    match r {
        Ok(None) => {
        },
        Ok(Some(d)) => {
            let b = d.as_bytes();
            let n: usize = b.len();
            write_len_field(out, 1, b);
        },
        Err(e) => {
            write_error_field(out, e);
        },
    }
    assert(out@ =~= old(out)@ + enc_get_response(*r));
}

/// Encodes `r` as a whole message.
pub fn encode_get_response(r: &Result<Option<LumpData>, Error>) -> (out: Vec<u8>)
    ensures
        out@ == enc_get_response(*r),
{
    let mut out: Vec<u8> = Vec::new();
    write_get_response(&mut out, r);
    out
}

/// Decodes the get-lump response at `buf[pos..end]`, consuming all of it.
/// A decoded payload is a plain heap buffer.
pub fn decode_get_response(buf: &[u8], pos: usize, end: usize) -> (r: Result<
    Result<Option<LumpData>, Error>,
    DecodeError,
>)
    requires
        pos <= end <= buf@.len(),
    ensures
        match dec_get_response(buf@.subrange(pos as int, end as int)) {
            Some(Ok(None)) => r == Ok::<Result<Option<LumpData>, Error>, DecodeError>(Ok(None)),
            Some(Ok(Some(p))) => r matches Ok(res) && res matches Ok(d) && d matches Some(data)
                && data.data() == p && data.spec_kind() == LumpDataKind::Heap,
            Some(Err((k, m))) => r matches Ok(res) && res matches Err(e) && e.kind == k
                && e.message@ == m,
            None => (r matches Err(e) && e is InvalidInput),
        },
{
    let ghost s = buf@.subrange(pos as int, end as int);
    let mut slot: Option<Result<LumpData, Error>> = None;
    let ghost mut slot_g: Option<Result<Seq<u8>, (ErrorKind, Seq<char>)>> = None;
    let mut p: usize = pos;
    loop
        invariant
            pos <= p <= end <= buf@.len(),
            s == buf@.subrange(pos as int, end as int),
            match (slot, slot_g) {
                (Some(Ok(d)), Some(Ok(q))) => d.data() == q && d.spec_kind()
                    == LumpDataKind::Heap,
                (Some(Err(e)), Some(Err((k, m)))) => e.kind == k && e.message@ == m,
                (None, None) => true,
                _ => false,
            },
            dec_get_response_fields(s, None) == dec_get_response_fields(
                buf@.subrange(p as int, end as int),
                slot_g,
            ),
        ensures
            p == end,
            match (slot, slot_g) {
                (Some(Ok(d)), Some(Ok(q))) => d.data() == q && d.spec_kind()
                    == LumpDataKind::Heap,
                (Some(Err(e)), Some(Err((k, m)))) => e.kind == k && e.message@ == m,
                (None, None) => true,
                _ => false,
            },
            dec_get_response_fields(s, None) == Some(slot_g),
        decreases end - p,
    {
        if p >= end {
            proof {
                assert(buf@.subrange(p as int, end as int) =~= Seq::<u8>::empty());
            }
            break ;
        }
        let ghost sp = buf@.subrange(p as int, end as int);
        proof {
            lemma_dec_field_bounds(sp);
        }
        match read_field(buf, p, end) {
            None => {
                return Err(DecodeError::InvalidInput(None));
            },
            Some((f, v, np)) => {
                proof {
                    assert(buf@.subrange(np as int, end as int) =~= sp.skip(np - p));
                }
                match v {
                    FieldRef::Bytes(a, b) => {
                        if f == 1 {
                            let bytes = copy_range(buf, a, b);
                            let d = match LumpData::new(bytes) {
                                Err(e) => {
                                    return Err(DecodeError::InvalidInput(None));
                                },
                                Ok(d) => d,
                            };
                            proof {
                                slot_g = Some(Ok(buf@.subrange(a as int, b as int)));
                            }
                            slot = Some(Ok(d));
                        } else if f == 2 {
                            let e = match decode_error(buf, a, b) {
                                Err(de) => {
                                    return Err(DecodeError::InvalidInput(None));
                                },
                                Ok(e) => e,
                            };
                            proof {
                                slot_g = Some(
                                    Err(
                                        dec_error(
                                            buf@.subrange(a as int, b as int),
                                        ).unwrap(),
                                    ),
                                );
                            }
                            slot = Some(Err(e));
                        }
                    },
                    _ => {},
                }
                p = np;
            },
        }
    }
    match slot {
        None => Ok(Ok(None)),
        Some(Ok(d)) => Ok(Ok(Some(d))),
        Some(Err(e)) => Ok(Err(e)),
    }
}

/// The values of a sequence of lump ids.
pub open spec fn ids_view(ids: Seq<LumpId>) -> Seq<u128> {
    ids.map_values(|id: LumpId| id.spec_u128())
}

/// Encoding of a sequence of lump ids as repeated nested messages in field
/// one.
pub open spec fn enc_lump_id_list(ids: Seq<LumpId>) -> Seq<u8>
    decreases ids.len(),
{
    if ids.len() == 0 {
        Seq::<u8>::empty()
    } else {
        enc_len_field(1, enc_lump_id(ids[0])) + enc_lump_id_list(ids.drop_first())
    }
}

/// Appending one id to the list appends its field to the encoding.
pub proof fn lemma_enc_lump_id_list_push(ids: Seq<LumpId>, id: LumpId)
    ensures
        enc_lump_id_list(ids.push(id)) == enc_lump_id_list(ids) + enc_len_field(
            1,
            enc_lump_id(id),
        ),
    decreases ids.len(),
{
    if ids.len() == 0 {
        assert(ids.push(id).drop_first() =~= Seq::<LumpId>::empty());
        assert(enc_lump_id_list(Seq::<LumpId>::empty()) == Seq::<u8>::empty());
        assert(ids.push(id)[0] == id);
        assert(enc_lump_id_list(ids.push(id)) =~= enc_len_field(1, enc_lump_id(id)));
        assert(enc_lump_id_list(ids) + enc_len_field(1, enc_lump_id(id)) =~= enc_len_field(
            1,
            enc_lump_id(id),
        ));
    } else {
        assert(ids.push(id).drop_first() =~= ids.drop_first().push(id));
        lemma_enc_lump_id_list_push(ids.drop_first(), id);
        assert(enc_lump_id_list(ids.push(id)) =~= enc_lump_id_list(ids) + enc_len_field(
            1,
            enc_lump_id(id),
        ));
    }
}

/// Folds a list response's fields: repeated id fields accumulate in arrival
/// order, the error arm fills its slot, unknown fields are skipped.
pub open spec fn dec_list_response_fields(
    s: Seq<u8>,
    ids: Seq<u128>,
    err: Option<(ErrorKind, Seq<char>)>,
) -> Option<(Seq<u128>, Option<(ErrorKind, Seq<char>)>)>
    decreases s.len(),
{
    if s.len() == 0 {
        Some((ids, err))
    } else {
        match dec_field(s) {
            None => None,
            Some(((f, v), k)) => if 0 < k <= s.len() {
                match v {
                    FieldValue::Bytes(p) => if f == 1 {
                        match dec_lump_id(p) {
                            None => None,
                            Some(x) => dec_list_response_fields(s.skip(k), ids.push(x), err),
                        }
                    } else if f == 2 {
                        match dec_error(p) {
                            None => None,
                            Some(em) => dec_list_response_fields(s.skip(k), ids, Some(em)),
                        }
                    } else {
                        dec_list_response_fields(s.skip(k), ids, err)
                    },
                    _ => dec_list_response_fields(s.skip(k), ids, err),
                }
            } else {
                None
            },
        }
    }
}

/// Encoding of a list response (list-lumps and delete-range): the ids as
/// repeated fields, or the error in field two.
pub open spec fn enc_list_response(r: Result<Seq<LumpId>, Error>) -> Seq<u8> {
    match r {
        Ok(ids) => enc_lump_id_list(ids),
        Err(e) => enc_error_field(e),
    }
}

/// Total decoder of a list response.  When an error field is present, the
/// response is that error.
pub open spec fn dec_list_response(s: Seq<u8>) -> Option<
    Result<Seq<u128>, (ErrorKind, Seq<char>)>,
> {
    match dec_list_response_fields(s, Seq::<u128>::empty(), None) {
        None => None,
        Some((ids, None)) => Some(Ok(ids)),
        Some((ids, Some(em))) => Some(Err(em)),
    }
}

/// The repeated id fields of a canonical encoding accumulate exactly the
/// encoded ids, whatever the fold has gathered so far.
proof fn lemma_lump_id_list_fold(
    ids: Seq<LumpId>,
    acc: Seq<u128>,
    err: Option<(ErrorKind, Seq<char>)>,
)
    ensures
        dec_list_response_fields(enc_lump_id_list(ids), acc, err) == Some(
            (acc + ids_view(ids), err),
        ),
    decreases ids.len(),
{
    if ids.len() == 0 {
        assert(enc_lump_id_list(ids) == Seq::<u8>::empty());
        assert(acc + ids_view(ids) =~= acc);
    } else {
        let p = enc_lump_id(ids[0]);
        let tail = enc_lump_id_list(ids.drop_first());
        let s = enc_lump_id_list(ids);
        assert(s =~= enc_len_field(1, p) + tail);
        assert(p.len() == 18);
        lemma_dec_field_len(1, p, tail);
        lemma_dec_field_bounds(s);
        lemma_lump_id_round_trip(ids[0]);
        let k = enc_len_field(1, p).len() as int;
        assert(s.skip(k) =~= tail);
        assert(dec_list_response_fields(s, acc, err) == dec_list_response_fields(
            s.skip(k),
            acc.push(ids[0].spec_u128()),
            err,
        ));
        lemma_lump_id_list_fold(ids.drop_first(), acc.push(ids[0].spec_u128()), err);
        assert(acc.push(ids[0].spec_u128()) + ids_view(ids.drop_first()) =~= acc + ids_view(ids));
    }
}

/// A list response decodes back to itself.
pub proof fn lemma_list_response_round_trip(r: Result<Seq<LumpId>, Error>)
    requires
        r matches Err(e) ==> e.message@.len() <= 0xFFFF_FFFF,
    ensures
        dec_list_response(enc_list_response(r)) == Some(
            match r {
                Ok(ids) => Ok::<Seq<u128>, (ErrorKind, Seq<char>)>(ids_view(ids)),
                Err(e) => Err::<Seq<u128>, (ErrorKind, Seq<char>)>(error_view(e)),
            },
        ),
{
    let s = enc_list_response(r);
    match r {
        Ok(ids) => {
            lemma_lump_id_list_fold(ids, Seq::<u128>::empty(), None);
            assert(Seq::<u128>::empty() + ids_view(ids) =~= ids_view(ids));
        },
        Err(e) => {
            let p = enc_error(e.kind, e.message@);
            lemma_enc_error_len(e.kind, e.message@);
            assert(s =~= enc_len_field(2, p) + Seq::<u8>::empty());
            lemma_dec_field_len(2, p, Seq::<u8>::empty());
            lemma_dec_field_bounds(s);
            lemma_error_round_trip(e.kind, e.message@);
            let k1 = enc_len_field(2, p).len() as int;
            assert(s.skip(k1) =~= Seq::<u8>::empty());
            assert(dec_list_response_fields(s, Seq::<u128>::empty(), None)
                == dec_list_response_fields(
                s.skip(k1),
                Seq::<u128>::empty(),
                Some(error_view(e)),
            ));
            assert(dec_list_response_fields(
                Seq::<u8>::empty(),
                Seq::<u128>::empty(),
                Some(error_view(e)),
            ) == Some((Seq::<u128>::empty(), Some(error_view(e)))));
        },
    }
}

/// Appends the encoding of `r` to `out`.
pub fn write_list_response(out: &mut Vec<u8>, r: &Result<Vec<LumpId>, Error>)
    ensures
        final(out)@ == old(out)@ + enc_list_response(
            match *r {
                Ok(ids) => Ok(ids@),
                Err(e) => Err(e),
            },
        ),
{
    match r {
        Ok(ids) => {
            let mut i: usize = 0;
            while i < ids.len()
                invariant
                    i <= ids@.len(),
                    out@ == old(out)@ + enc_lump_id_list(ids@.take(i as int)),
                decreases ids@.len() - i,
            {
                let p = crate::codec::encode_lump_id(&ids[i]);
                write_len_field(out, 1, p.as_slice());
                proof {
                    assert(ids@.take(i + 1 as int) =~= ids@.take(i as int).push(ids@[i as int]));
                    lemma_enc_lump_id_list_push(ids@.take(i as int), ids@[i as int]);
                }
                i = i + 1;
            }
            assert(ids@.take(ids@.len() as int) =~= ids@);
        },
        Err(e) => {
            write_error_field(out, e);
        },
    }
}

/// Encodes `r` as a whole message.
pub fn encode_list_response(r: &Result<Vec<LumpId>, Error>) -> (out: Vec<u8>)
    ensures
        out@ == enc_list_response(
            match *r {
                Ok(ids) => Ok(ids@),
                Err(e) => Err(e),
            },
        ),
{
    let mut out: Vec<u8> = Vec::new();
    write_list_response(&mut out, r);
    out
}

/// Decodes the list response at `buf[pos..end]`, consuming all of it.
pub fn decode_list_response(buf: &[u8], pos: usize, end: usize) -> (r: Result<
    Result<Vec<LumpId>, Error>,
    DecodeError,
>)
    requires
        pos <= end <= buf@.len(),
    ensures
        match dec_list_response(buf@.subrange(pos as int, end as int)) {
            Some(Ok(idsv)) => r matches Ok(res) && res matches Ok(ids) && ids_view(ids@) == idsv,
            Some(Err((k, m))) => r matches Ok(res) && res matches Err(e) && e.kind == k
                && e.message@ == m,
            None => (r matches Err(e) && e is InvalidInput),
        },
{
    let ghost s = buf@.subrange(pos as int, end as int);
    let mut ids: Vec<LumpId> = Vec::new();
    let mut err: Option<Error> = None;
    let ghost mut err_g: Option<(ErrorKind, Seq<char>)> = None;
    let mut p: usize = pos;
    proof {
        assert(ids_view(ids@) =~= Seq::<u128>::empty());
    }
    loop
        invariant
            pos <= p <= end <= buf@.len(),
            s == buf@.subrange(pos as int, end as int),
            match (err, err_g) {
                (Some(e), Some((k, m))) => e.kind == k && e.message@ == m,
                (None, None) => true,
                _ => false,
            },
            dec_list_response_fields(s, Seq::<u128>::empty(), None) == dec_list_response_fields(
                buf@.subrange(p as int, end as int),
                ids_view(ids@),
                err_g,
            ),
        ensures
            p == end,
            match (err, err_g) {
                (Some(e), Some((k, m))) => e.kind == k && e.message@ == m,
                (None, None) => true,
                _ => false,
            },
            dec_list_response_fields(s, Seq::<u128>::empty(), None) == Some(
                (ids_view(ids@), err_g),
            ),
        decreases end - p,
    {
        if p >= end {
            proof {
                assert(buf@.subrange(p as int, end as int) =~= Seq::<u8>::empty());
            }
            break ;
        }
        let ghost sp = buf@.subrange(p as int, end as int);
        proof {
            lemma_dec_field_bounds(sp);
        }
        match read_field(buf, p, end) {
            None => {
                return Err(DecodeError::InvalidInput(None));
            },
            Some((f, v, np)) => {
                proof {
                    assert(buf@.subrange(np as int, end as int) =~= sp.skip(np - p));
                }
                match v {
                    FieldRef::Bytes(a, b) => {
                        if f == 1 {
                            let i = match decode_lump_id(buf, a, b) {
                                Err(e) => {
                                    return Err(DecodeError::InvalidInput(None));
                                },
                                Ok(i) => i,
                            };
                            let ghost prev = ids@;
                            ids.push(i);
                            proof {
                                assert(ids_view(ids@) =~= ids_view(prev).push(i.spec_u128()));
                            }
                        } else if f == 2 {
                            let e = match decode_error(buf, a, b) {
                                Err(de) => {
                                    return Err(DecodeError::InvalidInput(None));
                                },
                                Ok(e) => e,
                            };
                            proof {
                                err_g = Some(
                                    dec_error(buf@.subrange(a as int, b as int)).unwrap(),
                                );
                            }
                            err = Some(e);
                        }
                    },
                    _ => {},
                }
                p = np;
            },
        }
    }
    match err {
        Some(e) => Ok(Err(e)),
        None => Ok(Ok(ids)),
    }
}

/// Encoding of a usage-range response: the usage in field one, and the error
/// in field two when the operation failed (the usage field then carries
/// "unknown").
pub open spec fn enc_usage_response(r: Result<StorageUsage, Error>) -> Seq<u8> {
    match r {
        Ok(u) => enc_len_field(1, enc_storage_usage(u)),
        Err(e) => enc_len_field(1, enc_storage_usage(StorageUsage::Unknown)) + enc_error_field(e),
    }
}

/// Folds a usage-range response's fields into the usage and error slots; a
/// usage field that does not itself decode fails the fold.
pub open spec fn dec_usage_response_fields(
    s: Seq<u8>,
    usage: Option<StorageUsage>,
    err: Option<(ErrorKind, Seq<char>)>,
) -> Option<(Option<StorageUsage>, Option<(ErrorKind, Seq<char>)>)>
    decreases s.len(),
{
    if s.len() == 0 {
        Some((usage, err))
    } else {
        match dec_field(s) {
            None => None,
            Some(((f, v), k)) => if 0 < k <= s.len() {
                match v {
                    FieldValue::Bytes(p) => if f == 1 {
                        match dec_storage_usage(p) {
                            None => None,
                            Some(u) => dec_usage_response_fields(s.skip(k), Some(u), err),
                        }
                    } else if f == 2 {
                        match dec_error(p) {
                            None => None,
                            Some(em) => dec_usage_response_fields(s.skip(k), usage, Some(em)),
                        }
                    } else {
                        dec_usage_response_fields(s.skip(k), usage, err)
                    },
                    _ => dec_usage_response_fields(s.skip(k), usage, err),
                }
            } else {
                None
            },
        }
    }
}

/// Total decoder of a usage-range response: an error field makes the
/// response that error; an omitted usage field defaults to *unknown*.
pub open spec fn dec_usage_response(s: Seq<u8>) -> Option<
    Result<StorageUsage, (ErrorKind, Seq<char>)>,
> {
    match dec_usage_response_fields(s, None, None) {
        None => None,
        Some((_, Some(em))) => Some(Err(em)),
        Some((u0, None)) => Some(
            Ok(
                match u0 {
                    Some(u) => u,
                    None => StorageUsage::Unknown,
                },
            ),
        ),
    }
}

/// A usage-range response decodes back to itself.
pub proof fn lemma_usage_response_round_trip(r: Result<StorageUsage, Error>)
    requires
        r matches Err(e) ==> e.message@.len() <= 0xFFFF_FFFF,
    ensures
        dec_usage_response(enc_usage_response(r)) == Some(
            match r {
                Ok(u) => Ok::<StorageUsage, (ErrorKind, Seq<char>)>(u),
                Err(e) => Err::<StorageUsage, (ErrorKind, Seq<char>)>(error_view(e)),
            },
        ),
{
    let s = enc_usage_response(r);
    match r {
        Ok(u) => {
            let p = enc_storage_usage(u);
            lemma_enc_varint_field_len(1, crate::codec::storage_usage_parts(u).0);
            lemma_enc_varint_field_len(2, crate::codec::storage_usage_parts(u).1);
            assert(s =~= enc_len_field(1, p) + Seq::<u8>::empty());
            lemma_dec_field_len(1, p, Seq::<u8>::empty());
            lemma_dec_field_bounds(s);
            lemma_storage_usage_round_trip(u);
            let k1 = enc_len_field(1, p).len() as int;
            assert(s.skip(k1) =~= Seq::<u8>::empty());
            assert(dec_usage_response_fields(s, None, None) == dec_usage_response_fields(
                s.skip(k1),
                Some(u),
                None,
            ));
            assert(dec_usage_response_fields(Seq::<u8>::empty(), Some(u), None) == Some(
                (Some(u), None::<(ErrorKind, Seq<char>)>),
            ));
        },
        Err(e) => {
            let p = enc_storage_usage(StorageUsage::Unknown);
            let ep = enc_error(e.kind, e.message@);
            lemma_enc_varint_field_len(1, 0);
            lemma_enc_varint_field_len(2, 0);
            lemma_enc_error_len(e.kind, e.message@);
            lemma_dec_field_len(1, p, enc_error_field(e));
            lemma_dec_field_bounds(s);
            lemma_storage_usage_round_trip(StorageUsage::Unknown);
            let k1 = enc_len_field(1, p).len() as int;
            let s2 = enc_len_field(2, ep) + Seq::<u8>::empty();
            assert(s.skip(k1) =~= s2);
            lemma_dec_field_len(2, ep, Seq::<u8>::empty());
            lemma_dec_field_bounds(s2);
            lemma_error_round_trip(e.kind, e.message@);
            let k2 = enc_len_field(2, ep).len() as int;
            assert(s2.skip(k2) =~= Seq::<u8>::empty());
            assert(dec_usage_response_fields(s, None, None) == dec_usage_response_fields(
                s.skip(k1),
                Some(StorageUsage::Unknown),
                None,
            ));
            assert(dec_usage_response_fields(s2, Some(StorageUsage::Unknown), None)
                == dec_usage_response_fields(
                s2.skip(k2),
                Some(StorageUsage::Unknown),
                Some(error_view(e)),
            ));
            assert(dec_usage_response_fields(
                Seq::<u8>::empty(),
                Some(StorageUsage::Unknown),
                Some(error_view(e)),
            ) == Some((Some(StorageUsage::Unknown), Some(error_view(e)))));
        },
    }
}

/// Appends the encoding of `r` to `out`.
pub fn write_usage_response(out: &mut Vec<u8>, r: &Result<StorageUsage, Error>)
    ensures
        final(out)@ == old(out)@ + enc_usage_response(*r),
{
    match r {
        Ok(u) => {
            let mut p: Vec<u8> = Vec::new();
            write_storage_usage(&mut p, u);
            let n: usize = p.len();
            write_len_field(out, 1, p.as_slice());
        },
        Err(e) => {
            let mut p: Vec<u8> = Vec::new();
            write_storage_usage(&mut p, &StorageUsage::Unknown);
            let n: usize = p.len();
            write_len_field(out, 1, p.as_slice());
            write_error_field(out, e);
        },
    }
    assert(out@ =~= old(out)@ + enc_usage_response(*r));
}

/// Encodes `r` as a whole message.
pub fn encode_usage_response(r: &Result<StorageUsage, Error>) -> (out: Vec<u8>)
    ensures
        out@ == enc_usage_response(*r),
{
    let mut out: Vec<u8> = Vec::new();
    write_usage_response(&mut out, r);
    out
}

/// Decodes the usage-range response at `buf[pos..end]`, consuming all of it.
pub fn decode_usage_response(buf: &[u8], pos: usize, end: usize) -> (r: Result<
    Result<StorageUsage, Error>,
    DecodeError,
>)
    requires
        pos <= end <= buf@.len(),
    ensures
        match dec_usage_response(buf@.subrange(pos as int, end as int)) {
            Some(Ok(u)) => r == Ok::<Result<StorageUsage, Error>, DecodeError>(Ok(u)),
            Some(Err((k, m))) => r matches Ok(res) && res matches Err(e) && e.kind == k
                && e.message@ == m,
            None => (r matches Err(e) && e is InvalidInput),
        },
{
    let ghost s = buf@.subrange(pos as int, end as int);
    let mut usage: Option<StorageUsage> = None;
    let mut err: Option<Error> = None;
    let ghost mut err_g: Option<(ErrorKind, Seq<char>)> = None;
    let mut p: usize = pos;
    loop
        invariant
            pos <= p <= end <= buf@.len(),
            s == buf@.subrange(pos as int, end as int),
            match (err, err_g) {
                (Some(e), Some((k, m))) => e.kind == k && e.message@ == m,
                (None, None) => true,
                _ => false,
            },
            dec_usage_response_fields(s, None, None) == dec_usage_response_fields(
                buf@.subrange(p as int, end as int),
                usage,
                err_g,
            ),
        ensures
            p == end,
            match (err, err_g) {
                (Some(e), Some((k, m))) => e.kind == k && e.message@ == m,
                (None, None) => true,
                _ => false,
            },
            dec_usage_response_fields(s, None, None) == Some((usage, err_g)),
        decreases end - p,
    {
        if p >= end {
            proof {
                assert(buf@.subrange(p as int, end as int) =~= Seq::<u8>::empty());
            }
            break ;
        }
        let ghost sp = buf@.subrange(p as int, end as int);
        proof {
            lemma_dec_field_bounds(sp);
        }
        match read_field(buf, p, end) {
            None => {
                return Err(DecodeError::InvalidInput(None));
            },
            Some((f, v, np)) => {
                proof {
                    assert(buf@.subrange(np as int, end as int) =~= sp.skip(np - p));
                }
                match v {
                    FieldRef::Bytes(a, b) => {
                        if f == 1 {
                            let u = match decode_storage_usage(buf, a, b) {
                                Err(de) => {
                                    return Err(DecodeError::InvalidInput(None));
                                },
                                Ok(u) => u,
                            };
                            usage = Some(u);
                        } else if f == 2 {
                            let e = match decode_error(buf, a, b) {
                                Err(de) => {
                                    return Err(DecodeError::InvalidInput(None));
                                },
                                Ok(e) => e,
                            };
                            proof {
                                err_g = Some(
                                    dec_error(buf@.subrange(a as int, b as int)).unwrap(),
                                );
                            }
                            err = Some(e);
                        }
                    },
                    _ => {},
                }
                p = np;
            },
        }
    }
    match err {
        Some(e) => Ok(Err(e)),
        None => Ok(
            Ok(
                match usage {
                    Some(u) => u,
                    None => StorageUsage::Unknown,
                },
            ),
        ),
    }
}

} // verus!
