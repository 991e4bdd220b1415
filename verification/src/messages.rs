//! Codec for the request messages of every storage operation.
//!
//! Requests carry a device id, the operation's key material, and the request
//! options.  The decoders fold over a message's fields as the encoding
//! admits them — in any order, later occurrences winning, unknown fields
//! skipped — with nested messages decoded as they arrive; the required
//! fields must be present when the message ends.

use vstd::prelude::*;

use crate::device::DeviceId;
use crate::error::DecodeError;
use crate::lump::LumpId;
use crate::options::RequestOptions;
use crate::rpc::{DeviceRequest, LumpRequest, UsageRangeRequest};
use crate::codec::{enc_lump_id, dec_lump_id, enc_request_options, dec_request_options,
    lemma_lump_id_round_trip, lemma_request_options_round_trip, lemma_enc_deadline_len,
    decode_lump_id, write_request_options, decode_request_options};
use crate::wire::{tag_value, WIRE_LEN, enc_len_field, FieldValue, FieldRef, dec_field,
    lemma_dec_field_bounds, lemma_dec_field_len, read_field, lemma_enc_varint_len,
    lemma_enc_varint_field_len, write_len_field, copy_range, string_from_utf8};

verus! {

use vstd::utf8::{decode_utf8, encode_utf8, encode_utf8_decode_utf8, encode_utf8_valid_utf8,
    valid_utf8};

/// A request options encoding is always short.
pub proof fn lemma_enc_request_options_len(o: RequestOptions)
    ensures
        enc_request_options(o).len() <= 200,
{
    lemma_enc_deadline_len(o.deadline);
    lemma_enc_varint_len(tag_value(1, WIRE_LEN));
    lemma_enc_varint_len(crate::codec::enc_deadline(o.deadline).len() as u64);
    lemma_enc_varint_field_len(2, o.spec_queue_len_wire() as u64);
}

/// Encoding of a lump id as a nested message field.
pub open spec fn enc_lump_id_field(field: u64, id: LumpId) -> Seq<u8> {
    enc_len_field(field, enc_lump_id(id))
}

/// Encoding of a lump request: device id, lump id, options.
pub open spec fn enc_lump_request(r: LumpRequest) -> Seq<u8> {
    enc_len_field(1, encode_utf8(r.device_id.chars())) + enc_lump_id_field(2, r.lump_id)
        + enc_len_field(3, enc_request_options(r.options))
}

/// Folds a lump request's fields into the device-id, lump-id and options
/// slots; a nested field that does not itself decode fails the fold.
pub open spec fn dec_lump_request_fields(
    s: Seq<u8>,
    dev: Option<Seq<char>>,
    lid: Option<u128>,
    opts: Option<RequestOptions>,
) -> Option<(Option<Seq<char>>, Option<u128>, Option<RequestOptions>)>
    decreases s.len(),
{
    if s.len() == 0 {
        Some((dev, lid, opts))
    } else {
        match dec_field(s) {
            None => None,
            Some(((f, v), k)) => if 0 < k <= s.len() {
                match v {
                    FieldValue::Bytes(p) => if f == 1 {
                        if valid_utf8(p) {
                            dec_lump_request_fields(s.skip(k), Some(decode_utf8(p)), lid, opts)
                        } else {
                            None
                        }
                    } else if f == 2 {
                        match dec_lump_id(p) {
                            None => None,
                            Some(x) => dec_lump_request_fields(s.skip(k), dev, Some(x), opts),
                        }
                    } else if f == 3 {
                        match dec_request_options(p) {
                            None => None,
                            Some(o) => dec_lump_request_fields(s.skip(k), dev, lid, Some(o)),
                        }
                    } else {
                        dec_lump_request_fields(s.skip(k), dev, lid, opts)
                    },
                    _ => dec_lump_request_fields(s.skip(k), dev, lid, opts),
                }
            } else {
                None
            },
        }
    }
}

/// Total decoder of a lump request, as views: the device id's characters,
/// the lump id's value, and the options.  All three fields are required.
pub open spec fn dec_lump_request(s: Seq<u8>) -> Option<(Seq<char>, u128, RequestOptions)> {
    match dec_lump_request_fields(s, None, None, None) {
        Some((Some(dev), Some(lid), Some(opts))) => Some((dev, lid, opts)),
        _ => None,
    }
}

/// A well-formed, encodable lump request decodes back to itself.
#[verifier::rlimit(50)]
pub proof fn lemma_lump_request_round_trip(r: LumpRequest)
    requires
        r.options.wf(),
        r.options.queue_len_encodable(),
        4 * r.device_id.chars().len() <= u64::MAX,
    ensures
        dec_lump_request(enc_lump_request(r)) == Some(
            (r.device_id.chars(), r.lump_id.spec_u128(), r.options),
        ),
{
    let dc = r.device_id.chars();
    let db = encode_utf8(dc);
    let ib = enc_lump_id(r.lump_id);
    let ob = enc_request_options(r.options);
    let s = enc_lump_request(r);
    crate::wire::lemma_encode_utf8_len(dc);
    lemma_enc_request_options_len(r.options);
    encode_utf8_valid_utf8(dc);
    encode_utf8_decode_utf8(dc);
    lemma_lump_id_round_trip(r.lump_id);
    lemma_request_options_round_trip(r.options);
    assert(s =~= enc_len_field(1, db) + (enc_len_field(2, ib) + enc_len_field(3, ob)));
    lemma_dec_field_len(1, db, enc_len_field(2, ib) + enc_len_field(3, ob));
    lemma_dec_field_bounds(s);
    let k1 = enc_len_field(1, db).len() as int;
    let s2 = enc_len_field(2, ib) + (enc_len_field(3, ob) + Seq::<u8>::empty());
    assert(s.skip(k1) =~= s2);
    lemma_dec_field_len(2, ib, enc_len_field(3, ob) + Seq::<u8>::empty());
    lemma_dec_field_bounds(s2);
    let k2 = enc_len_field(2, ib).len() as int;
    let s3 = enc_len_field(3, ob) + Seq::<u8>::empty();
    assert(s2.skip(k2) =~= s3);
    lemma_dec_field_len(3, ob, Seq::<u8>::empty());
    lemma_dec_field_bounds(s3);
    let k3 = enc_len_field(3, ob).len() as int;
    assert(s3.skip(k3) =~= Seq::<u8>::empty());
    let lid = r.lump_id.spec_u128();
    assert(dec_lump_request_fields(s, None, None, None) == dec_lump_request_fields(
        s.skip(k1),
        Some(dc),
        None,
        None,
    ));
    assert(dec_lump_request_fields(s2, Some(dc), None, None) == dec_lump_request_fields(
        s2.skip(k2),
        Some(dc),
        Some(lid),
        None,
    ));
    assert(dec_lump_request_fields(s3, Some(dc), Some(lid), None) == dec_lump_request_fields(
        s3.skip(k3),
        Some(dc),
        Some(lid),
        Some(r.options),
    ));
    assert(dec_lump_request_fields(
        Seq::<u8>::empty(),
        Some(dc),
        Some(lid),
        Some(r.options),
    ) == Some((Some(dc), Some(lid), Some(r.options))));
}

/// Appends the encoding of `r` to `out`.
pub fn write_lump_request(out: &mut Vec<u8>, r: &LumpRequest)
    requires
        r.options.queue_len_encodable(),
    ensures
        final(out)@ == old(out)@ + enc_lump_request(*r),
{
    let db = r.device_id.as_str().as_bytes();
    let ghost n1 = db.len();
    write_len_field(out, 1, db);
    let ib = crate::codec::encode_lump_id(&r.lump_id);
    write_len_field(out, 2, ib.as_slice());
    let mut ob: Vec<u8> = Vec::new();
    write_request_options(&mut ob, &r.options);
    proof {
        lemma_enc_request_options_len(r.options);
    }
    write_len_field(out, 3, ob.as_slice());
    assert(out@ =~= old(out)@ + enc_lump_request(*r));
}

/// Encodes `r` as a whole message.
pub fn encode_lump_request(r: &LumpRequest) -> (out: Vec<u8>)
    requires
        r.options.queue_len_encodable(),
    ensures
        out@ == enc_lump_request(*r),
{
    let mut out: Vec<u8> = Vec::new();
    write_lump_request(&mut out, r);
    out
}

/// Decodes the lump request at `buf[pos..end]`, consuming all of it.
pub fn decode_lump_request(buf: &[u8], pos: usize, end: usize) -> (r: Result<
    LumpRequest,
    DecodeError,
>)
    requires
        pos <= end <= buf@.len(),
    ensures
        match dec_lump_request(buf@.subrange(pos as int, end as int)) {
            Some((chars, v, o)) => r matches Ok(req) && req.device_id.chars() == chars
                && req.lump_id.spec_u128() == v && req.options == o,
            None => (r matches Err(e) && e is InvalidInput),
        },
{
    let ghost s = buf@.subrange(pos as int, end as int);
    let mut dev: Option<String> = None;
    let ghost mut dev_g: Option<Seq<char>> = None;
    let mut lid: Option<LumpId> = None;
    let ghost mut lid_g: Option<u128> = None;
    let mut opts: Option<RequestOptions> = None;
    let mut p: usize = pos;
    loop
        invariant
            pos <= p <= end <= buf@.len(),
            s == buf@.subrange(pos as int, end as int),
            (dev matches Some(d) && dev_g matches Some(g) && d@ == g) || (dev is None && dev_g
                is None),
            (lid matches Some(i) && lid_g matches Some(g) && i.spec_u128() == g) || (lid is None
                && lid_g is None),
            dec_lump_request_fields(s, None, None, None) == dec_lump_request_fields(
                buf@.subrange(p as int, end as int),
                dev_g,
                lid_g,
                opts,
            ),
        ensures
            p == end,
            (dev matches Some(d) && dev_g matches Some(g) && d@ == g) || (dev is None && dev_g
                is None),
            (lid matches Some(i) && lid_g matches Some(g) && i.spec_u128() == g) || (lid is None
                && lid_g is None),
            dec_lump_request_fields(s, None, None, None) == Some((dev_g, lid_g, opts)),
        decreases end - p,
    {
        if p >= end {
            proof {
                assert(buf@.subrange(p as int, end as int) =~= Seq::<u8>::empty());
            }
            break ;
        }
        let ghost sp = buf@.subrange(p as int, end as int);
        proof {
            lemma_dec_field_bounds(sp);
        }
        match read_field(buf, p, end) {
            None => {
                return Err(DecodeError::InvalidInput(None));
            },
            Some((f, v, np)) => {
                proof {
                    assert(buf@.subrange(np as int, end as int) =~= sp.skip(np - p));
                }
                match v {
                    FieldRef::Bytes(a, b) => {
                        if f == 1 {
                            let bytes = copy_range(buf, a, b);
                            let d = match string_from_utf8(bytes) {
                                None => {
                                    return Err(DecodeError::InvalidInput(None));
                                },
                                Some(d) => d,
                            };
                            proof {
                                encode_utf8_decode_utf8(d@);
                                dev_g = Some(decode_utf8(buf@.subrange(a as int, b as int)));
                            }
                            dev = Some(d);
                        } else if f == 2 {
                            let i = match decode_lump_id(buf, a, b) {
                                Err(e) => {
                                    return Err(DecodeError::InvalidInput(None));
                                },
                                Ok(i) => i,
                            };
                            proof {
                                lid_g = Some(i.spec_u128());
                            }
                            lid = Some(i);
                        } else if f == 3 {
                            let o = match decode_request_options(buf, a, b) {
                                Err(e) => {
                                    return Err(DecodeError::InvalidInput(None));
                                },
                                Ok(o) => o,
                            };
                            opts = Some(o);
                        }
                    },
                    _ => {},
                }
                p = np;
            },
        }
    }
    match (dev, lid, opts) {
        (Some(d), Some(i), Some(o)) => Ok(
            LumpRequest { device_id: DeviceId::new(d), lump_id: i, options: o },
        ),
        _ => Err(DecodeError::InvalidInput(None)),
    }
}

/// Encoding of a device request: device id and options.
pub open spec fn enc_device_request(r: DeviceRequest) -> Seq<u8> {
    enc_len_field(1, encode_utf8(r.device_id.chars())) + enc_len_field(
        2,
        enc_request_options(r.options),
    )
}

/// Folds a device request's fields into the device-id and options slots.
pub open spec fn dec_device_request_fields(
    s: Seq<u8>,
    dev: Option<Seq<char>>,
    opts: Option<RequestOptions>,
) -> Option<(Option<Seq<char>>, Option<RequestOptions>)>
    decreases s.len(),
{
    if s.len() == 0 {
        Some((dev, opts))
    } else {
        match dec_field(s) {
            None => None,
            Some(((f, v), k)) => if 0 < k <= s.len() {
                match v {
                    FieldValue::Bytes(p) => if f == 1 {
                        if valid_utf8(p) {
                            dec_device_request_fields(s.skip(k), Some(decode_utf8(p)), opts)
                        } else {
                            None
                        }
                    } else if f == 2 {
                        match dec_request_options(p) {
                            None => None,
                            Some(o) => dec_device_request_fields(s.skip(k), dev, Some(o)),
                        }
                    } else {
                        dec_device_request_fields(s.skip(k), dev, opts)
                    },
                    _ => dec_device_request_fields(s.skip(k), dev, opts),
                }
            } else {
                None
            },
        }
    }
}

/// Total decoder of a device request, as views; both fields are required.
pub open spec fn dec_device_request(s: Seq<u8>) -> Option<(Seq<char>, RequestOptions)> {
    match dec_device_request_fields(s, None, None) {
        Some((Some(dev), Some(opts))) => Some((dev, opts)),
        _ => None,
    }
}

/// A well-formed, encodable device request decodes back to itself.
pub proof fn lemma_device_request_round_trip(r: DeviceRequest)
    requires
        r.options.wf(),
        r.options.queue_len_encodable(),
        4 * r.device_id.chars().len() <= u64::MAX,
    ensures
        dec_device_request(enc_device_request(r)) == Some((r.device_id.chars(), r.options)),
{
    let dc = r.device_id.chars();
    let db = encode_utf8(dc);
    let ob = enc_request_options(r.options);
    let s = enc_device_request(r);
    crate::wire::lemma_encode_utf8_len(dc);
    lemma_enc_request_options_len(r.options);
    encode_utf8_valid_utf8(dc);
    encode_utf8_decode_utf8(dc);
    lemma_request_options_round_trip(r.options);
    lemma_dec_field_len(1, db, enc_len_field(2, ob));
    lemma_dec_field_bounds(s);
    let k1 = enc_len_field(1, db).len() as int;
    let s2 = enc_len_field(2, ob) + Seq::<u8>::empty();
    assert(s.skip(k1) =~= s2);
    lemma_dec_field_len(2, ob, Seq::<u8>::empty());
    lemma_dec_field_bounds(s2);
    let k2 = enc_len_field(2, ob).len() as int;
    assert(s2.skip(k2) =~= Seq::<u8>::empty());
    assert(dec_device_request_fields(s, None, None) == dec_device_request_fields(
        s.skip(k1),
        Some(dc),
        None,
    ));
    assert(dec_device_request_fields(s2, Some(dc), None) == dec_device_request_fields(
        s2.skip(k2),
        Some(dc),
        Some(r.options),
    ));
    assert(dec_device_request_fields(Seq::<u8>::empty(), Some(dc), Some(r.options)) == Some(
        (Some(dc), Some(r.options)),
    ));
}

/// Appends the encoding of `r` to `out`.
pub fn write_device_request(out: &mut Vec<u8>, r: &DeviceRequest)
    requires
        r.options.queue_len_encodable(),
    ensures
        final(out)@ == old(out)@ + enc_device_request(*r),
{
    let db = r.device_id.as_str().as_bytes();
    let ghost n1 = db.len();
    write_len_field(out, 1, db);
    let mut ob: Vec<u8> = Vec::new();
    write_request_options(&mut ob, &r.options);
    proof {
        lemma_enc_request_options_len(r.options);
    }
    write_len_field(out, 2, ob.as_slice());
    assert(out@ =~= old(out)@ + enc_device_request(*r));
}

/// Encodes `r` as a whole message.
pub fn encode_device_request(r: &DeviceRequest) -> (out: Vec<u8>)
    requires
        r.options.queue_len_encodable(),
    ensures
        out@ == enc_device_request(*r),
{
    let mut out: Vec<u8> = Vec::new();
    write_device_request(&mut out, r);
    out
}

/// Decodes the device request at `buf[pos..end]`, consuming all of it.
pub fn decode_device_request(buf: &[u8], pos: usize, end: usize) -> (r: Result<
    DeviceRequest,
    DecodeError,
>)
    requires
        pos <= end <= buf@.len(),
    ensures
        match dec_device_request(buf@.subrange(pos as int, end as int)) {
            Some((chars, o)) => r matches Ok(req) && req.device_id.chars() == chars && req.options
                == o,
            None => (r matches Err(e) && e is InvalidInput),
        },
{
    let ghost s = buf@.subrange(pos as int, end as int);
    let mut dev: Option<String> = None;
    let ghost mut dev_g: Option<Seq<char>> = None;
    let mut opts: Option<RequestOptions> = None;
    let mut p: usize = pos;
    loop
        invariant
            pos <= p <= end <= buf@.len(),
            s == buf@.subrange(pos as int, end as int),
            (dev matches Some(d) && dev_g matches Some(g) && d@ == g) || (dev is None && dev_g
                is None),
            dec_device_request_fields(s, None, None) == dec_device_request_fields(
                buf@.subrange(p as int, end as int),
                dev_g,
                opts,
            ),
        ensures
            p == end,
            (dev matches Some(d) && dev_g matches Some(g) && d@ == g) || (dev is None && dev_g
                is None),
            dec_device_request_fields(s, None, None) == Some((dev_g, opts)),
        decreases end - p,
    {
        if p >= end {
            proof {
                assert(buf@.subrange(p as int, end as int) =~= Seq::<u8>::empty());
            }
            break ;
        }
        let ghost sp = buf@.subrange(p as int, end as int);
        proof {
            lemma_dec_field_bounds(sp);
        }
        match read_field(buf, p, end) {
            None => {
                return Err(DecodeError::InvalidInput(None));
            },
            Some((f, v, np)) => {
                proof {
                    assert(buf@.subrange(np as int, end as int) =~= sp.skip(np - p));
                }
                match v {
                    FieldRef::Bytes(a, b) => {
                        if f == 1 {
                            let bytes = copy_range(buf, a, b);
                            let d = match string_from_utf8(bytes) {
                                None => {
                                    return Err(DecodeError::InvalidInput(None));
                                },
                                Some(d) => d,
                            };
                            proof {
                                encode_utf8_decode_utf8(d@);
                                dev_g = Some(decode_utf8(buf@.subrange(a as int, b as int)));
                            }
                            dev = Some(d);
                        } else if f == 2 {
                            let o = match decode_request_options(buf, a, b) {
                                Err(e) => {
                                    return Err(DecodeError::InvalidInput(None));
                                },
                                Ok(o) => o,
                            };
                            opts = Some(o);
                        }
                    },
                    _ => {},
                }
                p = np;
            },
        }
    }
    match (dev, opts) {
        (Some(d), Some(o)) => Ok(DeviceRequest { device_id: DeviceId::new(d), options: o }),
        _ => Err(DecodeError::InvalidInput(None)),
    }
}

/// Encoding of a range request: device id, range start, range end, options.
pub open spec fn enc_usage_range_request(r: UsageRangeRequest) -> Seq<u8> {
    enc_len_field(1, encode_utf8(r.device_id.chars())) + enc_lump_id_field(2, r.start)
        + enc_lump_id_field(3, r.end) + enc_len_field(4, enc_request_options(r.options))
}

/// Folds a range request's fields into the device-id, bound and options
/// slots.
pub open spec fn dec_usage_range_request_fields(
    s: Seq<u8>,
    dev: Option<Seq<char>>,
    start: Option<u128>,
    endv: Option<u128>,
    opts: Option<RequestOptions>,
) -> Option<(Option<Seq<char>>, Option<u128>, Option<u128>, Option<RequestOptions>)>
    decreases s.len(),
{
    if s.len() == 0 {
        Some((dev, start, endv, opts))
    } else {
        match dec_field(s) {
            None => None,
            Some(((f, v), k)) => if 0 < k <= s.len() {
                match v {
                    FieldValue::Bytes(p) => if f == 1 {
                        if valid_utf8(p) {
                            dec_usage_range_request_fields(
                                s.skip(k),
                                Some(decode_utf8(p)),
                                start,
                                endv,
                                opts,
                            )
                        } else {
                            None
                        }
                    } else if f == 2 {
                        match dec_lump_id(p) {
                            None => None,
                            Some(x) => dec_usage_range_request_fields(
                                s.skip(k),
                                dev,
                                Some(x),
                                endv,
                                opts,
                            ),
                        }
                    } else if f == 3 {
                        match dec_lump_id(p) {
                            None => None,
                            Some(x) => dec_usage_range_request_fields(
                                s.skip(k),
                                dev,
                                start,
                                Some(x),
                                opts,
                            ),
                        }
                    } else if f == 4 {
                        match dec_request_options(p) {
                            None => None,
                            Some(o) => dec_usage_range_request_fields(
                                s.skip(k),
                                dev,
                                start,
                                endv,
                                Some(o),
                            ),
                        }
                    } else {
                        dec_usage_range_request_fields(s.skip(k), dev, start, endv, opts)
                    },
                    _ => dec_usage_range_request_fields(s.skip(k), dev, start, endv, opts),
                }
            } else {
                None
            },
        }
    }
}

/// Total decoder of a range request, as views.  The device id may be
/// omitted (it defaults to the empty name); the bounds and options are
/// required.
pub open spec fn dec_usage_range_request(s: Seq<u8>) -> Option<
    (Seq<char>, u128, u128, RequestOptions),
> {
    match dec_usage_range_request_fields(s, None, None, None, None) {
        Some((dev, Some(start), Some(endv), Some(opts))) => Some(
            (
                match dev {
                    Some(d) => d,
                    None => Seq::<char>::empty(),
                },
                start,
                endv,
                opts,
            ),
        ),
        _ => None,
    }
}

/// A well-formed, encodable range request decodes back to itself.
#[verifier::rlimit(80)]
pub proof fn lemma_usage_range_request_round_trip(r: UsageRangeRequest)
    requires
        r.options.wf(),
        r.options.queue_len_encodable(),
        4 * r.device_id.chars().len() <= u64::MAX,
    ensures
        dec_usage_range_request(enc_usage_range_request(r)) == Some(
            (r.device_id.chars(), r.start.spec_u128(), r.end.spec_u128(), r.options),
        ),
{
    let dc = r.device_id.chars();
    let db = encode_utf8(dc);
    let sb = enc_lump_id(r.start);
    let eb = enc_lump_id(r.end);
    let ob = enc_request_options(r.options);
    let s = enc_usage_range_request(r);
    crate::wire::lemma_encode_utf8_len(dc);
    lemma_enc_request_options_len(r.options);
    encode_utf8_valid_utf8(dc);
    encode_utf8_decode_utf8(dc);
    lemma_lump_id_round_trip(r.start);
    lemma_lump_id_round_trip(r.end);
    lemma_request_options_round_trip(r.options);
    assert(s =~= enc_len_field(1, db) + (enc_len_field(2, sb) + (enc_len_field(3, eb)
        + enc_len_field(4, ob))));
    lemma_dec_field_len(1, db, enc_len_field(2, sb) + (enc_len_field(3, eb) + enc_len_field(4, ob)));
    lemma_dec_field_bounds(s);
    let k1 = enc_len_field(1, db).len() as int;
    let s2 = enc_len_field(2, sb) + (enc_len_field(3, eb) + (enc_len_field(4, ob)
        + Seq::<u8>::empty()));
    assert(s.skip(k1) =~= s2);
    lemma_dec_field_len(2, sb, enc_len_field(3, eb) + (enc_len_field(4, ob) + Seq::<u8>::empty()));
    lemma_dec_field_bounds(s2);
    let k2 = enc_len_field(2, sb).len() as int;
    let s3 = enc_len_field(3, eb) + (enc_len_field(4, ob) + Seq::<u8>::empty());
    assert(s2.skip(k2) =~= s3);
    lemma_dec_field_len(3, eb, enc_len_field(4, ob) + Seq::<u8>::empty());
    lemma_dec_field_bounds(s3);
    let k3 = enc_len_field(3, eb).len() as int;
    let s4 = enc_len_field(4, ob) + Seq::<u8>::empty();
    assert(s3.skip(k3) =~= s4);
    lemma_dec_field_len(4, ob, Seq::<u8>::empty());
    lemma_dec_field_bounds(s4);
    let k4 = enc_len_field(4, ob).len() as int;
    assert(s4.skip(k4) =~= Seq::<u8>::empty());
    let sv = r.start.spec_u128();
    let ev = r.end.spec_u128();
    assert(dec_usage_range_request_fields(s, None, None, None, None)
        == dec_usage_range_request_fields(s.skip(k1), Some(dc), None, None, None));
    assert(dec_usage_range_request_fields(s2, Some(dc), None, None, None)
        == dec_usage_range_request_fields(s2.skip(k2), Some(dc), Some(sv), None, None));
    assert(dec_usage_range_request_fields(s3, Some(dc), Some(sv), None, None)
        == dec_usage_range_request_fields(s3.skip(k3), Some(dc), Some(sv), Some(ev), None));
    assert(dec_usage_range_request_fields(s4, Some(dc), Some(sv), Some(ev), None)
        == dec_usage_range_request_fields(
        s4.skip(k4),
        Some(dc),
        Some(sv),
        Some(ev),
        Some(r.options),
    ));
    assert(dec_usage_range_request_fields(
        Seq::<u8>::empty(),
        Some(dc),
        Some(sv),
        Some(ev),
        Some(r.options),
    ) == Some((Some(dc), Some(sv), Some(ev), Some(r.options))));
}

/// Appends the encoding of `r` to `out`.
pub fn write_usage_range_request(out: &mut Vec<u8>, r: &UsageRangeRequest)
    requires
        r.options.queue_len_encodable(),
    ensures
        final(out)@ == old(out)@ + enc_usage_range_request(*r),
{
    let db = r.device_id.as_str().as_bytes();
    let ghost n1 = db.len();
    write_len_field(out, 1, db);
    let sb = crate::codec::encode_lump_id(&r.start);
    write_len_field(out, 2, sb.as_slice());
    let eb = crate::codec::encode_lump_id(&r.end);
    write_len_field(out, 3, eb.as_slice());
    let mut ob: Vec<u8> = Vec::new();
    write_request_options(&mut ob, &r.options);
    proof {
        lemma_enc_request_options_len(r.options);
    }
    write_len_field(out, 4, ob.as_slice());
    assert(out@ =~= old(out)@ + enc_usage_range_request(*r));
}

/// Encodes `r` as a whole message.
pub fn encode_usage_range_request(r: &UsageRangeRequest) -> (out: Vec<u8>)
    requires
        r.options.queue_len_encodable(),
    ensures
        out@ == enc_usage_range_request(*r),
{
    let mut out: Vec<u8> = Vec::new();
    write_usage_range_request(&mut out, r);
    out
}

/// Decodes the range request at `buf[pos..end]`, consuming all of it.
#[verifier::rlimit(80)]
pub fn decode_usage_range_request(buf: &[u8], pos: usize, end: usize) -> (r: Result<
    UsageRangeRequest,
    DecodeError,
>)
    requires
        pos <= end <= buf@.len(),
    ensures
        match dec_usage_range_request(buf@.subrange(pos as int, end as int)) {
            Some((chars, start, endv, o)) => r matches Ok(req) && req.device_id.chars() == chars
                && req.start.spec_u128() == start && req.end.spec_u128() == endv && req.options
                == o,
            None => (r matches Err(e) && e is InvalidInput),
        },
{
    let ghost s = buf@.subrange(pos as int, end as int);
    let mut dev: Option<String> = None;
    let ghost mut dev_g: Option<Seq<char>> = None;
    let mut start: Option<LumpId> = None;
    let ghost mut start_g: Option<u128> = None;
    let mut endv: Option<LumpId> = None;
    let ghost mut endv_g: Option<u128> = None;
    let mut opts: Option<RequestOptions> = None;
    let mut p: usize = pos;
    loop
        invariant
            pos <= p <= end <= buf@.len(),
            s == buf@.subrange(pos as int, end as int),
            (dev matches Some(d) && dev_g matches Some(g) && d@ == g) || (dev is None && dev_g
                is None),
            (start matches Some(i) && start_g matches Some(g) && i.spec_u128() == g) || (start
                is None && start_g is None),
            (endv matches Some(i) && endv_g matches Some(g) && i.spec_u128() == g) || (endv
                is None && endv_g is None),
            dec_usage_range_request_fields(s, None, None, None, None)
                == dec_usage_range_request_fields(
                buf@.subrange(p as int, end as int),
                dev_g,
                start_g,
                endv_g,
                opts,
            ),
        ensures
            p == end,
            (dev matches Some(d) && dev_g matches Some(g) && d@ == g) || (dev is None && dev_g
                is None),
            (start matches Some(i) && start_g matches Some(g) && i.spec_u128() == g) || (start
                is None && start_g is None),
            (endv matches Some(i) && endv_g matches Some(g) && i.spec_u128() == g) || (endv
                is None && endv_g is None),
            dec_usage_range_request_fields(s, None, None, None, None) == Some(
                (dev_g, start_g, endv_g, opts),
            ),
        decreases end - p,
    {
        if p >= end {
            proof {
                assert(buf@.subrange(p as int, end as int) =~= Seq::<u8>::empty());
            }
            break ;
        }
        let ghost sp = buf@.subrange(p as int, end as int);
        proof {
            lemma_dec_field_bounds(sp);
        }
        match read_field(buf, p, end) {
            None => {
                return Err(DecodeError::InvalidInput(None));
            },
            Some((f, v, np)) => {
                proof {
                    assert(buf@.subrange(np as int, end as int) =~= sp.skip(np - p));
                }
                match v {
                    FieldRef::Bytes(a, b) => {
                        if f == 1 {
                            let bytes = copy_range(buf, a, b);
                            let d = match string_from_utf8(bytes) {
                                None => {
                                    return Err(DecodeError::InvalidInput(None));
                                },
                                Some(d) => d,
                            };
                            proof {
                                encode_utf8_decode_utf8(d@);
                                dev_g = Some(decode_utf8(buf@.subrange(a as int, b as int)));
                            }
                            dev = Some(d);
                        } else if f == 2 {
                            let i = match decode_lump_id(buf, a, b) {
                                Err(e) => {
                                    return Err(DecodeError::InvalidInput(None));
                                },
                                Ok(i) => i,
                            };
                            proof {
                                start_g = Some(i.spec_u128());
                            }
                            start = Some(i);
                        } else if f == 3 {
                            let i = match decode_lump_id(buf, a, b) {
                                Err(e) => {
                                    return Err(DecodeError::InvalidInput(None));
                                },
                                Ok(i) => i,
                            };
                            proof {
                                endv_g = Some(i.spec_u128());
                            }
                            endv = Some(i);
                        } else if f == 4 {
                            let o = match decode_request_options(buf, a, b) {
                                Err(e) => {
                                    return Err(DecodeError::InvalidInput(None));
                                },
                                Ok(o) => o,
                            };
                            opts = Some(o);
                        }
                    },
                    _ => {},
                }
                p = np;
            },
        }
    }
    let device: String = match dev {
        Some(d) => d,
        None => String::new(),
    };
    match (start, endv, opts) {
        (Some(sv), Some(ev), Some(o)) => Ok(
            UsageRangeRequest { device_id: DeviceId::new(device), start: sv, end: ev, options: o },
        ),
        _ => Err(DecodeError::InvalidInput(None)),
    }
}

} // verus!
