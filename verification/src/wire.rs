//! Wire-level primitives of the binary encoding: base-128 varints,
//! little-endian fixed 64-bit values, and tagged fields (varint, fixed64,
//! length-delimited).
//!
//! Every primitive comes in three parts: a specification-level encoder, a
//! specification-level decoder that is total on arbitrary byte sequences, and
//! executable functions proved to match them.  The round-trip lemmas here are
//! the ground the message-level round-trip laws stand on.

use vstd::prelude::*;

verus! {

use vstd::utf8::{encode_utf8, valid_utf8};

/// Wire type of varint-encoded fields.
pub const WIRE_VARINT: u64 = 0;

/// Wire type of fixed 64-bit fields.
pub const WIRE_FIXED64: u64 = 1;

/// Wire type of length-delimited fields.
pub const WIRE_LEN: u64 = 2;

/// Base-128 varint encoding of `n`, least-significant group first.
pub open spec fn enc_varint(n: u64) -> Seq<u8>
    decreases n,
{
    if n < 0x80 {
        seq![n as u8]
    } else {
        seq![((n % 0x80) + 0x80) as u8] + enc_varint(n / 0x80)
    }
}

/// Total varint decoder: the decoded value and the number of bytes consumed,
/// or `None` when the input is exhausted mid-varint or the value overflows
/// 64 bits.
pub open spec fn dec_varint(s: Seq<u8>) -> Option<(u64, int)>
    decreases s.len(),
{
    if s.len() == 0 {
        None
    } else {
        let b = s[0];
        if b < 0x80 {
            Some((b as u64, 1))
        } else {
            match dec_varint(s.skip(1)) {
                None => None,
                Some((v, used)) => {
                    let val = (b - 0x80) + 0x80 * (v as int);
                    if val <= u64::MAX {
                        Some((val as u64, 1 + used))
                    } else {
                        None
                    }
                },
            }
        }
    }
}

/// A varint encoding takes between one and ten bytes.
pub proof fn lemma_enc_varint_len(n: u64)
    ensures
        1 <= enc_varint(n).len() <= 10,
{
    let n1 = n / 0x80;
    let n2 = n1 / 0x80;
    let n3 = n2 / 0x80;
    let n4 = n3 / 0x80;
    let n5 = n4 / 0x80;
    let n6 = n5 / 0x80;
    let n7 = n6 / 0x80;
    let n8 = n7 / 0x80;
    let n9 = n8 / 0x80;
    assert(n9 < 0x80);
    assert(enc_varint(n9).len() == 1);
    assert(enc_varint(n8).len() <= 2);
    assert(enc_varint(n7).len() <= 3);
    assert(enc_varint(n6).len() <= 4);
    assert(enc_varint(n5).len() <= 5);
    assert(enc_varint(n4).len() <= 6);
    assert(enc_varint(n3).len() <= 7);
    assert(enc_varint(n2).len() <= 8);
    assert(enc_varint(n1).len() <= 9);
    assert(enc_varint(n).len() <= 10);
}

/// A varint field takes at most 20 bytes of tag and value.
pub proof fn lemma_enc_varint_field_len(field: u64, n: u64)
    requires
        field <= 0xFFFF,
    ensures
        2 <= enc_varint_field(field, n).len() <= 20,
{
    lemma_enc_varint_len(tag_value(field, WIRE_VARINT));
    lemma_enc_varint_len(n);
}

/// A successful varint decode consumes at least one byte and no more than the
/// whole input.
pub proof fn lemma_dec_varint_bounds(s: Seq<u8>)
    ensures
        match dec_varint(s) {
            Some((n, used)) => 1 <= used <= s.len(),
            None => true,
        },
    decreases s.len(),
{
    if s.len() > 0 && s[0] >= 0x80 {
        lemma_dec_varint_bounds(s.skip(1));
    }
}

/// A varint encoding decodes back to the value it encodes, whatever follows it.
pub proof fn lemma_varint_round_trip(n: u64, rest: Seq<u8>)
    ensures
        dec_varint(enc_varint(n) + rest) == Some((n, enc_varint(n).len() as int)),
    decreases n,
{
    let s = enc_varint(n) + rest;
    if n < 0x80 {
        assert(s[0] == n as u8);
    } else {
        let b = ((n % 0x80) + 0x80) as u8;
        assert(s[0] == b);
        assert(s.skip(1) =~= enc_varint(n / 0x80) + rest);
        lemma_varint_round_trip(n / 0x80, rest);
        assert((b - 0x80) + 0x80 * ((n / 0x80) as int) == n);
    }
}

/// Appends the varint encoding of `n` to `out`.
pub fn write_varint(out: &mut Vec<u8>, n: u64)
    ensures
        final(out)@ == old(out)@ + enc_varint(n),
    decreases n,
{
    if n < 0x80 {
        out.push(n as u8);
        assert(out@ =~= old(out)@ + enc_varint(n));
    } else {
        out.push(((n % 0x80) + 0x80) as u8);
        write_varint(out, n / 0x80);
        assert(out@ =~= old(out)@ + enc_varint(n));
    }
}

/// Reads one varint from `buf` between `pos` and `end`; returns the value and
/// the position just past it.
pub fn read_varint(buf: &[u8], pos: usize, end: usize) -> (r: Option<(u64, usize)>)
    requires
        pos <= end <= buf@.len(),
    ensures
        match dec_varint(buf@.subrange(pos as int, end as int)) {
            Some((n, used)) => r == Some((n, (pos + used) as usize)),
            None => r is None,
        },
    decreases end - pos,
{
    let ghost s = buf@.subrange(pos as int, end as int);
    if pos >= end {
        return None;
    }
    let b = buf[pos];
    assert(b == s[0]);
    if b < 0x80 {
        Some((b as u64, pos + 1))
    } else {
        assert(buf@.subrange(pos as int + 1, end as int) =~= s.skip(1));
        match read_varint(buf, pos + 1, end) {
            None => None,
            Some((v, p2)) => {
                let low = (b - 0x80) as u64;
                if v <= (u64::MAX - low) / 0x80 {
                    assert(low + 0x80 * (v as int) <= u64::MAX);
                    Some((low + v * 0x80, p2))
                } else {
                    assert(low + 0x80 * (v as int) > u64::MAX);
                    None
                }
            },
        }
    }
}

/// Little-endian fixed-width encoding of a 64-bit value.
pub open spec fn enc_fixed64(n: u64) -> Seq<u8> {
    seq![
        (n & 0xFF) as u8,
        ((n >> 8) & 0xFF) as u8,
        ((n >> 16) & 0xFF) as u8,
        ((n >> 24) & 0xFF) as u8,
        ((n >> 32) & 0xFF) as u8,
        ((n >> 40) & 0xFF) as u8,
        ((n >> 48) & 0xFF) as u8,
        ((n >> 56) & 0xFF) as u8,
    ]
}

/// Total fixed64 decoder: the value of the first eight bytes, little endian.
pub open spec fn dec_fixed64(s: Seq<u8>) -> Option<(u64, int)> {
    if s.len() < 8 {
        None::<(u64, int)>
    } else {
        let n = (s[0] as u64) | ((s[1] as u64) << 8) | ((s[2] as u64) << 16) | ((s[3] as u64)
            << 24) | ((s[4] as u64) << 32) | ((s[5] as u64) << 40) | ((s[6] as u64) << 48) | ((
        s[7] as u64) << 56);
        Some((n, 8))
    }
}

/// A fixed64 encoding decodes back to the value it encodes.
pub proof fn lemma_fixed64_round_trip(n: u64, rest: Seq<u8>)
    ensures
        dec_fixed64(enc_fixed64(n) + rest) == Some((n, 8int)),
{
    let s = enc_fixed64(n) + rest;
    assert(s[0] == (n & 0xFF) as u8);
    assert(s[1] == ((n >> 8) & 0xFF) as u8);
    assert(s[2] == ((n >> 16) & 0xFF) as u8);
    assert(s[3] == ((n >> 24) & 0xFF) as u8);
    assert(s[4] == ((n >> 32) & 0xFF) as u8);
    assert(s[5] == ((n >> 40) & 0xFF) as u8);
    assert(s[6] == ((n >> 48) & 0xFF) as u8);
    assert(s[7] == ((n >> 56) & 0xFF) as u8);
    assert((((n & 0xFF) as u8) as u64) | ((((n >> 8) & 0xFF) as u8) as u64) << 8 | ((((n >> 16)
        & 0xFF) as u8) as u64) << 16 | ((((n >> 24) & 0xFF) as u8) as u64) << 24 | ((((n >> 32)
        & 0xFF) as u8) as u64) << 32 | ((((n >> 40) & 0xFF) as u8) as u64) << 40 | ((((n >> 48)
        & 0xFF) as u8) as u64) << 48 | ((((n >> 56) & 0xFF) as u8) as u64) << 56 == n)
        by (bit_vector);
}

/// Appends the little-endian encoding of `n` to `out`.
pub fn write_fixed64(out: &mut Vec<u8>, n: u64)
    ensures
        final(out)@ == old(out)@ + enc_fixed64(n),
{
    out.push((n & 0xFF) as u8);
    out.push(((n >> 8) & 0xFF) as u8);
    out.push(((n >> 16) & 0xFF) as u8);
    out.push(((n >> 24) & 0xFF) as u8);
    out.push(((n >> 32) & 0xFF) as u8);
    out.push(((n >> 40) & 0xFF) as u8);
    out.push(((n >> 48) & 0xFF) as u8);
    out.push(((n >> 56) & 0xFF) as u8);
    assert(out@ =~= old(out)@ + enc_fixed64(n));
}

/// Reads one little-endian 64-bit value from `buf` between `pos` and `end`.
pub fn read_fixed64(buf: &[u8], pos: usize, end: usize) -> (r: Option<(u64, usize)>)
    requires
        pos <= end <= buf@.len(),
    ensures
        match dec_fixed64(buf@.subrange(pos as int, end as int)) {
            Some((n, used)) => r == Some((n, (pos + used) as usize)),
            None => r is None,
        },
{
    let ghost s = buf@.subrange(pos as int, end as int);
    if end - pos < 8 {
        return None;
    }
    let n = (buf[pos] as u64) | ((buf[pos + 1] as u64) << 8) | ((buf[pos + 2] as u64) << 16) | ((
    buf[pos + 3] as u64) << 24) | ((buf[pos + 4] as u64) << 32) | ((buf[pos + 5] as u64) << 40) | ((
    buf[pos + 6] as u64) << 48) | ((buf[pos + 7] as u64) << 56);
    assert(s[0] == buf@[pos as int] && s[1] == buf@[pos + 1] && s[2] == buf@[pos + 2] && s[3]
        == buf@[pos + 3] && s[4] == buf@[pos + 4] && s[5] == buf@[pos + 5] && s[6] == buf@[pos + 6]
        && s[7] == buf@[pos + 7]);
    Some((n, pos + 8))
}

/// Appends the bytes of `b` to `out`.
pub fn write_bytes(out: &mut Vec<u8>, b: &[u8])
    ensures
        final(out)@ == old(out)@ + b@,
{
    let mut i: usize = 0;
    while i < b.len()
        invariant
            i <= b@.len(),
            out@ == old(out)@ + b@.subrange(0, i as int),
        decreases b@.len() - i,
    {
        out.push(b[i]);
        i = i + 1;
        assert(out@ =~= old(out)@ + b@.subrange(0, i as int));
    }
    assert(out@ =~= old(out)@ + b@);
}

/// Copies `buf[start..end]` into a fresh vector.
pub fn copy_range(buf: &[u8], start: usize, end: usize) -> (r: Vec<u8>)
    requires
        start <= end <= buf@.len(),
    ensures
        r@ == buf@.subrange(start as int, end as int),
{
    let mut out: Vec<u8> = Vec::new();
    let mut i: usize = start;
    while i < end
        invariant
            start <= i <= end <= buf@.len(),
            out@ == buf@.subrange(start as int, i as int),
        decreases end - i,
    {
        out.push(buf[i]);
        i = i + 1;
        assert(out@ =~= buf@.subrange(start as int, i as int));
    }
    out
}

/// The field tag preceding a field's value: field number and wire type packed
/// into one varint.
pub open spec fn tag_value(field: u64, wire: u64) -> u64 {
    (8 * field + wire) as u64
}

/// Encoding of a varint field: tag, then value.
pub open spec fn enc_varint_field(field: u64, n: u64) -> Seq<u8> {
    enc_varint(tag_value(field, WIRE_VARINT)) + enc_varint(n)
}

/// Encoding of a fixed64 field: tag, then eight bytes.
pub open spec fn enc_fixed64_field(field: u64, n: u64) -> Seq<u8> {
    enc_varint(tag_value(field, WIRE_FIXED64)) + enc_fixed64(n)
}

/// Encoding of a length-delimited field: tag, payload length, payload.
pub open spec fn enc_len_field(field: u64, payload: Seq<u8>) -> Seq<u8> {
    enc_varint(tag_value(field, WIRE_LEN)) + enc_varint(payload.len() as u64) + payload
}


/// Wire type of fixed 32-bit fields.  No message of this crate carries one,
/// but a conformant decoder must be able to skip such a field.
pub const WIRE_FIXED32: u64 = 5;

/// Little-endian decoder of a fixed 32-bit value: the value of the first
/// four bytes.
pub open spec fn dec_fixed32(s: Seq<u8>) -> Option<(u32, int)> {
    if s.len() < 4 {
        None::<(u32, int)>
    } else {
        let n = (s[0] as u32) | ((s[1] as u32) << 8) | ((s[2] as u32) << 16) | ((s[3] as u32)
            << 24);
        Some((n, 4))
    }
}

/// Reads one little-endian 32-bit value from `buf` between `pos` and `end`.
pub fn read_fixed32(buf: &[u8], pos: usize, end: usize) -> (r: Option<(u32, usize)>)
    requires
        pos <= end <= buf@.len(),
    ensures
        match dec_fixed32(buf@.subrange(pos as int, end as int)) {
            Some((n, used)) => r == Some((n, (pos + used) as usize)),
            None => r is None,
        },
{
    let ghost s = buf@.subrange(pos as int, end as int);
    if end - pos < 4 {
        return None;
    }
    let n = (buf[pos] as u32) | ((buf[pos + 1] as u32) << 8) | ((buf[pos + 2] as u32) << 16) | ((
    buf[pos + 3] as u32) << 24);
    assert(s[0] == buf@[pos as int] && s[1] == buf@[pos + 1] && s[2] == buf@[pos + 2] && s[3]
        == buf@[pos + 3]);
    Some((n, pos + 4))
}

/// One decoded field of a message: its value, by wire type.
pub enum FieldValue {
    /// A varint field's value.
    Varint(u64),
    /// A fixed 64-bit field's value.
    Fixed64(u64),
    /// A fixed 32-bit field's value.
    Fixed32(u32),
    /// A length-delimited field's payload.
    Bytes(Seq<u8>),
}

/// Total decoder of one field, whatever its number: the field number, the
/// value, and the bytes consumed.  `None` on a truncated field or a wire
/// type no field can carry.
pub open spec fn dec_field(s: Seq<u8>) -> Option<((u64, FieldValue), int)> {
    match dec_varint(s) {
        None => None,
        Some((tag, k1)) => {
            let f = (tag / 8) as u64;
            let w = tag % 8;
            if w == WIRE_VARINT {
                match dec_varint(s.skip(k1)) {
                    None => None,
                    Some((n, k2)) => Some(((f, FieldValue::Varint(n)), k1 + k2)),
                }
            } else if w == WIRE_FIXED64 {
                match dec_fixed64(s.skip(k1)) {
                    None => None,
                    Some((n, k2)) => Some(((f, FieldValue::Fixed64(n)), k1 + k2)),
                }
            } else if w == WIRE_LEN {
                match dec_varint(s.skip(k1)) {
                    None => None,
                    Some((len, k2)) => if len <= s.len() - k1 - k2 {
                        Some(
                            (
                                (f, FieldValue::Bytes(s.subrange(k1 + k2, k1 + k2 + len))),
                                k1 + k2 + len,
                            ),
                        )
                    } else {
                        None
                    },
                }
            } else if w == WIRE_FIXED32 {
                match dec_fixed32(s.skip(k1)) {
                    None => None,
                    Some((n, k2)) => Some(((f, FieldValue::Fixed32(n)), k1 + k2)),
                }
            } else {
                None
            }
        },
    }
}

/// A successful field decode consumes between one byte and the whole input.
pub proof fn lemma_dec_field_bounds(s: Seq<u8>)
    ensures
        match dec_field(s) {
            Some((fv, used)) => 1 <= used <= s.len(),
            None => true,
        },
{
    lemma_dec_varint_bounds(s);
    if dec_varint(s) is Some {
        let (tag, k1) = dec_varint(s).unwrap();
        lemma_dec_varint_bounds(s.skip(k1));
    }
}

/// A canonical varint field decodes as one field holding its value.
pub proof fn lemma_dec_field_varint(field: u64, n: u64, rest: Seq<u8>)
    requires
        field <= 0xFFFF,
    ensures
        dec_field(enc_varint_field(field, n) + rest) == Some(
            ((field, FieldValue::Varint(n)), enc_varint_field(field, n).len() as int),
        ),
{
    let t = tag_value(field, WIRE_VARINT);
    let s = enc_varint_field(field, n) + rest;
    assert(s =~= enc_varint(t) + (enc_varint(n) + rest));
    lemma_varint_round_trip(t, enc_varint(n) + rest);
    let k1 = enc_varint(t).len() as int;
    assert(s.skip(k1) =~= enc_varint(n) + rest);
    lemma_varint_round_trip(n, rest);
}

/// A canonical fixed64 field decodes as one field holding its value.
pub proof fn lemma_dec_field_fixed64(field: u64, n: u64, rest: Seq<u8>)
    requires
        field <= 0xFFFF,
    ensures
        dec_field(enc_fixed64_field(field, n) + rest) == Some(
            ((field, FieldValue::Fixed64(n)), enc_fixed64_field(field, n).len() as int),
        ),
{
    let t = tag_value(field, WIRE_FIXED64);
    let s = enc_fixed64_field(field, n) + rest;
    assert(s =~= enc_varint(t) + (enc_fixed64(n) + rest));
    lemma_varint_round_trip(t, enc_fixed64(n) + rest);
    let k1 = enc_varint(t).len() as int;
    assert(s.skip(k1) =~= enc_fixed64(n) + rest);
    lemma_fixed64_round_trip(n, rest);
}

/// A canonical length-delimited field decodes as one field holding its
/// payload.
pub proof fn lemma_dec_field_len(field: u64, payload: Seq<u8>, rest: Seq<u8>)
    requires
        field <= 0xFFFF,
        payload.len() <= u64::MAX,
    ensures
        dec_field(enc_len_field(field, payload) + rest) == Some(
            ((field, FieldValue::Bytes(payload)), enc_len_field(field, payload).len() as int),
        ),
{
    let t = tag_value(field, WIRE_LEN);
    let s = enc_len_field(field, payload) + rest;
    let lenv = payload.len() as u64;
    assert(s =~= enc_varint(t) + (enc_varint(lenv) + (payload + rest)));
    lemma_varint_round_trip(t, enc_varint(lenv) + (payload + rest));
    let k1 = enc_varint(t).len() as int;
    assert(s.skip(k1) =~= enc_varint(lenv) + (payload + rest));
    lemma_varint_round_trip(lenv, payload + rest);
    let k2 = enc_varint(lenv).len() as int;
    assert(s.subrange(k1 + k2, k1 + k2 + lenv) =~= payload);
}

/// The executable form of one decoded field; a length-delimited payload is
/// the positions that delimit it.
pub enum FieldRef {
    /// A varint field's value.
    Varint(u64),
    /// A fixed 64-bit field's value.
    Fixed64(u64),
    /// A fixed 32-bit field's value.
    Fixed32(u32),
    /// A length-delimited field's payload position: start and end.
    Bytes(usize, usize),
}

/// Whether an executable field stands for the given decoded value.
pub open spec fn field_ref_matches(buf: Seq<u8>, end: int, r: FieldRef, v: FieldValue) -> bool {
    match (r, v) {
        (FieldRef::Varint(m), FieldValue::Varint(n)) => m == n,
        (FieldRef::Fixed64(m), FieldValue::Fixed64(n)) => m == n,
        (FieldRef::Fixed32(m), FieldValue::Fixed32(n)) => m == n,
        (FieldRef::Bytes(a, b), FieldValue::Bytes(p)) => a <= b <= end <= buf.len()
            && buf.subrange(a as int, b as int) == p,
        _ => false,
    }
}

/// Reads one field, of any wire type, from `buf` between `pos` and `end`.
pub fn read_field(buf: &[u8], pos: usize, end: usize) -> (r: Option<(u64, FieldRef, usize)>)
    requires
        pos <= end <= buf@.len(),
    ensures
        match dec_field(buf@.subrange(pos as int, end as int)) {
            Some(((f, v), used)) => r matches Some((rf, rv, np)) && rf == f && np == pos + used
                && pos < np <= end && field_ref_matches(buf@, end as int, rv, v),
            None => r is None,
        },
{
    let ghost s = buf@.subrange(pos as int, end as int);
    proof {
        lemma_dec_varint_bounds(s);
    }
    let (tag, p1) = match read_varint(buf, pos, end) {
        None => {
            return None;
        },
        Some(v) => v,
    };
    assert(buf@.subrange(p1 as int, end as int) =~= s.skip(p1 - pos));
    let f = tag / 8;
    let w = tag % 8;
    if w == WIRE_VARINT {
        proof {
            lemma_dec_varint_bounds(s.skip(p1 - pos));
        }
        match read_varint(buf, p1, end) {
            None => None,
            Some((n, p2)) => Some((f, FieldRef::Varint(n), p2)),
        }
    } else if w == WIRE_FIXED64 {
        match read_fixed64(buf, p1, end) {
            None => None,
            Some((n, p2)) => Some((f, FieldRef::Fixed64(n), p2)),
        }
    } else if w == WIRE_LEN {
        proof {
            lemma_dec_varint_bounds(s.skip(p1 - pos));
        }
        match read_varint(buf, p1, end) {
            None => None,
            Some((len, p2)) => {
                if len <= (end - p2) as u64 {
                    let payload_end = p2 + (len as usize);
                    assert(buf@.subrange(p2 as int, payload_end as int) =~= s.subrange(
                        p2 - pos,
                        p2 - pos + len,
                    ));
                    Some((f, FieldRef::Bytes(p2, payload_end), payload_end))
                } else {
                    None
                }
            },
        }
    } else if w == WIRE_FIXED32 {
        match read_fixed32(buf, p1, end) {
            None => None,
            Some((n, p2)) => Some((f, FieldRef::Fixed32(n), p2)),
        }
    } else {
        None
    }
}

/// Appends a varint field to `out`.
pub fn write_varint_field(out: &mut Vec<u8>, field: u64, n: u64)
    requires
        field <= 0xFFFF,
    ensures
        final(out)@ == old(out)@ + enc_varint_field(field, n),
{
    write_varint(out, 8 * field + WIRE_VARINT);
    write_varint(out, n);
    assert(out@ =~= old(out)@ + enc_varint_field(field, n));
}

/// Appends a fixed64 field to `out`.
pub fn write_fixed64_field(out: &mut Vec<u8>, field: u64, n: u64)
    requires
        field <= 0xFFFF,
    ensures
        final(out)@ == old(out)@ + enc_fixed64_field(field, n),
{
    write_varint(out, 8 * field + WIRE_FIXED64);
    write_fixed64(out, n);
    assert(out@ =~= old(out)@ + enc_fixed64_field(field, n));
}

/// Appends a length-delimited field holding `payload` to `out`.
pub fn write_len_field(out: &mut Vec<u8>, field: u64, payload: &[u8])
    requires
        field <= 0xFFFF,
        payload@.len() <= u64::MAX,
    ensures
        final(out)@ == old(out)@ + enc_len_field(field, payload@),
{
    write_varint(out, 8 * field + WIRE_LEN);
    write_varint(out, payload.len() as u64);
    write_bytes(out, payload);
    assert(out@ =~= old(out)@ + enc_len_field(field, payload@));
}

/// A UTF-8 encoding takes at most four bytes per character.
pub proof fn lemma_encode_utf8_len(chars: Seq<char>)
    ensures
        encode_utf8(chars).len() <= 4 * chars.len(),
    decreases chars.len(),
{
    if chars.len() > 0 {
        lemma_encode_utf8_len(chars.drop_first());
    }
}

/// Relies on `String::from_utf8`: succeeds exactly on valid UTF-8 input and
/// returns the string whose UTF-8 encoding is that input.
#[verifier::external_body]
pub fn string_from_utf8(bytes: Vec<u8>) -> (r: Option<String>)
    ensures
        r is Some <==> valid_utf8(bytes@),
        r is Some ==> encode_utf8(r.unwrap()@) == bytes@,
{
    String::from_utf8(bytes).ok()
}

} // verus!
