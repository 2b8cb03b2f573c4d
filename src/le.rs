//! Little-endian encoding of 16- and 32-bit fields.

use vstd::prelude::*;

verus! {

/// The 16-bit little-endian value of `b[at]`, `b[at + 1]`.
pub open spec fn le16_at(b: Seq<u8>, at: int) -> u16 {
    (b[at] as int + 256 * (b[at + 1] as int)) as u16
}

/// The 32-bit little-endian value of `b[at..at + 4]`.
pub open spec fn le32_at(b: Seq<u8>, at: int) -> u32 {
    (b[at] as int + 256 * (b[at + 1] as int) + 65536 * (b[at + 2] as int) + 16777216 * (
    b[at + 3] as int)) as u32
}

/// The two little-endian bytes of `v`.
pub open spec fn le16_bytes(v: u16) -> Seq<u8> {
    seq![(v % 256) as u8, (v / 256) as u8]
}

/// The four little-endian bytes of `v`.
pub open spec fn le32_bytes(v: u32) -> Seq<u8> {
    seq![(v % 256) as u8, ((v / 256) % 256) as u8, ((v / 65536) % 256) as u8, (v / 16777216) as u8]
}

/// Decodes the 16-bit little-endian value at `at`.
pub fn read_le16(b: &[u8], at: usize) -> (r: u16)
    requires
        at + 2 <= b@.len(),
    ensures
        r == le16_at(b@, at as int),
{
    b[at] as u16 + 256 * (b[at + 1] as u16)
}

/// Decodes the 32-bit little-endian value at `at`.
pub fn read_le32(b: &[u8], at: usize) -> (r: u32)
    requires
        at + 4 <= b@.len(),
    ensures
        r == le32_at(b@, at as int),
{
    b[at] as u32 + 256 * (b[at + 1] as u32) + 65536 * (b[at + 2] as u32) + 16777216 * (b[at
        + 3] as u32)
}

/// Appends the two little-endian bytes of `v`.
pub fn push_le16(out: &mut Vec<u8>, v: u16)
    ensures
        final(out)@ == old(out)@ + le16_bytes(v),
{
    out.push((v % 256) as u8);
    out.push((v / 256) as u8);
    assert(final(out)@ =~= old(out)@ + le16_bytes(v));
}

/// Appends the four little-endian bytes of `v`.
pub fn push_le32(out: &mut Vec<u8>, v: u32)
    ensures
        final(out)@ == old(out)@ + le32_bytes(v),
{
    out.push((v % 256) as u8);
    out.push(((v / 256) % 256) as u8);
    out.push(((v / 65536) % 256) as u8);
    out.push((v / 16777216) as u8);
    assert(final(out)@ =~= old(out)@ + le32_bytes(v));
}

/// Encoding a 16-bit value and decoding it gives it back.
pub proof fn lemma_le16_round_trip(v: u16)
    ensures
        le16_at(le16_bytes(v), 0) == v,
{
    assert(((v % 256) as u8) as int + 256 * (((v / 256) as u8) as int) == v) by (nonlinear_arith);
}

/// Decoding two bytes and encoding the value gives them back.
pub proof fn lemma_le16_bytes_round_trip(b: Seq<u8>, at: int)
    requires
        0 <= at,
        at + 2 <= b.len(),
    ensures
        le16_bytes(le16_at(b, at)) == b.subrange(at, at + 2),
{
    let b0 = b[at];
    let b1 = b[at + 1];
    let v = le16_at(b, at);
    assert(v == b0 as int + 256 * (b1 as int)) by (nonlinear_arith)
        requires
            v == (b0 as int + 256 * (b1 as int)) as u16,
            0 <= b0 < 256,
            0 <= b1 < 256,
    ;
    assert(v % 256 == b0 && v / 256 == b1) by (nonlinear_arith)
        requires
            v == b0 as int + 256 * (b1 as int),
            0 <= b0 < 256,
            0 <= b1 < 256,
    ;
    assert(le16_bytes(v) =~= b.subrange(at, at + 2));
}

/// Encoding a 32-bit value and decoding it gives it back.
pub proof fn lemma_le32_round_trip(v: u32)
    ensures
        le32_at(le32_bytes(v), 0) == v,
{
    let b = le32_bytes(v);
    assert(b[0] as int + 256 * (b[1] as int) + 65536 * (b[2] as int) + 16777216 * (b[3] as int)
        == v) by (nonlinear_arith)
        requires
            b[0] == v % 256,
            b[1] == (v / 256) % 256,
            b[2] == (v / 65536) % 256,
            b[3] == v / 16777216,
            0 <= v < 4294967296,
    ;
}

/// Decoding four bytes and encoding the value gives them back.
pub proof fn lemma_le32_bytes_round_trip(b: Seq<u8>, at: int)
    requires
        0 <= at,
        at + 4 <= b.len(),
    ensures
        le32_bytes(le32_at(b, at)) == b.subrange(at, at + 4),
{
    let b0 = b[at] as int;
    let b1 = b[at + 1] as int;
    let b2 = b[at + 2] as int;
    let b3 = b[at + 3] as int;
    let v = le32_at(b, at) as int;
    assert(v == b0 + 256 * b1 + 65536 * b2 + 16777216 * b3) by (nonlinear_arith)
        requires
            v == (b0 + 256 * b1 + 65536 * b2 + 16777216 * b3) as u32,
            0 <= b0 < 256,
            0 <= b1 < 256,
            0 <= b2 < 256,
            0 <= b3 < 256,
    ;
    assert(v % 256 == b0 && (v / 256) % 256 == b1 && (v / 65536) % 256 == b2 && v / 16777216
        == b3) by (nonlinear_arith)
        requires
            v == b0 + 256 * b1 + 65536 * b2 + 16777216 * b3,
            0 <= b0 < 256,
            0 <= b1 < 256,
            0 <= b2 < 256,
            0 <= b3 < 256,
    ;
    assert(le32_bytes(v as u32) =~= b.subrange(at, at + 4));
}

} // verus!
