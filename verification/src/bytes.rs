//! Little- and big-endian byte-field helpers shared by the codecs, with their exact meaning as
//! spec functions.

use vstd::prelude::*;

verus! {

/// The 16-bit little-endian value of `s[i..i+2]`.
pub open spec fn u16_le(s: Seq<u8>, i: int) -> int {
    s[i] + 256 * s[i + 1]
}

/// The 32-bit little-endian value of `s[i..i+4]`.
pub open spec fn u32_le(s: Seq<u8>, i: int) -> int {
    s[i] + 256 * s[i + 1] + 65536 * s[i + 2] + 16777216 * s[i + 3]
}

/// The 32-bit big-endian value of `s[i..i+4]`.
pub open spec fn u32_be(s: Seq<u8>, i: int) -> int {
    16777216 * s[i] + 65536 * s[i + 1] + 256 * s[i + 2] + s[i + 3]
}

/// The two's-complement value of the 32-bit little-endian field `s[i..i+4]`.
pub open spec fn i32_le(s: Seq<u8>, i: int) -> int {
    if u32_le(s, i) >= 0x8000_0000 {
        u32_le(s, i) - 0x1_0000_0000
    } else {
        u32_le(s, i)
    }
}

/// The little-endian bytes of a 16-bit value.
pub open spec fn le16(v: int) -> Seq<u8> {
    seq![(v % 256) as u8, ((v / 256) % 256) as u8]
}

/// The little-endian bytes of a 32-bit value.
pub open spec fn le32(v: int) -> Seq<u8> {
    seq![
        (v % 256) as u8,
        ((v / 256) % 256) as u8,
        ((v / 65536) % 256) as u8,
        ((v / 16777216) % 256) as u8,
    ]
}

/// The big-endian bytes of a 32-bit value.
pub open spec fn be32(v: int) -> Seq<u8> {
    seq![
        ((v / 16777216) % 256) as u8,
        ((v / 65536) % 256) as u8,
        ((v / 256) % 256) as u8,
        (v % 256) as u8,
    ]
}

/// Reads the 16-bit little-endian field at `offset`.
pub fn read_u16_le(input: &[u8], offset: usize) -> (r: u16)
    requires
        offset + 2 <= input@.len(),
    ensures
        r == u16_le(input@, offset as int),
{
    input[offset] as u16 + (input[offset + 1] as u16) * 256
}

/// Reads the 32-bit little-endian field at `offset`.
pub fn read_u32_le(input: &[u8], offset: usize) -> (r: u32)
    requires
        offset + 4 <= input@.len(),
    ensures
        r == u32_le(input@, offset as int),
{
    input[offset] as u32 + (input[offset + 1] as u32) * 256 + (input[offset + 2] as u32) * 65536
        + (input[offset + 3] as u32) * 16777216
}

/// Reads the 32-bit big-endian field at `offset`.
pub fn read_u32_be(input: &[u8], offset: usize) -> (r: u32)
    requires
        offset + 4 <= input@.len(),
    ensures
        r == u32_be(input@, offset as int),
{
    (input[offset] as u32) * 16777216 + (input[offset + 1] as u32) * 65536 + (input[offset + 2] as u32)
        * 256 + input[offset + 3] as u32
}

/// Reads the 32-bit two's-complement little-endian field at `offset`.
pub fn read_i32_le(input: &[u8], offset: usize) -> (r: i32)
    requires
        offset + 4 <= input@.len(),
    ensures
        r == i32_le(input@, offset as int),
{
    let u = read_u32_le(input, offset);
    if u >= 0x8000_0000 {
        ((u - 0x8000_0000) as i32) - 0x7fff_ffff - 1
    } else {
        u as i32
    }
}

/// Appends the little-endian bytes of `v`.
pub fn push_u16_le(out: &mut Vec<u8>, v: u16)
    ensures
        final(out)@ == old(out)@ + le16(v as int),
{
    out.push((v % 256) as u8);
    out.push(((v / 256) % 256) as u8);
}

/// Appends the little-endian bytes of `v`.
pub fn push_u32_le(out: &mut Vec<u8>, v: u32)
    ensures
        final(out)@ == old(out)@ + le32(v as int),
{
    out.push((v % 256) as u8);
    out.push(((v / 256) % 256) as u8);
    out.push(((v / 65536) % 256) as u8);
    out.push(((v / 16777216) % 256) as u8);
}

/// Appends the big-endian bytes of `v`.
pub fn push_u32_be(out: &mut Vec<u8>, v: u32)
    ensures
        final(out)@ == old(out)@ + be32(v as int),
{
    out.push(((v / 16777216) % 256) as u8);
    out.push(((v / 65536) % 256) as u8);
    out.push(((v / 256) % 256) as u8);
    out.push((v % 256) as u8);
}

/// Appends every byte of `data`.
pub fn push_all(out: &mut Vec<u8>, data: &[u8])
    ensures
        final(out)@ == old(out)@ + data@,
{
    out.extend_from_slice(data);
}

/// A fresh vector holding `data`.
pub fn to_vec(data: &[u8]) -> (r: Vec<u8>)
    ensures
        r@ == data@,
{
    let mut v = Vec::new();
    v.extend_from_slice(data);
    assert(v@ =~= data@);
    v
}


/// Reading back the little-endian bytes of a 16-bit value.
pub proof fn lemma_le16_read(s: Seq<u8>, i: int, v: int)
    requires
        0 <= v < 0x1_0000,
        0 <= i,
        i + 2 <= s.len(),
        s.subrange(i, i + 2) == le16(v),
    ensures
        u16_le(s, i) == v,
{
    assert(s[i] == le16(v)[0]);
    assert(s[i + 1] == le16(v)[1]);
    assert(v == 256 * (v / 256) + v % 256);
}

/// Reading back the little-endian bytes of a 32-bit value.
pub proof fn lemma_le32_read(s: Seq<u8>, i: int, v: int)
    requires
        0 <= v < 0x1_0000_0000,
        0 <= i,
        i + 4 <= s.len(),
        s.subrange(i, i + 4) == le32(v),
    ensures
        u32_le(s, i) == v,
{
    assert(s[i] == le32(v)[0]);
    assert(s[i + 1] == le32(v)[1]);
    assert(s[i + 2] == le32(v)[2]);
    assert(s[i + 3] == le32(v)[3]);
    let x = v as u32;
    assert(x % 256 + 256 * ((x / 256) % 256) + 65536 * ((x / 65536) % 256) + 16777216 * ((x / 16777216) % 256) == x)
        by (bit_vector);
}

/// The four little-endian bytes of a value are those of its low 32 bits.
pub proof fn lemma_le32_low_bits(v: u64)
    ensures
        le32((v as u32) as int) == le32(v as int),
{
    let x = v as u32;
    assert((x % 256) as u8 == (v % 256) as u8) by (bit_vector)
        requires x == v as u32;
    assert(((x / 256) % 256) as u8 == ((v / 256) % 256) as u8) by (bit_vector)
        requires x == v as u32;
    assert(((x / 65536) % 256) as u8 == ((v / 65536) % 256) as u8) by (bit_vector)
        requires x == v as u32;
    assert(((x / 16777216) % 256) as u8 == ((v / 16777216) % 256) as u8) by (bit_vector)
        requires x == v as u32;
    assert(le32((v as u32) as int) =~= le32(v as int));
}

/// The four big-endian bytes of a value are those of its low 32 bits.
pub proof fn lemma_be32_low_bits(v: u64)
    ensures
        be32((v as u32) as int) == be32(v as int),
{
    let x = v as u32;
    assert((x % 256) as u8 == (v % 256) as u8) by (bit_vector)
        requires x == v as u32;
    assert(((x / 256) % 256) as u8 == ((v / 256) % 256) as u8) by (bit_vector)
        requires x == v as u32;
    assert(((x / 65536) % 256) as u8 == ((v / 65536) % 256) as u8) by (bit_vector)
        requires x == v as u32;
    assert(((x / 16777216) % 256) as u8 == ((v / 16777216) % 256) as u8) by (bit_vector)
        requires x == v as u32;
    assert(be32((v as u32) as int) =~= be32(v as int));
}

} // verus!
