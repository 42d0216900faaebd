//! Little-endian integers in byte buffers, shared by the binary formats (data file, journal,
//! learning file, user snapshot).
use vstd::prelude::*;

verus! {

/// Value of the little-endian `u16` at `o`.
pub open spec fn le16(b: Seq<u8>, o: int) -> int {
    b[o] + 256 * b[o + 1]
}

/// Value of the little-endian `u32` at `o`.
pub open spec fn le32(b: Seq<u8>, o: int) -> int {
    le16(b, o) + 65536 * le16(b, o + 2)
}

/// Value of the little-endian `u64` at `o`.
pub open spec fn le64(b: Seq<u8>, o: int) -> int {
    le32(b, o) + 0x1_0000_0000 * le32(b, o + 4)
}

/// Little-endian bytes of a 16-bit value.
pub open spec fn bytes16(v: int) -> Seq<u8> {
    seq![(v % 256) as u8, ((v / 256) % 256) as u8]
}

/// Little-endian bytes of a 32-bit value.
pub open spec fn bytes32(v: int) -> Seq<u8> {
    bytes16(v % 65536) + bytes16((v / 65536) % 65536)
}

/// Little-endian bytes of a 64-bit value.
pub open spec fn bytes64(v: int) -> Seq<u8> {
    bytes32(v % 0x1_0000_0000) + bytes32((v / 0x1_0000_0000) % 0x1_0000_0000)
}

pub proof fn lemma_le16_bounds(b: Seq<u8>, o: int)
    requires
        0 <= o,
        o + 2 <= b.len(),
    ensures
        0 <= le16(b, o) < 65536,
{
}

pub proof fn lemma_le32_bounds(b: Seq<u8>, o: int)
    requires
        0 <= o,
        o + 4 <= b.len(),
    ensures
        0 <= le32(b, o) < 0x1_0000_0000,
{
    lemma_le16_bounds(b, o);
    lemma_le16_bounds(b, o + 2);
}

pub proof fn lemma_le64_bounds(b: Seq<u8>, o: int)
    requires
        0 <= o,
        o + 8 <= b.len(),
    ensures
        0 <= le64(b, o) <= u64::MAX,
{
    lemma_le32_bounds(b, o);
    lemma_le32_bounds(b, o + 4);
}

/// Reading back what was written gives the value.
pub proof fn lemma_le16_of_bytes(b: Seq<u8>, o: int, v: int)
    requires
        0 <= o,
        o + 2 <= b.len(),
        0 <= v < 65536,
        b.subrange(o, o + 2) == bytes16(v),
    ensures
        le16(b, o) == v,
{
    assert(b[o] == b.subrange(o, o + 2)[0]);
    assert(b[o + 1] == b.subrange(o, o + 2)[1]);
}

pub proof fn lemma_le32_of_bytes(b: Seq<u8>, o: int, v: int)
    requires
        0 <= o,
        o + 4 <= b.len(),
        0 <= v < 0x1_0000_0000,
        b.subrange(o, o + 4) == bytes32(v),
    ensures
        le32(b, o) == v,
{
    let s = b.subrange(o, o + 4);
    assert(b.subrange(o, o + 2) =~= s.subrange(0, 2));
    assert(b.subrange(o + 2, o + 4) =~= s.subrange(2, 4));
    assert(s.subrange(0, 2) =~= bytes16(v % 65536));
    assert(s.subrange(2, 4) =~= bytes16((v / 65536) % 65536));
    lemma_le16_of_bytes(b, o, v % 65536);
    lemma_le16_of_bytes(b, o + 2, (v / 65536) % 65536);
}

pub proof fn lemma_le64_of_bytes(b: Seq<u8>, o: int, v: int)
    requires
        0 <= o,
        o + 8 <= b.len(),
        0 <= v <= u64::MAX,
        b.subrange(o, o + 8) == bytes64(v),
    ensures
        le64(b, o) == v,
{
    let s = b.subrange(o, o + 8);
    assert(b.subrange(o, o + 4) =~= s.subrange(0, 4));
    assert(b.subrange(o + 4, o + 8) =~= s.subrange(4, 8));
    assert(s.subrange(0, 4) =~= bytes32(v % 0x1_0000_0000));
    assert(s.subrange(4, 8) =~= bytes32((v / 0x1_0000_0000) % 0x1_0000_0000));
    lemma_le32_of_bytes(b, o, v % 0x1_0000_0000);
    lemma_le32_of_bytes(b, o + 4, (v / 0x1_0000_0000) % 0x1_0000_0000);
}

/// A `u16` field (its little-endian bytes), kept folded in proofs that only need its size.
#[verifier::opaque]
pub open spec fn field16(x: int) -> Seq<u8> {
    bytes16(x)
}

/// A `u32` field (its little-endian bytes), kept folded in proofs that only need its size.
#[verifier::opaque]
pub open spec fn field32(x: int) -> Seq<u8> {
    bytes32(x)
}

/// A `u64` field (its little-endian bytes), kept folded in proofs that only need its size.
#[verifier::opaque]
pub open spec fn field64(x: int) -> Seq<u8> {
    bytes64(x)
}

pub proof fn lemma_field_lens(x: int)
    ensures
        field16(x).len() == 2,
        field32(x).len() == 4,
        field64(x).len() == 8,
{
    reveal(field16);
    reveal(field32);
    reveal(field64);
}

/// Reading a `u16` field back.
pub proof fn lemma_read_field16(b: Seq<u8>, o: int, v: int)
    requires
        0 <= o,
        o + 2 <= b.len(),
        0 <= v < 65536,
        b.subrange(o, o + 2) == field16(v),
    ensures
        le16(b, o) == v,
{
    reveal(field16);
    lemma_le16_of_bytes(b, o, v);
}

/// Reading a `u32` field back.
pub proof fn lemma_read_field32(b: Seq<u8>, o: int, v: int)
    requires
        0 <= o,
        o + 4 <= b.len(),
        0 <= v < 0x1_0000_0000,
        b.subrange(o, o + 4) == field32(v),
    ensures
        le32(b, o) == v,
{
    reveal(field32);
    lemma_le32_of_bytes(b, o, v);
}

/// Reading a `u64` field back.
pub proof fn lemma_read_field64(b: Seq<u8>, o: int, v: int)
    requires
        0 <= o,
        o + 8 <= b.len(),
        0 <= v <= u64::MAX,
        b.subrange(o, o + 8) == field64(v),
    ensures
        le64(b, o) == v,
{
    reveal(field64);
    lemma_le64_of_bytes(b, o, v);
}

/// The little-endian `u16` at `o`.
pub fn u16_at(b: &[u8], o: usize) -> (r: u16)
    requires
        o + 2 <= b@.len(),
    ensures
        r == le16(b@, o as int),
{
    b[o] as u16 + 256 * (b[o + 1] as u16)
}

/// The little-endian `u32` at `o`.
pub fn u32_at(b: &[u8], o: usize) -> (r: u32)
    requires
        o + 4 <= b@.len(),
    ensures
        r == le32(b@, o as int),
{
    let _n = b.len();
    let lo = u16_at(b, o);
    let hi = u16_at(b, o + 2);
    lo as u32 + 65536 * (hi as u32)
}

/// The little-endian `u64` at `o`.
pub fn u64_at(b: &[u8], o: usize) -> (r: u64)
    requires
        o + 8 <= b@.len(),
    ensures
        r == le64(b@, o as int),
{
    let _n = b.len();
    let lo = u32_at(b, o);
    let hi = u32_at(b, o + 4);
    lo as u64 + 0x1_0000_0000 * (hi as u64)
}

/// Append the little-endian bytes of `v`.
pub fn push_u16(out: &mut Vec<u8>, v: u16)
    ensures
        final(out)@ == old(out)@ + bytes16(v as int),
{
    out.push((v % 256) as u8);
    out.push(((v / 256) % 256) as u8);
    assert(final(out)@ =~= old(out)@ + bytes16(v as int));
}

/// Append the little-endian bytes of `v`.
pub fn push_u32(out: &mut Vec<u8>, v: u32)
    ensures
        final(out)@ == old(out)@ + bytes32(v as int),
{
    push_u16(out, (v % 65536) as u16);
    push_u16(out, ((v / 65536) % 65536) as u16);
    assert(final(out)@ =~= old(out)@ + bytes32(v as int));
}

/// Append the little-endian bytes of `v`.
pub fn push_u64(out: &mut Vec<u8>, v: u64)
    ensures
        final(out)@ == old(out)@ + bytes64(v as int),
{
    push_u32(out, (v % 0x1_0000_0000) as u32);
    push_u32(out, ((v / 0x1_0000_0000) % 0x1_0000_0000) as u32);
    assert(final(out)@ =~= old(out)@ + bytes64(v as int));
}

/// Append all of `src`.
pub fn push_all(out: &mut Vec<u8>, src: &[u8])
    ensures
        final(out)@ == old(out)@ + src@,
{
    let mut i: usize = 0;
    while i < src.len()
        invariant
            i <= src@.len(),
            out@ == old(out)@ + src@.take(i as int),
        decreases src@.len() - i,
    {
        out.push(src[i]);
        assert(src@.take(i as int).push(src@[i as int]) =~= src@.take(i + 1));
        i += 1;
    }
    assert(src@.take(src@.len() as int) =~= src@);
}

} // verus!
