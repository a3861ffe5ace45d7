//! Little-endian integers inside byte buffers.

use vstd::prelude::*;

verus! {

/// The 32-bit integer whose little-endian bytes are `b0` to `b3`.
pub open spec fn u32_of(b0: u8, b1: u8, b2: u8, b3: u8) -> u32 {
    (b0 as u32) | ((b1 as u32) << 8) | ((b2 as u32) << 16) | ((b3 as u32) << 24)
}

/// The 64-bit integer whose little-endian halves are `lo` and `hi`.
pub open spec fn u64_of(lo: u32, hi: u32) -> u64 {
    (lo as u64) | ((hi as u64) << 32)
}

/// The 32-bit little-endian integer stored at `off` in `s`.
pub open spec fn u32_at(s: Seq<u8>, off: int) -> u32 {
    u32_of(s[off], s[off + 1], s[off + 2], s[off + 3])
}

/// The 64-bit little-endian integer stored at `off` in `s`.
pub open spec fn u64_at(s: Seq<u8>, off: int) -> u64 {
    u64_of(u32_at(s, off), u32_at(s, off + 4))
}

/// Two buffers agree everywhere outside the `width` bytes at `off`.
pub open spec fn same_outside(a: Seq<u8>, b: Seq<u8>, off: int, width: int) -> bool {
    &&& a.len() == b.len()
    &&& forall|i: int| 0 <= i < a.len() && !(off <= i < off + width) ==> a[i] == b[i]
}

/// `s` with the four bytes at `off` replaced by the little-endian bytes of `v`.
pub open spec fn with_u32(s: Seq<u8>, off: int, v: u32) -> Seq<u8> {
    s.update(off, (v & 0xff) as u8).update(off + 1, ((v >> 8) & 0xff) as u8).update(
        off + 2,
        ((v >> 16) & 0xff) as u8,
    ).update(off + 3, ((v >> 24) & 0xff) as u8)
}

/// `s` with the eight bytes at `off` replaced by the little-endian bytes of `v`.
pub open spec fn with_u64(s: Seq<u8>, off: int, v: u64) -> Seq<u8> {
    with_u32(with_u32(s, off, (v & 0xffff_ffff) as u32), off + 4, (v >> 32) as u32)
}

/// A stored 32-bit integer reads back, and nothing else changes.
pub proof fn lemma_with_u32(s: Seq<u8>, off: int, v: u32)
    requires
        0 <= off,
        off + 4 <= s.len(),
    ensures
        u32_at(with_u32(s, off, v), off) == v,
        same_outside(s, with_u32(s, off, v), off, 4),
{
    lemma_u32_bytes(v);
}

/// A stored 64-bit integer reads back, and nothing else changes.
pub proof fn lemma_with_u64(s: Seq<u8>, off: int, v: u64)
    requires
        0 <= off,
        off + 8 <= s.len(),
    ensures
        u64_at(with_u64(s, off, v), off) == v,
        same_outside(s, with_u64(s, off, v), off, 8),
{
    lemma_u64_halves(v);
    let lo = (v & 0xffff_ffff) as u32;
    let hi = (v >> 32) as u32;
    lemma_with_u32(s, off, lo);
    lemma_with_u32(with_u32(s, off, lo), off + 4, hi);
}

/// Storing twice at one place keeps the second value only; storing what is there
/// already changes nothing.
pub proof fn lemma_with_u64_twice(s: Seq<u8>, off: int, a: u64, b: u64)
    requires
        0 <= off,
        off + 8 <= s.len(),
    ensures
        with_u64(with_u64(s, off, a), off, b) == with_u64(s, off, b),
        with_u64(s, off, u64_at(s, off)) == s,
{
    assert(with_u64(with_u64(s, off, a), off, b) =~= with_u64(s, off, b));
    let v = u64_at(s, off);
    lemma_with_u64(s, off, v);
    lemma_u64_halves_of(u32_at(s, off), u32_at(s, off + 4));
    lemma_u32_bytes_of(s[off], s[off + 1], s[off + 2], s[off + 3]);
    lemma_u32_bytes_of(s[off + 4], s[off + 5], s[off + 6], s[off + 7]);
    assert(with_u64(s, off, v) =~= s);
}

/// Joining four bytes and splitting the result gives the bytes back.
pub proof fn lemma_u32_bytes_of(b0: u8, b1: u8, b2: u8, b3: u8)
    ensures
        ({
            let v = u32_of(b0, b1, b2, b3);
            &&& (v & 0xff) as u8 == b0
            &&& ((v >> 8) & 0xff) as u8 == b1
            &&& ((v >> 16) & 0xff) as u8 == b2
            &&& ((v >> 24) & 0xff) as u8 == b3
        }),
{
    let v = (b0 as u32) | ((b1 as u32) << 8) | ((b2 as u32) << 16) | ((b3 as u32) << 24);
    assert((((b0 as u32) | ((b1 as u32) << 8) | ((b2 as u32) << 16) | ((b3 as u32) << 24)) & 0xff)
        as u8 == b0) by (bit_vector);
    assert(((((b0 as u32) | ((b1 as u32) << 8) | ((b2 as u32) << 16) | ((b3 as u32) << 24)) >> 8)
        & 0xff) as u8 == b1) by (bit_vector);
    assert(((((b0 as u32) | ((b1 as u32) << 8) | ((b2 as u32) << 16) | ((b3 as u32) << 24)) >> 16)
        & 0xff) as u8 == b2) by (bit_vector);
    assert(((((b0 as u32) | ((b1 as u32) << 8) | ((b2 as u32) << 16) | ((b3 as u32) << 24)) >> 24)
        & 0xff) as u8 == b3) by (bit_vector);
}

/// Joining two halves and splitting the result gives the halves back.
pub proof fn lemma_u64_halves_of(lo: u32, hi: u32)
    ensures
        (u64_of(lo, hi) & 0xffff_ffff) as u32 == lo,
        (u64_of(lo, hi) >> 32) as u32 == hi,
{
    assert((((lo as u64) | ((hi as u64) << 32)) & 0xffff_ffff) as u32 == lo) by (bit_vector);
    assert((((lo as u64) | ((hi as u64) << 32)) >> 32) as u32 == hi) by (bit_vector);
}

/// Splitting a 32-bit integer into bytes and joining them again gives it back.
pub proof fn lemma_u32_bytes(v: u32)
    ensures
        u32_of(
            (v & 0xff) as u8,
            ((v >> 8) & 0xff) as u8,
            ((v >> 16) & 0xff) as u8,
            ((v >> 24) & 0xff) as u8,
        ) == v,
{
    assert(((((v & 0xff) as u8) as u32) | (((((v >> 8) & 0xff) as u8) as u32) << 8) | (((((v >> 16)
        & 0xff) as u8) as u32) << 16) | (((((v >> 24) & 0xff) as u8) as u32) << 24)) == v)
        by (bit_vector);
}

/// Splitting a 64-bit integer into halves and joining them again gives it back.
pub proof fn lemma_u64_halves(v: u64)
    ensures
        u64_of((v & 0xffff_ffff) as u32, (v >> 32) as u32) == v,
{
    assert(((((v & 0xffff_ffff) as u32) as u64) | ((((v >> 32) as u32) as u64) << 32)) == v)
        by (bit_vector);
}

/// Reads the 32-bit little-endian integer at `off`.
pub fn load_u32(buf: &Vec<u8>, off: usize) -> (r: u32)
    requires
        off + 4 <= buf.len(),
    ensures
        r == u32_at(buf@, off as int),
{
    let b0: u8 = buf[off];
    let b1: u8 = buf[off + 1];
    let b2: u8 = buf[off + 2];
    let b3: u8 = buf[off + 3];
    (b0 as u32) | ((b1 as u32) << 8) | ((b2 as u32) << 16) | ((b3 as u32) << 24)
}

/// Writes `v` as a 32-bit little-endian integer at `off`.
pub fn store_u32(buf: &mut Vec<u8>, off: usize, v: u32)
    requires
        off + 4 <= old(buf).len(),
    ensures
        final(buf)@ == with_u32(old(buf)@, off as int, v),
{
    buf.set(off, (v & 0xff) as u8);
    buf.set(off + 1, ((v >> 8) & 0xff) as u8);
    buf.set(off + 2, ((v >> 16) & 0xff) as u8);
    buf.set(off + 3, ((v >> 24) & 0xff) as u8);
}

/// Reads the 64-bit little-endian integer at `off`.
pub fn load_u64(buf: &Vec<u8>, off: usize) -> (r: u64)
    requires
        off + 8 <= buf.len(),
    ensures
        r == u64_at(buf@, off as int),
{
    let lo: u32 = load_u32(buf, off);
    let hi: u32 = load_u32(buf, off + 4);
    (lo as u64) | ((hi as u64) << 32)
}

/// Writes `v` as a 64-bit little-endian integer at `off`.
pub fn store_u64(buf: &mut Vec<u8>, off: usize, v: u64)
    requires
        off + 8 <= old(buf).len(),
    ensures
        final(buf)@ == with_u64(old(buf)@, off as int, v),
{
    store_u32(buf, off, (v & 0xffff_ffff) as u32);
    store_u32(buf, off + 4, (v >> 32) as u32);
}

} // verus!
