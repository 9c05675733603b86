//! Byte-sequence helpers shared by the lexer and the command-buffer codec.

use vstd::prelude::*;
use vstd::string::StringSliceAdditionalSpecFns;

verus! {

/// Whether two byte slices hold the same bytes.
pub fn bytes_eq(a: &[u8], b: &[u8]) -> (r: bool)
    ensures
        r == (a@ == b@),
{
    if a.len() != b.len() {
        return false;
    }
    let mut i: usize = 0;
    while i < a.len()
        invariant
            a@.len() == b@.len(),
            i <= a@.len(),
            forall|j: int| 0 <= j < i ==> a@[j] == b@[j],
        decreases a@.len() - i,
    {
        if a[i] != b[i] {
            return false;
        }
        i = i + 1;
    }
    assert(a@ =~= b@);
    true
}

/// A copy of `src[lo..hi]`.
pub fn copy_range(src: &[u8], lo: usize, hi: usize) -> (v: Vec<u8>)
    requires
        lo <= hi <= src@.len(),
    ensures
        v@ == src@.subrange(lo as int, hi as int),
{
    let mut v: Vec<u8> = Vec::new();
    let mut i: usize = lo;
    while i < hi
        invariant
            lo <= i <= hi <= src@.len(),
            v@ == src@.subrange(lo as int, i as int),
        decreases hi - i,
    {
        v.push(src[i]);
        i = i + 1;
        assert(v@ =~= src@.subrange(lo as int, i as int));
    }
    v
}

/// Whether `s[pos..]` starts with the two bytes `a b`.
pub fn starts_with2(s: &[u8], pos: usize, a: u8, b: u8) -> (r: bool)
    ensures
        r == (pos + 2 <= s@.len() && s@[pos as int] == a && s@[pos + 1] == b),
{
    pos < s.len() && s.len() - pos >= 2 && s[pos] == a && s[pos + 1] == b
}

} // verus!

verus! {

/// Whether two strings are equal, compared through their UTF-8 bytes.
pub fn str_eq(a: &str, b: &str) -> (r: bool)
    ensures
        r == (a@ == b@),
{
    let r = bytes_eq(a.as_bytes(), b.as_bytes());
    proof {
        vstd::utf8::encode_utf8_decode_utf8(a@);
        vstd::utf8::encode_utf8_decode_utf8(b@);
    }
    r
}

} // verus!

verus! {

// Little-endian fixed-width integers.

pub open spec fn le16(v: u16) -> Seq<u8> {
    seq![(v % 256) as u8, (v / 256) as u8]
}

pub open spec fn le32(v: u32) -> Seq<u8> {
    seq![(v % 256) as u8, ((v / 256) % 256) as u8, ((v / 65536) % 256) as u8, (v / 16777216) as u8]
}

pub open spec fn le64(v: u64) -> Seq<u8> {
    le32((v % 4294967296) as u32) + le32((v / 4294967296) as u32)
}

/// The `u16` whose little-endian bytes are `b[i..i + 2]`.
pub open spec fn u16_at(b: Seq<u8>, i: int) -> u16 {
    (b[i] + 256 * b[i + 1]) as u16
}

/// The `u32` whose little-endian bytes are `b[i..i + 4]`.
pub open spec fn u32_at(b: Seq<u8>, i: int) -> u32 {
    (b[i] + 256 * b[i + 1] + 65536 * b[i + 2] + 16777216 * b[i + 3]) as u32
}

/// The `u64` whose little-endian bytes are `b[i..i + 8]`.
pub open spec fn u64_at(b: Seq<u8>, i: int) -> u64 {
    (u32_at(b, i) + 4294967296 * u32_at(b, i + 4)) as u64
}

pub proof fn lemma_le16(v: u16)
    ensures
        u16_at(le16(v), 0) == v,
{
    let b = le16(v);
    assert(b[0] + 256 * b[1] == v);
}

pub proof fn lemma_le32(v: u32)
    ensures
        u32_at(le32(v), 0) == v,
{
    let b = le32(v);
    let b0 = v % 256;
    let b1 = (v / 256) % 256;
    let b2 = (v / 65536) % 256;
    let b3 = v / 16777216;
    assert(v == b0 + 256 * b1 + 65536 * b2 + 16777216 * b3) by (bit_vector)
        requires
            b0 == v % 256,
            b1 == (v / 256) % 256,
            b2 == (v / 65536) % 256,
            b3 == v / 16777216,
    ;
}

pub proof fn lemma_le64(v: u64)
    ensures
        u64_at(le64(v), 0) == v,
{
    let lo = (v % 4294967296) as u32;
    let hi = (v / 4294967296) as u32;
    lemma_le32(lo);
    lemma_le32(hi);
    let b = le64(v);
    assert(b.subrange(0, 4) =~= le32(lo));
    assert(b.subrange(4, 8) =~= le32(hi));
    assert(u32_at(b, 0) == u32_at(le32(lo), 0));
    assert(u32_at(b, 4) == u32_at(le32(hi), 0));
    assert(v == lo + 4294967296 * hi) by (bit_vector)
        requires
            lo == v % 4294967296,
            hi == v / 4294967296,
    ;
}

pub fn push_le16(buf: &mut Vec<u8>, v: u16)
    ensures
        final(buf)@ == old(buf)@ + le16(v),
{
    buf.push((v % 256) as u8);
    buf.push((v / 256) as u8);
    assert(final(buf)@ =~= old(buf)@ + le16(v));
}

pub fn push_le32(buf: &mut Vec<u8>, v: u32)
    ensures
        final(buf)@ == old(buf)@ + le32(v),
{
    buf.push((v % 256) as u8);
    buf.push(((v / 256) % 256) as u8);
    buf.push(((v / 65536) % 256) as u8);
    buf.push((v / 16777216) as u8);
    assert(final(buf)@ =~= old(buf)@ + le32(v));
}

pub fn push_le64(buf: &mut Vec<u8>, v: u64)
    ensures
        final(buf)@ == old(buf)@ + le64(v),
{
    push_le32(buf, (v % 4294967296) as u32);
    push_le32(buf, (v / 4294967296) as u32);
    assert(final(buf)@ =~= old(buf)@ + le64(v));
}

pub fn read_le16(b: &[u8], i: usize) -> (v: u16)
    requires
        i + 2 <= b@.len(),
    ensures
        v == u16_at(b@, i as int),
{
    (b[i] as u16) + 256 * (b[i + 1] as u16)
}

pub fn read_le32(b: &[u8], i: usize) -> (v: u32)
    requires
        i + 4 <= b@.len(),
    ensures
        v == u32_at(b@, i as int),
{
    (b[i] as u32) + 256 * (b[i + 1] as u32) + 65536 * (b[i + 2] as u32) + 16777216 * (b[i + 3] as u32)
}

pub fn read_le64(b: &[u8], i: usize) -> (v: u64)
    requires
        i + 8 <= b@.len(),
    ensures
        v == u64_at(b@, i as int),
{
    let _n = b.len();
    let lo = read_le32(b, i) as u64;
    let hi = read_le32(b, i + 4) as u64;
    lo + 4294967296 * hi
}

} // verus!
