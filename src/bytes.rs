//! Little-endian and big-endian integer fields inside byte buffers.

use vstd::prelude::*;

verus! {

/// The unsigned 16-bit little-endian integer at `s[i..i + 2]`.
pub open spec fn le16(s: Seq<u8>, i: int) -> int {
    s[i] as int + s[i + 1] as int * 256
}

/// The unsigned 32-bit little-endian integer at `s[i..i + 4]`.
pub open spec fn le32(s: Seq<u8>, i: int) -> int {
    le16(s, i) + le16(s, i + 2) * 65536
}

/// The unsigned 64-bit little-endian integer at `s[i..i + 8]`.
pub open spec fn le64(s: Seq<u8>, i: int) -> int {
    le32(s, i) + le32(s, i + 4) * 4294967296
}

/// The four little-endian bytes of `v`.
pub open spec fn le32_bytes(v: u32) -> Seq<u8> {
    seq![
        (v % 256) as u8,
        ((v / 256) % 256) as u8,
        ((v / 65536) % 256) as u8,
        ((v / 16777216) % 256) as u8,
    ]
}

/// The eight little-endian bytes of `v`.
pub open spec fn le64_bytes(v: u64) -> Seq<u8> {
    le32_bytes((v % 4294967296) as u32) + le32_bytes((v / 4294967296) as u32)
}

/// The four big-endian bytes of `v`.
pub open spec fn be32_bytes(v: u32) -> Seq<u8> {
    seq![
        ((v / 16777216) % 256) as u8,
        ((v / 65536) % 256) as u8,
        ((v / 256) % 256) as u8,
        (v % 256) as u8,
    ]
}

/// `s` with the bytes from `i` on replaced by `w`.
pub open spec fn patched(s: Seq<u8>, i: int, w: Seq<u8>) -> Seq<u8> {
    s.subrange(0, i) + w + s.subrange(i + w.len(), s.len() as int)
}

/// Reads the little-endian `u16` at `i`.
pub fn read_u16(b: &[u8], i: usize) -> (r: u16)
    requires
        i + 2 <= b@.len(),
    ensures
        r as int == le16(b@, i as int),
{
    let _n = b.len(); // the length fits in usize
    b[i] as u16 + (b[i + 1] as u16) * 256
}

/// Reads the little-endian `u32` at `i`.
pub fn read_u32(b: &[u8], i: usize) -> (r: u32)
    requires
        i + 4 <= b@.len(),
    ensures
        r as int == le32(b@, i as int),
{
    let _n = b.len(); // the length fits in usize
    read_u16(b, i) as u32 + (read_u16(b, i + 2) as u32) * 65536
}

/// Reads the little-endian `u64` at `i`.
pub fn read_u64(b: &[u8], i: usize) -> (r: u64)
    requires
        i + 8 <= b@.len(),
    ensures
        r as int == le64(b@, i as int),
{
    let _n = b.len(); // the length fits in usize
    read_u32(b, i) as u64 + (read_u32(b, i + 4) as u64) * 4294967296
}

/// Appends the big-endian bytes of `v`.
pub fn push_be32(out: &mut Vec<u8>, v: u32)
    ensures
        final(out)@ == old(out)@ + be32_bytes(v),
{
    out.push(((v / 16777216) % 256) as u8);
    out.push(((v / 65536) % 256) as u8);
    out.push(((v / 256) % 256) as u8);
    out.push((v % 256) as u8);
    assert(final(out)@ =~= old(out)@ + be32_bytes(v));
}

/// Overwrites four bytes at `i` with the little-endian bytes of `v`.
pub fn patch_le32(buf: &mut Vec<u8>, i: usize, v: u32)
    requires
        i + 4 <= old(buf)@.len(),
    ensures
        final(buf)@ == patched(old(buf)@, i as int, le32_bytes(v)),
{
    let _n = buf.len(); // the length fits in usize
    buf[i] = (v % 256) as u8;
    buf[i + 1] = ((v / 256) % 256) as u8;
    buf[i + 2] = ((v / 65536) % 256) as u8;
    buf[i + 3] = ((v / 16777216) % 256) as u8;
    assert(final(buf)@ =~= patched(old(buf)@, i as int, le32_bytes(v)));
}

/// Overwrites eight bytes at `i` with the little-endian bytes of `v`.
pub fn patch_le64(buf: &mut Vec<u8>, i: usize, v: u64)
    requires
        i + 8 <= old(buf)@.len(),
    ensures
        final(buf)@ == patched(old(buf)@, i as int, le64_bytes(v)),
{
    let _n = buf.len(); // the length fits in usize
    patch_le32(buf, i, (v % 4294967296) as u32);
    patch_le32(buf, i + 4, (v / 4294967296) as u32);
    assert(final(buf)@ =~= patched(old(buf)@, i as int, le64_bytes(v)));
}


/// Appends `s[from..to]`.
pub fn push_range(out: &mut Vec<u8>, s: &[u8], from: usize, to: usize)
    requires
        from <= to <= s@.len(),
    ensures
        final(out)@ == old(out)@ + s@.subrange(from as int, to as int),
{
    let mut i: usize = from;
    while i < to
        invariant
            from <= i <= to <= s@.len(),
            out@ == old(out)@ + s@.subrange(from as int, i as int),
        decreases to - i,
    {
        out.push(s[i]);
        i = i + 1;
        assert(out@ =~= old(out)@ + s@.subrange(from as int, i as int));
    }
}

/// A fresh buffer holding the bytes of `s`.
pub fn copy_bytes(s: &[u8]) -> (r: Vec<u8>)
    ensures
        r@ == s@,
{
    let mut r: Vec<u8> = Vec::new();
    push_range(&mut r, s, 0, s.len());
    assert(r@ =~= s@);
    r
}


/// Reading back four written bytes gives the value written.
pub proof fn lemma_le32_bytes(v: u32)
    ensures
        le32(le32_bytes(v), 0) == v,
{
    let b = le32_bytes(v);
    assert(b[0] as int == v % 256);
    assert(b[1] as int == (v / 256) % 256);
    assert(b[2] as int == (v / 65536) % 256);
    assert(b[3] as int == (v / 16777216) % 256);
    assert(v as int == v % 256 + 256 * ((v / 256) % 256) + 65536 * ((v / 65536) % 256) + 16777216 * ((v
        / 16777216) % 256));
}

/// A patch leaves the four bytes at `j` alone when they lie outside it,
/// and a patch of four written bytes reads back as the value written.
pub proof fn lemma_le32_patched(s: Seq<u8>, i: int, w: Seq<u8>, j: int)
    requires
        0 <= i,
        i + w.len() <= s.len(),
        0 <= j,
        j + 4 <= s.len(),
    ensures
        (j + 4 <= i || i + w.len() <= j) ==> le32(patched(s, i, w), j) == le32(s, j),
        forall|v: u32| w == le32_bytes(v) && j == i ==> le32(patched(s, i, w), j) == v,
{
    let t = patched(s, i, w);
    assert(t.len() == s.len());
    if j + 4 <= i || i + w.len() <= j {
        assert(t[j] == s[j] && t[j + 1] == s[j + 1] && t[j + 2] == s[j + 2] && t[j + 3] == s[j + 3]);
    }
    assert forall|v: u32| w == le32_bytes(v) && j == i implies le32(patched(s, i, w), j) == v by {
        lemma_le32_bytes(v);
        assert(t[j] == w[0] && t[j + 1] == w[1] && t[j + 2] == w[2] && t[j + 3] == w[3]);
    }
}

} // verus!
