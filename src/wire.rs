//! Big-endian integer layouts used on the wire, and the byte-level helpers
//! that write and read them.
use vstd::prelude::*;

verus! {

/// Big-endian bytes of a 16-bit value.
pub open spec fn be16(n: u16) -> Seq<u8> {
    seq![(n >> 8u16) as u8, (n & 0xff) as u8]
}

/// Big-endian bytes of a 32-bit value.
pub open spec fn be32(n: u32) -> Seq<u8> {
    seq![(n >> 24u32) as u8, ((n >> 16u32) & 0xff) as u8, ((n >> 8u32) & 0xff) as u8, (n & 0xff) as u8]
}

/// Big-endian bytes of the low 24 bits of a value (a tag on the wire).
pub open spec fn be24(n: u32) -> Seq<u8> {
    seq![((n >> 16u32) & 0xff) as u8, ((n >> 8u32) & 0xff) as u8, (n & 0xff) as u8]
}

/// Big-endian bytes of a 64-bit value.
pub open spec fn be64(n: u64) -> Seq<u8> {
    seq![
        (n >> 56u64) as u8,
        ((n >> 48u64) & 0xff) as u8,
        ((n >> 40u64) & 0xff) as u8,
        ((n >> 32u64) & 0xff) as u8,
        ((n >> 24u64) & 0xff) as u8,
        ((n >> 16u64) & 0xff) as u8,
        ((n >> 8u64) & 0xff) as u8,
        (n & 0xff) as u8,
    ]
}

/// The 16-bit value whose big-endian bytes start at `i` in `s`.
pub open spec fn u16_at(s: Seq<u8>, i: int) -> u16 {
    ((s[i] as u16) << 8u16) | (s[i + 1] as u16)
}

/// The 32-bit value whose big-endian bytes start at `i` in `s`.
pub open spec fn u32_at(s: Seq<u8>, i: int) -> u32 {
    ((s[i] as u32) << 24u32) | ((s[i + 1] as u32) << 16u32) | ((s[i + 2] as u32) << 8u32) | (s[i
        + 3] as u32)
}

/// The 24-bit value whose big-endian bytes start at `i` in `s`.
pub open spec fn u24_at(s: Seq<u8>, i: int) -> u32 {
    ((s[i] as u32) << 16u32) | ((s[i + 1] as u32) << 8u32) | (s[i + 2] as u32)
}

/// The 64-bit value whose big-endian bytes start at `i` in `s`.
pub open spec fn u64_at(s: Seq<u8>, i: int) -> u64 {
    ((s[i] as u64) << 56u64) | ((s[i + 1] as u64) << 48u64) | ((s[i + 2] as u64) << 40u64) | ((s[i
        + 3] as u64) << 32u64) | ((s[i + 4] as u64) << 24u64) | ((s[i + 5] as u64) << 16u64) | ((s[i
        + 6] as u64) << 8u64) | (s[i + 7] as u64)
}

/// Reading back the bytes of `be16` gives the value written.
pub proof fn lemma_be16(n: u16, s: Seq<u8>, i: int)
    requires
        0 <= i,
        i + 2 <= s.len(),
        s.subrange(i, i + 2) == be16(n),
    ensures
        u16_at(s, i) == n,
{
    assert(s[i] == be16(n)[0] && s[i + 1] == be16(n)[1]);
    let (a, b) = (s[i], s[i + 1]);
    assert((((a as u16) << 8u16) | (b as u16)) == n) by (bit_vector)
        requires
            a == (n >> 8u16) as u8,
            b == (n & 0xff) as u8,
    ;
}

/// Reading back the bytes of `be32` gives the value written.
pub proof fn lemma_be32(n: u32, s: Seq<u8>, i: int)
    requires
        0 <= i,
        i + 4 <= s.len(),
        s.subrange(i, i + 4) == be32(n),
    ensures
        u32_at(s, i) == n,
{
    assert(s[i] == be32(n)[0] && s[i + 1] == be32(n)[1] && s[i + 2] == be32(n)[2] && s[i + 3]
        == be32(n)[3]);
    let (a, b, c, d) = (s[i], s[i + 1], s[i + 2], s[i + 3]);
    assert((((a as u32) << 24u32) | ((b as u32) << 16u32) | ((c as u32) << 8u32) | (d as u32))
        == n) by (bit_vector)
        requires
            a == (n >> 24u32) as u8,
            b == ((n >> 16u32) & 0xff) as u8,
            c == ((n >> 8u32) & 0xff) as u8,
            d == (n & 0xff) as u8,
    ;
}

/// Reading back the bytes of `be24` gives the low 24 bits of the value
/// written.
pub proof fn lemma_be24(n: u32, s: Seq<u8>, i: int)
    requires
        0 <= i,
        i + 3 <= s.len(),
        s.subrange(i, i + 3) == be24(n),
    ensures
        u24_at(s, i) == n & 0xff_ffff,
{
    assert(s[i] == be24(n)[0] && s[i + 1] == be24(n)[1] && s[i + 2] == be24(n)[2]);
    let (a, b, c) = (s[i], s[i + 1], s[i + 2]);
    assert((((a as u32) << 16u32) | ((b as u32) << 8u32) | (c as u32)) == n & 0xff_ffff)
        by (bit_vector)
        requires
            a == ((n >> 16u32) & 0xff) as u8,
            b == ((n >> 8u32) & 0xff) as u8,
            c == (n & 0xff) as u8,
    ;
}

/// Reading back the bytes of `be64` gives the value written.
pub proof fn lemma_be64(n: u64, s: Seq<u8>, i: int)
    requires
        0 <= i,
        i + 8 <= s.len(),
        s.subrange(i, i + 8) == be64(n),
    ensures
        u64_at(s, i) == n,
{
    let e = be64(n);
    assert(s[i] == e[0] && s[i + 1] == e[1] && s[i + 2] == e[2] && s[i + 3] == e[3] && s[i + 4]
        == e[4] && s[i + 5] == e[5] && s[i + 6] == e[6] && s[i + 7] == e[7]);
    let (a, b, c, d) = (s[i], s[i + 1], s[i + 2], s[i + 3]);
    let (f, g, h, k) = (s[i + 4], s[i + 5], s[i + 6], s[i + 7]);
    assert((((a as u64) << 56u64) | ((b as u64) << 48u64) | ((c as u64) << 40u64) | ((d as u64)
        << 32u64) | ((f as u64) << 24u64) | ((g as u64) << 16u64) | ((h as u64) << 8u64) | (k
        as u64)) == n) by (bit_vector)
        requires
            a == (n >> 56u64) as u8,
            b == ((n >> 48u64) & 0xff) as u8,
            c == ((n >> 40u64) & 0xff) as u8,
            d == ((n >> 32u64) & 0xff) as u8,
            f == ((n >> 24u64) & 0xff) as u8,
            g == ((n >> 16u64) & 0xff) as u8,
            h == ((n >> 8u64) & 0xff) as u8,
            k == (n & 0xff) as u8,
    ;
}

/// Appends the big-endian bytes of `n`.
pub fn put_u16(out: &mut Vec<u8>, n: u16)
    ensures
        final(out)@ == old(out)@ + be16(n),
{
    out.push((n >> 8u16) as u8);
    out.push((n & 0xff) as u8);
}

/// Appends the big-endian bytes of `n`.
pub fn put_u32(out: &mut Vec<u8>, n: u32)
    ensures
        final(out)@ == old(out)@ + be32(n),
{
    out.push((n >> 24u32) as u8);
    out.push(((n >> 16u32) & 0xff) as u8);
    out.push(((n >> 8u32) & 0xff) as u8);
    out.push((n & 0xff) as u8);
}

/// Appends the big-endian bytes of the low 24 bits of `n`.
pub fn put_u24(out: &mut Vec<u8>, n: u32)
    ensures
        final(out)@ == old(out)@ + be24(n),
{
    out.push(((n >> 16u32) & 0xff) as u8);
    out.push(((n >> 8u32) & 0xff) as u8);
    out.push((n & 0xff) as u8);
}

/// Appends the big-endian bytes of `n`.
pub fn put_u64(out: &mut Vec<u8>, n: u64)
    ensures
        final(out)@ == old(out)@ + be64(n),
{
    out.push((n >> 56u64) as u8);
    out.push(((n >> 48u64) & 0xff) as u8);
    out.push(((n >> 40u64) & 0xff) as u8);
    out.push(((n >> 32u64) & 0xff) as u8);
    out.push(((n >> 24u64) & 0xff) as u8);
    out.push(((n >> 16u64) & 0xff) as u8);
    out.push(((n >> 8u64) & 0xff) as u8);
    out.push((n & 0xff) as u8);
}

/// Reads a big-endian 16-bit value at `i`.
pub fn get_u16(s: &[u8], i: usize) -> (r: u16)
    requires
        i + 2 <= s@.len(),
    ensures
        r == u16_at(s@, i as int),
{
    ((s[i] as u16) << 8u16) | (s[i + 1] as u16)
}

/// Reads a big-endian 32-bit value at `i`.
pub fn get_u32(s: &[u8], i: usize) -> (r: u32)
    requires
        i + 4 <= s@.len(),
    ensures
        r == u32_at(s@, i as int),
{
    ((s[i] as u32) << 24u32) | ((s[i + 1] as u32) << 16u32) | ((s[i + 2] as u32) << 8u32) | (s[i
        + 3] as u32)
}

/// Reads a big-endian 24-bit value at `i`.
pub fn get_u24(s: &[u8], i: usize) -> (r: u32)
    requires
        i + 3 <= s@.len(),
    ensures
        r == u24_at(s@, i as int),
{
    ((s[i] as u32) << 16u32) | ((s[i + 1] as u32) << 8u32) | (s[i + 2] as u32)
}

/// Reads a big-endian 64-bit value at `i`.
pub fn get_u64(s: &[u8], i: usize) -> (r: u64)
    requires
        i + 8 <= s@.len(),
    ensures
        r == u64_at(s@, i as int),
{
    ((s[i] as u64) << 56u64) | ((s[i + 1] as u64) << 48u64) | ((s[i + 2] as u64) << 40u64) | ((s[i
        + 3] as u64) << 32u64) | ((s[i + 4] as u64) << 24u64) | ((s[i + 5] as u64) << 16u64) | ((s[i
        + 6] as u64) << 8u64) | (s[i + 7] as u64)
}

/// Appends all of `src` to `out`.
pub fn put_bytes(out: &mut Vec<u8>, src: &[u8])
    ensures
        final(out)@ == old(out)@ + src@,
{
    let ghost start = out@;
    let mut i: usize = 0;
    while i < src.len()
        invariant
            i <= src@.len(),
            out@ == start + src@.subrange(0, i as int),
        decreases src@.len() - i,
    {
        out.push(src[i]);
        i = i + 1;
        assert(src@.subrange(0, i as int) == src@.subrange(0, i - 1) + seq![src@[i - 1]]);
    }
    assert(src@.subrange(0, i as int) == src@);
}

/// A copy of `s[from..to]`.
pub fn copy_range(s: &[u8], from: usize, to: usize) -> (r: Vec<u8>)
    requires
        from <= to <= s@.len(),
    ensures
        r@ == s@.subrange(from as int, to as int),
{
    let mut r: Vec<u8> = Vec::new();
    let mut i: usize = from;
    while i < to
        invariant
            from <= i <= to <= s@.len(),
            r@ == s@.subrange(from as int, i as int),
        decreases to - i,
    {
        r.push(s[i]);
        i = i + 1;
        assert(s@.subrange(from as int, i as int) == s@.subrange(from as int, i - 1) + seq![
            s@[i - 1],
        ]);
    }
    r
}

} // verus!
