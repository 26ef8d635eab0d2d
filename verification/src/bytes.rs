//! Little-endian byte readers and writers, the ground the wire codec
//! stands on.

use vstd::prelude::*;

verus! {

/// The 16-bit little-endian integer at `i`.
pub open spec fn u16_at(s: Seq<u8>, i: int) -> int {
    s[i] + 0x100 * s[i + 1]
}

/// The 32-bit little-endian integer at `i`.
pub open spec fn u32_at(s: Seq<u8>, i: int) -> int {
    s[i] + 0x100 * s[i + 1] + 0x1_0000 * s[i + 2] + 0x100_0000 * s[i + 3]
}

/// The 64-bit little-endian integer at `i`.
pub open spec fn u64_at(s: Seq<u8>, i: int) -> int {
    u32_at(s, i) + 0x1_0000_0000 * u32_at(s, i + 4)
}

/// The two little-endian bytes of a 16-bit integer.
pub open spec fn enc16(x: u16) -> Seq<u8> {
    seq![(x & 0xff) as u8, ((x >> 8) & 0xff) as u8]
}

/// The four little-endian bytes of a 32-bit integer.
pub open spec fn enc32(x: u32) -> Seq<u8> {
    seq![
        (x & 0xff) as u8,
        ((x >> 8) & 0xff) as u8,
        ((x >> 16) & 0xff) as u8,
        ((x >> 24) & 0xff) as u8,
    ]
}

/// The eight little-endian bytes of a 64-bit integer.
pub open spec fn enc64(x: u64) -> Seq<u8> {
    enc32((x & 0xffff_ffff) as u32) + enc32(((x >> 32) & 0xffff_ffff) as u32)
}

/// Reading back two written bytes gives the written value.
pub proof fn lemma_enc16_at(x: u16, s: Seq<u8>, i: int)
    requires
        0 <= i,
        i + 2 <= s.len(),
        s.subrange(i, i + 2) == enc16(x),
    ensures
        u16_at(s, i) == x,
{
    assert(s.subrange(i, i + 2)[0] == s[i]);
    assert(s.subrange(i, i + 2)[1] == s[i + 1]);
    assert(s[i] == enc16(x)[0]);
    assert(s[i + 1] == enc16(x)[1]);
    assert(x & 0xff < 0x100) by (bit_vector);
    assert((x >> 8) & 0xff < 0x100) by (bit_vector);
    assert((x & 0xff) + 0x100 * ((x >> 8) & 0xff) == x) by (bit_vector);
}

/// Reading back four written bytes gives the written value.
pub proof fn lemma_enc32_at(x: u32, s: Seq<u8>, i: int)
    requires
        0 <= i,
        i + 4 <= s.len(),
        s.subrange(i, i + 4) == enc32(x),
    ensures
        u32_at(s, i) == x,
{
    assert(s.subrange(i, i + 4)[0] == s[i]);
    assert(s.subrange(i, i + 4)[1] == s[i + 1]);
    assert(s.subrange(i, i + 4)[2] == s[i + 2]);
    assert(s.subrange(i, i + 4)[3] == s[i + 3]);
    assert(s[i] == enc32(x)[0]);
    assert(s[i + 1] == enc32(x)[1]);
    assert(s[i + 2] == enc32(x)[2]);
    assert(s[i + 3] == enc32(x)[3]);
    assert(x & 0xff < 0x100) by (bit_vector);
    assert((x >> 8) & 0xff < 0x100) by (bit_vector);
    assert((x >> 16) & 0xff < 0x100) by (bit_vector);
    assert((x >> 24) & 0xff < 0x100) by (bit_vector);
    assert((x & 0xff) + 0x100 * ((x >> 8) & 0xff) + 0x1_0000 * ((x >> 16) & 0xff) + 0x100_0000 * ((x
        >> 24) & 0xff) == x) by (bit_vector);
}

/// Reading back eight written bytes gives the written value.
pub proof fn lemma_enc64_at(x: u64, s: Seq<u8>, i: int)
    requires
        0 <= i,
        i + 8 <= s.len(),
        s.subrange(i, i + 8) == enc64(x),
    ensures
        u64_at(s, i) == x,
{
    let lo = (x & 0xffff_ffff) as u32;
    let hi = ((x >> 32) & 0xffff_ffff) as u32;
    assert forall|k: int| 0 <= k < 8 implies s[i + k] == enc64(x)[k] by {
        assert(s.subrange(i, i + 8)[k] == s[i + k]);
    }
    assert(enc32(lo).len() == 4);
    assert(enc32(hi).len() == 4);
    assert forall|m: int| 0 <= m < 4 implies enc64(x)[4 + m] == enc32(hi)[m] by {
        assert((enc32(lo) + enc32(hi))[4 + m] == enc32(hi)[m]);
    }
    assert(s.subrange(i, i + 4) =~= enc32(lo));
    assert(s.subrange(i + 4, i + 8) =~= enc32(hi));
    lemma_enc32_at(lo, s, i);
    lemma_enc32_at(hi, s, i + 4);
    assert(x & 0xffff_ffff < 0x1_0000_0000) by (bit_vector);
    assert((x >> 32) & 0xffff_ffff < 0x1_0000_0000) by (bit_vector);
    assert((x & 0xffff_ffff) + 0x1_0000_0000 * ((x >> 32) & 0xffff_ffff) == x) by (bit_vector);
}

/// Reads the 16-bit little-endian integer at `i`.
pub fn read_u16(buf: &Vec<u8>, i: usize) -> (r: u16)
    requires
        i + 2 <= buf.len(),
    ensures
        r == u16_at(buf@, i as int),
{
    let b0 = buf[i] as u16;
    let b1 = buf[i + 1] as u16;
    proof {
        assert(b0 | (b1 << 8) == b0 + 0x100 * b1) by (bit_vector)
            requires
                b0 < 0x100,
                b1 < 0x100,
        ;
    }
    b0 | (b1 << 8)
}

/// Reads the 32-bit little-endian integer at `i`.
pub fn read_u32(buf: &Vec<u8>, i: usize) -> (r: u32)
    requires
        i + 4 <= buf.len(),
    ensures
        r == u32_at(buf@, i as int),
{
    let b0 = buf[i] as u32;
    let b1 = buf[i + 1] as u32;
    let b2 = buf[i + 2] as u32;
    let b3 = buf[i + 3] as u32;
    proof {
        assert(b0 | (b1 << 8) | (b2 << 16) | (b3 << 24) == b0 + 0x100 * b1 + 0x1_0000 * b2
            + 0x100_0000 * b3) by (bit_vector)
            requires
                b0 < 0x100,
                b1 < 0x100,
                b2 < 0x100,
                b3 < 0x100,
        ;
    }
    b0 | (b1 << 8) | (b2 << 16) | (b3 << 24)
}

/// Reads the 64-bit little-endian integer at `i`.
pub fn read_u64(buf: &Vec<u8>, i: usize) -> (r: u64)
    requires
        i + 8 <= buf.len(),
    ensures
        r == u64_at(buf@, i as int),
{
    let lo = read_u32(buf, i) as u64;
    let hi = read_u32(buf, i + 4) as u64;
    proof {
        assert(lo | (hi << 32) == lo + 0x1_0000_0000 * hi) by (bit_vector)
            requires
                lo < 0x1_0000_0000,
                hi < 0x1_0000_0000,
        ;
    }
    lo | (hi << 32)
}

/// Appends the two little-endian bytes of a 16-bit integer.
pub fn push_u16(buf: &mut Vec<u8>, x: u16)
    ensures
        final(buf)@ == old(buf)@ + enc16(x),
{
    buf.push((x & 0xff) as u8);
    buf.push(((x >> 8) & 0xff) as u8);
    proof {
        assert(final(buf)@ =~= old(buf)@ + enc16(x));
    }
}

/// Appends the four little-endian bytes of a 32-bit integer.
pub fn push_u32(buf: &mut Vec<u8>, x: u32)
    ensures
        final(buf)@ == old(buf)@ + enc32(x),
{
    buf.push((x & 0xff) as u8);
    buf.push(((x >> 8) & 0xff) as u8);
    buf.push(((x >> 16) & 0xff) as u8);
    buf.push(((x >> 24) & 0xff) as u8);
    proof {
        assert(final(buf)@ =~= old(buf)@ + enc32(x));
    }
}

/// Appends the eight little-endian bytes of a 64-bit integer.
pub fn push_u64(buf: &mut Vec<u8>, x: u64)
    ensures
        final(buf)@ == old(buf)@ + enc64(x),
{
    push_u32(buf, (x & 0xffff_ffff) as u32);
    push_u32(buf, ((x >> 32) & 0xffff_ffff) as u32);
    proof {
        assert(final(buf)@ =~= old(buf)@ + enc64(x));
    }
}

/// Appends a run of bytes.
pub fn push_bytes(buf: &mut Vec<u8>, bytes: &Vec<u8>)
    ensures
        final(buf)@ == old(buf)@ + bytes@,
{
    let mut i: usize = 0;
    while i < bytes.len()
        invariant
            i <= bytes@.len(),
            buf@ == old(buf)@ + bytes@.take(i as int),
        decreases bytes@.len() - i,
    {
        buf.push(bytes[i]);
        proof {
            assert(buf@ =~= old(buf)@ + bytes@.take(i + 1));
        }
        i += 1;
    }
    proof {
        assert(old(buf)@ + bytes@.take(bytes@.len() as int) =~= old(buf)@ + bytes@);
    }
}

/// Copies the byte range `[a, b)`.
pub fn copy_range(buf: &Vec<u8>, a: usize, b: usize) -> (r: Vec<u8>)
    requires
        a <= b <= buf@.len(),
    ensures
        r@ == buf@.subrange(a as int, b as int),
{
    let mut r: Vec<u8> = Vec::new();
    let mut i: usize = a;
    while i < b
        invariant
            a <= i <= b <= buf@.len(),
            r@ == buf@.subrange(a as int, i as int),
        decreases b - i,
    {
        r.push(buf[i]);
        proof {
            assert(r@ =~= buf@.subrange(a as int, i + 1));
        }
        i += 1;
    }
    r
}

} // verus!
