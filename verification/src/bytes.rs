use vstd::prelude::*;

verus! {

/// Big-endian encoding of a `u32` as four bytes.
pub open spec fn spec_u32_to_be(x: u32) -> Seq<u8> {
    seq![
        (x >> 24) as u8,
        (x >> 16) as u8,
        (x >> 8) as u8,
        x as u8,
    ]
}

/// Big-endian encoding of a `u64` as eight bytes.
pub open spec fn spec_u64_to_be(x: u64) -> Seq<u8> {
    seq![
        (x >> 56) as u8,
        (x >> 48) as u8,
        (x >> 40) as u8,
        (x >> 32) as u8,
        (x >> 24) as u8,
        (x >> 16) as u8,
        (x >> 8) as u8,
        x as u8,
    ]
}

/// The `u32` denoted by four big-endian bytes.
pub open spec fn spec_be_to_u32(s: Seq<u8>) -> u32
    recommends
        s.len() == 4,
{
    (((s[0] as u32) << 24) | ((s[1] as u32) << 16) | ((s[2] as u32) << 8) | (s[3] as u32)) as u32
}

/// The `u64` denoted by eight big-endian bytes.
pub open spec fn spec_be_to_u64(s: Seq<u8>) -> u64
    recommends
        s.len() == 8,
{
    (((s[0] as u64) << 56) | ((s[1] as u64) << 48) | ((s[2] as u64) << 40) | ((s[3] as u64) << 32)
        | ((s[4] as u64) << 24) | ((s[5] as u64) << 16) | ((s[6] as u64) << 8) | (s[7] as u64)) as u64
}

/// Decoding inverts encoding for 32-bit values.
pub proof fn lemma_u32_be_round_trip(x: u32)
    ensures
        spec_be_to_u32(spec_u32_to_be(x)) == x,
{
    let b0 = (x >> 24) as u8;
    let b1 = (x >> 16) as u8;
    let b2 = (x >> 8) as u8;
    let b3 = x as u8;
    assert((((b0 as u32) << 24) | ((b1 as u32) << 16) | ((b2 as u32) << 8) | (b3 as u32)) as u32
        == x) by (bit_vector)
        requires
            b0 == (x >> 24) as u8,
            b1 == (x >> 16) as u8,
            b2 == (x >> 8) as u8,
            b3 == x as u8,
    ;
}

/// Decoding inverts encoding for 64-bit values.
pub proof fn lemma_u64_be_round_trip(x: u64)
    ensures
        spec_be_to_u64(spec_u64_to_be(x)) == x,
{
    let b0 = (x >> 56) as u8;
    let b1 = (x >> 48) as u8;
    let b2 = (x >> 40) as u8;
    let b3 = (x >> 32) as u8;
    let b4 = (x >> 24) as u8;
    let b5 = (x >> 16) as u8;
    let b6 = (x >> 8) as u8;
    let b7 = x as u8;
    assert((((b0 as u64) << 56) | ((b1 as u64) << 48) | ((b2 as u64) << 40) | ((b3 as u64) << 32)
        | ((b4 as u64) << 24) | ((b5 as u64) << 16) | ((b6 as u64) << 8) | (b7 as u64)) as u64
        == x) by (bit_vector)
        requires
            b0 == (x >> 56) as u8,
            b1 == (x >> 48) as u8,
            b2 == (x >> 40) as u8,
            b3 == (x >> 32) as u8,
            b4 == (x >> 24) as u8,
            b5 == (x >> 16) as u8,
            b6 == (x >> 8) as u8,
            b7 == x as u8,
    ;
}

/// Append the big-endian encoding of `x` to `buf`.
pub fn push_u32_be(buf: &mut Vec<u8>, x: u32)
    ensures
        final(buf)@ == old(buf)@ + spec_u32_to_be(x),
{
    buf.push((x >> 24) as u8);
    buf.push((x >> 16) as u8);
    buf.push((x >> 8) as u8);
    buf.push(x as u8);
    assert(buf@ =~= old(buf)@ + spec_u32_to_be(x));
}

/// Append the big-endian encoding of `x` to `buf`.
pub fn push_u64_be(buf: &mut Vec<u8>, x: u64)
    ensures
        final(buf)@ == old(buf)@ + spec_u64_to_be(x),
{
    buf.push((x >> 56) as u8);
    buf.push((x >> 48) as u8);
    buf.push((x >> 40) as u8);
    buf.push((x >> 32) as u8);
    buf.push((x >> 24) as u8);
    buf.push((x >> 16) as u8);
    buf.push((x >> 8) as u8);
    buf.push(x as u8);
    assert(buf@ =~= old(buf)@ + spec_u64_to_be(x));
}

/// Read the big-endian `u32` stored at `pos`.
pub fn read_u32_be(buf: &Vec<u8>, pos: usize) -> (x: u32)
    requires
        pos + 4 <= buf@.len(),
    ensures
        x == spec_be_to_u32(buf@.subrange(pos as int, pos + 4)),
{
    let n = buf.len();
    assert(pos + 4 <= n);
    let x = ((buf[pos] as u32) << 24) | ((buf[pos + 1] as u32) << 16) | ((buf[pos + 2] as u32) << 8)
        | (buf[pos + 3] as u32);
    proof {
        let s = buf@.subrange(pos as int, pos + 4);
        assert(s[0] == buf@[pos as int]);
        assert(s[1] == buf@[pos + 1]);
        assert(s[2] == buf@[pos + 2]);
        assert(s[3] == buf@[pos + 3]);
    }
    x
}

/// Read the big-endian `u64` stored at `pos`.
pub fn read_u64_be(buf: &Vec<u8>, pos: usize) -> (x: u64)
    requires
        pos + 8 <= buf@.len(),
    ensures
        x == spec_be_to_u64(buf@.subrange(pos as int, pos + 8)),
{
    let n = buf.len();
    assert(pos + 8 <= n);
    let x = ((buf[pos] as u64) << 56) | ((buf[pos + 1] as u64) << 48) | ((buf[pos + 2] as u64) << 40)
        | ((buf[pos + 3] as u64) << 32) | ((buf[pos + 4] as u64) << 24) | ((buf[pos + 5] as u64) << 16)
        | ((buf[pos + 6] as u64) << 8) | (buf[pos + 7] as u64);
    proof {
        let s = buf@.subrange(pos as int, pos + 8);
        assert(s[0] == buf@[pos as int]);
        assert(s[1] == buf@[pos + 1]);
        assert(s[2] == buf@[pos + 2]);
        assert(s[3] == buf@[pos + 3]);
        assert(s[4] == buf@[pos + 4]);
        assert(s[5] == buf@[pos + 5]);
        assert(s[6] == buf@[pos + 6]);
        assert(s[7] == buf@[pos + 7]);
    }
    x
}

/// A bytewise copy of `src`.
pub fn clone_bytes(src: &Vec<u8>) -> (v: Vec<u8>)
    ensures
        v@ == src@,
{
    let len = src.len();
    let v = copy_range(src, 0, len);
    assert(v@ =~= src@);
    v
}

/// Append all of `src` to `buf`.
pub fn push_bytes(buf: &mut Vec<u8>, src: &Vec<u8>)
    ensures
        final(buf)@ == old(buf)@ + src@,
{
    buf.extend_from_slice(src.as_slice());
    assert(buf@ =~= old(buf)@ + src@);
}

/// Copy `count` bytes of `buf` starting at `start` into a fresh vector.
pub fn copy_range(buf: &Vec<u8>, start: usize, count: usize) -> (v: Vec<u8>)
    requires
        start + count <= buf@.len(),
    ensures
        v@ == buf@.subrange(start as int, start + count),
{
    let n = buf.len();
    assert(start + count <= n);
    let mut v: Vec<u8> = Vec::new();
    let piece: &[u8] = &buf.as_slice()[start..start + count];
    v.extend_from_slice(piece);
    assert(v@ =~= buf@.subrange(start as int, start + count));
    v
}

} // verus!
