//! Little-endian encoding of integers into byte sequences.
use vstd::prelude::*;

verus! {

pub open spec fn u16_le(x: u16) -> Seq<u8> {
    seq![(x & 0xff) as u8, (x >> 8u16) as u8]
}

pub open spec fn u32_le(x: u32) -> Seq<u8> {
    seq![(x & 0xff) as u8, ((x >> 8u32) & 0xff) as u8, ((x >> 16u32) & 0xff) as u8, (x >> 24u32) as u8]
}

/// The `u16` stored little-endian at `b[j..j + 2]`.
pub open spec fn get_u16(b: Seq<u8>, j: int) -> u16 {
    (b[j] as u16) | ((b[j + 1] as u16) << 8u16)
}

/// The `u32` stored little-endian at `b[j..j + 4]`.
pub open spec fn get_u32(b: Seq<u8>, j: int) -> u32 {
    (b[j] as u32) | ((b[j + 1] as u32) << 8u32) | ((b[j + 2] as u32) << 16u32) | ((b[j + 3] as u32)
        << 24u32)
}

pub proof fn lemma_u16_round_trip(x: u16)
    ensures
        get_u16(u16_le(x), 0) == x,
{
    let b0 = (x & 0xff) as u8;
    let b1 = (x >> 8u16) as u8;
    assert((((x & 0xff) as u8) as u16) | ((((x >> 8u16) as u8) as u16) << 8u16) == x)
        by (bit_vector);
    assert(u16_le(x)[0] == b0 && u16_le(x)[1] == b1);
}

pub proof fn lemma_u32_round_trip(x: u32)
    ensures
        get_u32(u32_le(x), 0) == x,
{
    assert((((x & 0xff) as u8) as u32) | ((((x >> 8u32) & 0xff) as u8 as u32) << 8u32) | ((((x
        >> 16u32) & 0xff) as u8 as u32) << 16u32) | ((((x >> 24u32) as u8) as u32) << 24u32) == x)
        by (bit_vector);
    let s = u32_le(x);
    assert(s[0] == (x & 0xff) as u8 && s[1] == ((x >> 8u32) & 0xff) as u8 && s[2] == ((x >> 16u32)
        & 0xff) as u8 && s[3] == (x >> 24u32) as u8);
}

/// Reading a field back where its encoding sits inside a larger sequence.
pub proof fn lemma_get_u16_at(b: Seq<u8>, j: int, x: u16)
    requires
        0 <= j,
        j + 2 <= b.len(),
        b.subrange(j, j + 2) == u16_le(x),
    ensures
        get_u16(b, j) == x,
{
    lemma_u16_round_trip(x);
    assert(b[j] == b.subrange(j, j + 2)[0] && b[j + 1] == b.subrange(j, j + 2)[1]);
}

pub proof fn lemma_get_u32_at(b: Seq<u8>, j: int, x: u32)
    requires
        0 <= j,
        j + 4 <= b.len(),
        b.subrange(j, j + 4) == u32_le(x),
    ensures
        get_u32(b, j) == x,
{
    lemma_u32_round_trip(x);
    let s = b.subrange(j, j + 4);
    assert(b[j] == s[0] && b[j + 1] == s[1] && b[j + 2] == s[2] && b[j + 3] == s[3]);
}

/// Appends `x` little-endian.
pub fn push_u16(v: &mut Vec<u8>, x: u16)
    ensures
        final(v)@ == old(v)@ + u16_le(x),
{
    v.push((x & 0xff) as u8);
    v.push((x >> 8) as u8);
    assert(final(v)@ =~= old(v)@ + u16_le(x));
}

/// Appends `x` little-endian.
pub fn push_u32(v: &mut Vec<u8>, x: u32)
    ensures
        final(v)@ == old(v)@ + u32_le(x),
{
    v.push((x & 0xff) as u8);
    v.push(((x >> 8) & 0xff) as u8);
    v.push(((x >> 16) & 0xff) as u8);
    v.push((x >> 24) as u8);
    assert(final(v)@ =~= old(v)@ + u32_le(x));
}

/// Reads the `u16` stored little-endian at `b[j..j + 2]`.
pub fn read_u16(b: &[u8], j: usize) -> (r: u16)
    requires
        j + 2 <= b@.len(),
    ensures
        r == get_u16(b@, j as int),
{
    (b[j] as u16) | ((b[j + 1] as u16) << 8)
}

/// Reads the `u32` stored little-endian at `b[j..j + 4]`.
pub fn read_u32(b: &[u8], j: usize) -> (r: u32)
    requires
        j + 4 <= b@.len(),
    ensures
        r == get_u32(b@, j as int),
{
    (b[j] as u32) | ((b[j + 1] as u32) << 8) | ((b[j + 2] as u32) << 16) | ((b[j + 3] as u32) << 24)
}

/// The `u64` stored little-endian at `b[j..j + 8]`.
pub open spec fn get_u64(b: Seq<u8>, j: int) -> u64 {
    (get_u32(b, j) as u64) | ((get_u32(b, j + 4) as u64) << 32u64)
}

/// Appends `x` little-endian.
pub fn push_u64(v: &mut Vec<u8>, x: u64)
    ensures
        final(v)@.len() == old(v)@.len() + 8,
        final(v)@.take(old(v)@.len() as int) == old(v)@,
        get_u64(final(v)@, old(v)@.len() as int) == x,
{
    let lo = (x & 0xffff_ffff) as u32;
    let hi = (x >> 32) as u32;
    let ghost o = v@;
    push_u32(v, lo);
    push_u32(v, hi);
    proof {
        let n = o.len() as int;
        assert(v@.subrange(n, n + 4) =~= u32_le(lo));
        assert(v@.subrange(n + 4, n + 8) =~= u32_le(hi));
        lemma_get_u32_at(v@, n, lo);
        lemma_get_u32_at(v@, n + 4, hi);
        assert(((x & 0xffff_ffff) as u32 as u64) | (((x >> 32u64) as u32 as u64) << 32u64) == x)
            by (bit_vector);
        assert(v@.take(n) =~= o);
    }
}

/// Reads the `u64` stored little-endian at `b[j..j + 8]`.
pub fn read_u64(b: &[u8], j: usize) -> (r: u64)
    requires
        j + 8 <= b@.len(),
    ensures
        r == get_u64(b@, j as int),
{
    let n = b.len();
    let lo = read_u32(b, j);
    let hi = read_u32(b, j + 4);
    (lo as u64) | ((hi as u64) << 32)
}

/// A `u64` inside a kept prefix reads the same.
pub proof fn lemma_u64_kept(f: Seq<u8>, a: Seq<u8>, k: int)
    requires
        a.len() <= f.len(),
        f.take(a.len() as int) == a,
        0 <= k,
        k + 8 <= a.len(),
    ensures
        get_u64(f, k) == get_u64(a, k),
{
    assert forall|t: int| 0 <= t < 8 implies #[trigger] f[k + t] == a[k + t] by {
        assert(f.take(a.len() as int)[k + t] == f[k + t]);
    }
    assert(f[k] == a[k] && f[k + 1] == a[k + 1] && f[k + 2] == a[k + 2] && f[k + 3] == a[k + 3]);
    assert(f[k + 4] == a[k + 4] && f[k + 5] == a[k + 5] && f[k + 6] == a[k + 6] && f[k + 7] == a[k + 7]);
}

} // verus!
