use vstd::prelude::*;

verus! {

/// The integer mixing function that places values in the codec's lookup table.
pub open spec fn spec_hash32(a: u32) -> u32 {
    let a1 = (a ^ 61u32) ^ (a >> 16u32);
    let a2 = a1.wrapping_add(a1 << 3u32);
    let a3 = a2 ^ (a2 >> 4u32);
    let a4 = a3.wrapping_mul(0x27d4eb2du32);
    a4 ^ (a4 >> 15u32)
}

/// Mixes the bits of a 32-bit integer (Bob Jenkins' integer hash).
pub fn hash32(a: u32) -> (r: u32)
    ensures
        r == spec_hash32(a),
{
    let mut a = a;
    a = (a ^ 61) ^ (a >> 16);
    a = a.wrapping_add(a << 3);
    a = a ^ (a >> 4);
    a = a.wrapping_mul(0x27d4eb2d);
    a = a ^ (a >> 15);
    a
}

} // verus!
