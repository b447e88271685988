use vstd::prelude::*;
use vstd::string::StringSliceAdditionalSpecFns;

verus! {

/// Seed of the name hash.
pub const HASH_SEED: u32 = 3581;

/// One step of the name hash: multiply by 33 (mod 2^32), then xor the byte.
pub open spec fn hash_step(h: u32, b: u8) -> u32 {
    (((h as int * 33) % 0x1_0000_0000) as u32) ^ (b as u32)
}

/// The DJB2 xor hash of a byte string, folded from the left.
pub open spec fn hash_bytes(s: Seq<u8>) -> u32
    decreases s.len(),
{
    if s.len() == 0 {
        HASH_SEED
    } else {
        hash_step(hash_bytes(s.drop_last()), s.last())
    }
}

/// Hashes a name: DJB2 xor variant over the UTF-8 bytes of `s`.
pub fn hash(s: &str) -> (r: u32)
    ensures
        r == hash_bytes(s.spec_bytes()),
{
    let b = s.as_bytes();
    let mut result: u32 = HASH_SEED;
    let mut i: usize = 0;
    while i < b.len()
        invariant
            i <= b@.len(),
            b@ == s.spec_bytes(),
            result == hash_bytes(b@.subrange(0, i as int)),
        decreases b@.len() - i,
    {
        assert(b@.subrange(0, i + 1).drop_last() =~= b@.subrange(0, i as int));
        result = result.wrapping_mul(33) ^ (b[i] as u32);
        i += 1;
    }
    assert(b@.subrange(0, i as int) =~= b@);
    result
}

} // verus!
