//! 64-bit hashing of byte strings.
//!
//! Items are hashed with 64-bit FNV-1a followed by a multiply–xor–shift
//! finalizer, so that both the bucket-selecting high bits and the
//! rank-determining low bits of the result are well mixed.  The whole
//! computation is stated as a spec function and the executable hash is
//! proved equal to it.

use vstd::prelude::*;

verus! {

/// FNV-1a offset basis.
pub const FNV_OFFSET: u64 = 0xcbf29ce484222325;

/// FNV-1a prime.
pub const FNV_PRIME: u64 = 0x100000001b3;

/// One FNV-1a round: fold a byte into the running hash.
pub open spec fn spec_fnv1a_step(h: u64, b: u8) -> u64 {
    (h ^ (b as u64)).wrapping_mul(FNV_PRIME)
}

/// FNV-1a over a whole byte string, left to right.
pub open spec fn spec_fnv1a(s: Seq<u8>) -> u64
    decreases s.len(),
{
    if s.len() == 0 {
        FNV_OFFSET
    } else {
        spec_fnv1a_step(spec_fnv1a(s.drop_last()), s.last())
    }
}

/// Multiply–xor–shift finalizer applied to the folded FNV-1a value.
pub open spec fn spec_mix64(h: u64) -> u64 {
    let a = h ^ (h >> 33);
    let b = a.wrapping_mul(0xff51afd7ed558ccd);
    let c = b ^ (b >> 33);
    let d = c.wrapping_mul(0xc4ceb9fe1a85ec53);
    d ^ (d >> 33)
}

/// The hash of an item: finalized FNV-1a of its bytes.
pub open spec fn spec_hash64(s: Seq<u8>) -> u64 {
    spec_mix64(spec_fnv1a(s))
}

/// Executable hash, equal to `spec_hash64` on the item's bytes.
pub fn hash64(s: &[u8]) -> (r: u64)
    ensures
        r == spec_hash64(s@),
{
    let mut h: u64 = FNV_OFFSET;
    let mut i: usize = 0;
    while i < s.len()
        invariant
            i <= s@.len(),
            h == spec_fnv1a(s@.subrange(0, i as int)),
        decreases s@.len() - i,
    {
        let b = s[i];
        h = (h ^ (b as u64)).wrapping_mul(FNV_PRIME);
        i = i + 1;
        proof {
            let pre = s@.subrange(0, i as int);
            assert(pre.drop_last() =~= s@.subrange(0, i - 1));
            assert(pre.last() == s@[i - 1]);
        }
    }
    proof {
        assert(s@.subrange(0, s@.len() as int) =~= s@);
    }
    let a = h ^ (h >> 33);
    let b = a.wrapping_mul(0xff51afd7ed558ccd);
    let c = b ^ (b >> 33);
    let d = c.wrapping_mul(0xc4ceb9fe1a85ec53);
    d ^ (d >> 33)
}

} // verus!
