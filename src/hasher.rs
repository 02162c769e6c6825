use vstd::prelude::*;

verus! {

/// A stateless hash strategy for keys of type `T`.
///
/// `spec_hash` is the hash as a pure function of the key; `hash` computes it.
/// A table relies on nothing else: the same key always hashes the same way.
pub trait CHasher<T> {
    spec fn spec_hash(t: T) -> usize;

    fn hash(t: &T) -> (r: usize)
        ensures
            r == Self::spec_hash(*t),
    ;
}

/// A multiplicative hash for `u32` keys: the key times 1000000007, modulo 2^32.
pub struct CHasherU32Impl {}

impl CHasher<u32> for CHasherU32Impl {
    open spec fn spec_hash(t: u32) -> usize {
        ((t as nat * 1000000007nat) % 0x1_0000_0000nat) as usize
    }

    fn hash(t: &u32) -> (r: usize) {
        let x: u64 = *t as u64;
        assert(x * 1000000007 <= 0xffff_ffff * 1000000007) by (nonlinear_arith)
            requires
                x <= 0xffff_ffff,
        ;
        (x * 1000000007u64 % 0x1_0000_0000u64) as usize
    }
}

} // verus!
