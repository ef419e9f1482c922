//! A lightweight reference pair of hash capabilities.
//!
//! These hashers exist so the tree can be exercised end to end without fixing
//! a heavyweight cryptographic construction: they mix their inputs with a few
//! fixed multipliers modulo 2^64. They are deterministic and order-sensitive,
//! which is all the tree's logic relies on, but they are *not* collision
//! resistant; a deployment that needs a binding commitment supplies its own
//! [`LeafHash`]/[`PathHash`] pair.

use vstd::prelude::*;

use crate::digest::Digest;
use crate::hash::{LeafHash, PathHash};

verus! {

/// Multiplier for the first mixing input.
pub const MIX_A: u64 = 0x100000001b3;
/// Multiplier for the second mixing input.
pub const MIX_B: u64 = 0x85ebca6b;
/// Multiplier for the third mixing input.
pub const MIX_C: u64 = 0x1b873593;
/// Additive offset folded into every mix.
pub const MIX_D: u64 = 0x27d4eb2f165667c5;

/// The mixing function both hashers are built from: a fixed linear
/// combination of the three inputs, truncated to 64 bits.
pub open spec fn mix(a: u64, b: u64, c: u64) -> u64 {
    (((a as int) * (MIX_A as int) + (b as int) * (MIX_B as int) + (c as int) * (MIX_C as int)
        + (MIX_D as int)) % 0x10000000000000000) as u64
}

/// Computes [`mix`] exactly, using 128-bit intermediates so that no product
/// overflows before the final truncation.
fn mix_exec(a: u64, b: u64, c: u64) -> (mixed: u64)
    ensures
        mixed == mix(a, b, c),
{
    proof {
        vstd::arithmetic::mul::lemma_mul_upper_bound(a as int, u64::MAX as int, MIX_A as int, MIX_A as int);
        vstd::arithmetic::mul::lemma_mul_upper_bound(b as int, u64::MAX as int, MIX_B as int, MIX_B as int);
        vstd::arithmetic::mul::lemma_mul_upper_bound(c as int, u64::MAX as int, MIX_C as int, MIX_C as int);
    }
    let total: u128 = (a as u128) * (MIX_A as u128) + (b as u128) * (MIX_B as u128) + (c as u128)
        * (MIX_C as u128) + (MIX_D as u128);
    (total % 0x10000000000000000u128) as u64
}

/// Digests a `u64` leaf by mixing it with the hasher's domain separator.
#[derive(Clone, Copy, PartialEq, Eq, Structural, Debug)]
pub struct MixLeafHasher {
    /// The domain separator this hasher was configured with.
    pub domain: u64,
}

impl MixLeafHasher {
    /// Configures a leaf hasher for the given domain.
    pub fn setup(domain: u64) -> (hasher: MixLeafHasher)
        ensures
            hasher.domain == domain,
    {
        MixLeafHasher { domain }
    }
}

impl LeafHash for MixLeafHasher {
    type Leaf = u64;

    open spec fn spec_hash(self, leaf: u64) -> Digest {
        Digest { value: mix(leaf, self.domain, 1) }
    }

    fn hash(&self, leaf: &u64) -> (digest: Digest)
        ensures
            digest == self.spec_hash(*leaf),
    {
        Digest { value: mix_exec(*leaf, self.domain, 1) }
    }

    fn duplicate(&self) -> (copy: Self)
        ensures
            copy == *self,
    {
        MixLeafHasher { domain: self.domain }
    }
}

/// Combines two digests by mixing them, in order, with the hasher's domain
/// separator; the two child positions take different multipliers, so left and
/// right inputs are not interchangeable.
#[derive(Clone, Copy, PartialEq, Eq, Structural, Debug)]
pub struct MixPathHasher {
    /// The domain separator this hasher was configured with.
    pub domain: u64,
}

impl MixPathHasher {
    /// Configures a path hasher for the given domain.
    pub fn setup(domain: u64) -> (hasher: MixPathHasher)
        ensures
            hasher.domain == domain,
    {
        MixPathHasher { domain }
    }
}

impl PathHash for MixPathHasher {
    open spec fn spec_combine(self, left: Digest, right: Digest) -> Digest {
        Digest { value: mix(left.value, right.value, self.domain) }
    }

    open spec fn spec_empty(self) -> Digest {
        Digest { value: mix(self.domain, 0, 0) }
    }

    fn combine(&self, left: &Digest, right: &Digest) -> (digest: Digest)
        ensures
            digest == self.spec_combine(*left, *right),
    {
        Digest { value: mix_exec(left.value, right.value, self.domain) }
    }

    fn hash_empty(&self) -> (digest: Digest)
        ensures
            digest == self.spec_empty(),
    {
        Digest { value: mix_exec(self.domain, 0, 0) }
    }

    fn duplicate(&self) -> (copy: Self)
        ensures
            copy == *self,
    {
        MixPathHasher { domain: self.domain }
    }
}

} // verus!
