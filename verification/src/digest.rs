//! The unit of stored data: a fixed-size, equality-comparable digest.

use vstd::prelude::*;

verus! {

/// An opaque, fixed-size hash value. The tree performs no arithmetic on a
/// digest; it only stores, copies and compares them, and hands pairs of them
/// to a [`crate::hash::PathHash`] to be combined.
#[derive(Clone, Copy, PartialEq, Eq, Structural, Debug)]
pub struct Digest {
    /// The raw value of the digest.
    pub value: u64,
}

impl Digest {
    /// Wraps a raw value as a digest.
    pub fn new(value: u64) -> (digest: Digest)
        ensures
            digest.value == value,
    {
        Digest { value }
    }
}

} // verus!
