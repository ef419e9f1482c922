//! The two hash capabilities the tree is built against.
//!
//! The tree never fixes a concrete hash construction. It consumes exactly two
//! interfaces: one that digests a single application-defined leaf, and one
//! that combines two digests into a parent digest and supplies the canonical
//! digest of a wholly vacant subtree. Any deterministic, collision-resistant
//! construction can stand behind them; [`crate::mix`] ships a lightweight
//! reference pair.

use vstd::prelude::*;

use crate::digest::Digest;

verus! {

/// Digests one application-defined leaf value.
///
/// An implementation is a pure function of the hasher's own configuration and
/// the leaf: `spec_hash` names that function, and `hash` must return exactly
/// it. Nothing else is assumed; collision resistance is the implementation's
/// own, unstated burden.
pub trait LeafHash: Sized {
    /// The application-defined leaf type this hasher accepts.
    type Leaf;

    /// The mathematical function the hasher computes.
    spec fn spec_hash(self, leaf: Self::Leaf) -> Digest;

    /// Returns the digest of one leaf.
    fn hash(&self, leaf: &Self::Leaf) -> (digest: Digest)
        ensures
            digest == self.spec_hash(*leaf),
    ;

    /// Returns a hasher equal to this one, so that a tree built from a
    /// borrowed hasher can own its own copy.
    fn duplicate(&self) -> (copy: Self)
        ensures
            copy == *self,
    ;
}

/// Combines two digests into a parent digest, and supplies the canonical
/// digest of an empty subtree.
///
/// `combine` is order-sensitive: the left and right inputs play different
/// roles, which is what lets a membership proof pin the position of a leaf.
/// `hash_empty` is one fixed constant per hasher instance, reused at every
/// padding level.
pub trait PathHash: Sized {
    /// The mathematical function `combine` computes.
    spec fn spec_combine(self, left: Digest, right: Digest) -> Digest;

    /// The constant `hash_empty` returns.
    spec fn spec_empty(self) -> Digest;

    /// Returns the parent digest of an ordered pair of child digests.
    fn combine(&self, left: &Digest, right: &Digest) -> (digest: Digest)
        ensures
            digest == self.spec_combine(*left, *right),
    ;

    /// Returns the canonical digest of a wholly vacant subtree.
    fn hash_empty(&self) -> (digest: Digest)
        ensures
            digest == self.spec_empty(),
    ;

    /// Returns a hasher equal to this one, so that a tree built from a
    /// borrowed hasher can own its own copy.
    fn duplicate(&self) -> (copy: Self)
        ensures
            copy == *self,
    ;
}

} // verus!
