//! Membership proofs, and their verification against a claimed root.

use vstd::prelude::*;

use vstd::arithmetic::power2::{lemma2_to64, pow2};

use crate::digest::Digest;
use crate::hash::{LeafHash, PathHash};
use crate::model::lemma_div_pow2_step;

verus! {

/// The digest reached by folding a sibling list over a starting digest, from
/// the leaf level upward: at each level the low bit of the remaining index
/// says whether the running digest is the left or the right input of the
/// combination, and the index then sheds that bit.
pub open spec fn fold_path<PH: PathHash>(
    ph: PH,
    digest: Digest,
    siblings: Seq<Digest>,
    index: nat,
) -> Digest
    decreases siblings.len(),
{
    if siblings.len() == 0 {
        digest
    } else {
        let next = if index % 2 == 0 {
            ph.spec_combine(digest, siblings[0])
        } else {
            ph.spec_combine(siblings[0], digest)
        };
        fold_path(ph, next, siblings.drop_first(), index / 2)
    }
}

/// Folding one more sibling combines the folded digest so far with it, on
/// the side chosen by the corresponding bit of the index.
pub proof fn lemma_fold_path_push<PH: PathHash>(
    ph: PH,
    digest: Digest,
    siblings: Seq<Digest>,
    index: nat,
    sibling: Digest,
)
    ensures
        fold_path(ph, digest, siblings.push(sibling), index) == (if (index / pow2(
            siblings.len() as nat,
        )) % 2 == 0 {
            ph.spec_combine(fold_path(ph, digest, siblings, index), sibling)
        } else {
            ph.spec_combine(sibling, fold_path(ph, digest, siblings, index))
        }),
    decreases siblings.len(),
{
    lemma2_to64();
    reveal_with_fuel(fold_path, 2);
    if siblings.len() == 0 {
        assert(siblings.push(sibling).drop_first() =~= siblings);
        vstd::arithmetic::div_mod::lemma_div_basics(index as int);
        assert(siblings.push(sibling)[siblings.len() as int] == sibling);
    } else {
        let next = if index % 2 == 0 {
            ph.spec_combine(digest, siblings[0])
        } else {
            ph.spec_combine(siblings[0], digest)
        };
        assert(siblings.push(sibling).drop_first() =~= siblings.drop_first().push(sibling));
        lemma_fold_path_push(ph, next, siblings.drop_first(), index / 2, sibling);
        vstd::arithmetic::power2::lemma_pow2_pos((siblings.len() - 1) as nat);
        vstd::arithmetic::div_mod::lemma_div_denominator(
            index as int,
            2,
            pow2((siblings.len() - 1) as nat) as int,
        );
        vstd::arithmetic::power2::lemma_pow2_unfold(siblings.len() as nat);
    }
}

/// A membership proof: the index of the leaf it speaks for, and one sibling
/// digest per level from the leaf up to the declared depth of the tree that
/// produced it.
#[derive(Clone, PartialEq, Eq, Debug)]
pub struct MerkleProof {
    /// The position of the proved leaf among the committed leaves.
    pub leaf_index: usize,
    /// The sibling digest at each level, leaf level first.
    pub siblings: Vec<Digest>,
}

impl MerkleProof {
    /// Checks the proof against a claimed root: recomputes the leaf digest,
    /// folds the siblings over it, and succeeds exactly when the folded
    /// digest equals the claim. Needs no access to the tree.
    pub fn verify<LH: LeafHash, PH: PathHash>(
        &self,
        leaf_hasher: &LH,
        path_hasher: &PH,
        root: &Digest,
        leaf: &LH::Leaf,
    ) -> (accepted: bool)
        ensures
            accepted == (fold_path(
                *path_hasher,
                leaf_hasher.spec_hash(*leaf),
                self.siblings@,
                self.leaf_index as nat,
            ) == *root),
    {
        let ghost start = leaf_hasher.spec_hash(*leaf);
        let mut current = leaf_hasher.hash(leaf);
        let mut index = self.leaf_index;
        let mut k: usize = 0;
        let count = self.siblings.len();
        proof {
            lemma2_to64();
            assert(self.siblings@.take(0) =~= Seq::<Digest>::empty());
        }
        while k < count
            invariant
                count == self.siblings@.len(),
                k <= count,
                index == self.leaf_index as nat / pow2(k as nat),
                current == fold_path(
                    *path_hasher,
                    start,
                    self.siblings@.take(k as int),
                    self.leaf_index as nat,
                ),
            decreases count - k,
        {
            let sibling = self.siblings[k];
            if index % 2 == 0 {
                current = path_hasher.combine(&current, &sibling);
            } else {
                current = path_hasher.combine(&sibling, &current);
            }
            proof {
                assert(self.siblings@.take(k + 1) =~= self.siblings@.take(k as int).push(
                    sibling,
                ));
                lemma_fold_path_push(
                    *path_hasher,
                    start,
                    self.siblings@.take(k as int),
                    self.leaf_index as nat,
                    sibling,
                );
                lemma_div_pow2_step(self.leaf_index as nat, k as nat);
            }
            index = index / 2;
            k = k + 1;
        }
        proof {
            assert(self.siblings@.take(count as int) =~= self.siblings@);
        }
        current == *root
    }
}

} // verus!
