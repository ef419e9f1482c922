//! The laws the tree keeps, stated once over the models its contracts use.

use vstd::prelude::*;

use vstd::arithmetic::power2::{lemma2_to64, lemma_pow2_pos, lemma_pow2_unfold, pow2};

use crate::digest::Digest;
use crate::hash::{LeafHash, PathHash};
use crate::model::{
    lemma_level_of_bounds, lemma_pow2_lt_inverse, level_of, node_correct, node_index, node_window,
    subtree_hash,
};
use crate::path::{fold_path, MerkleProof};
use crate::tree::MerkleTree;

verus! {

/// Membership soundness: a proof that `prove` produced for a committed leaf
/// folds, over that leaf's digest, to the tree's own root, so `verify`
/// accepts it against `root()`.
pub proof fn lemma_membership_soundness<LH: LeafHash, PH: PathHash>(
    tree: MerkleTree<LH, PH>,
    membership: MerkleProof,
    leaf_index: usize,
    leaf: LH::Leaf,
)
    requires
        tree.wf(),
        leaf_index < tree.number_of_leaves,
        tree.leaf_hasher.spec_hash(leaf) == tree.digests()[leaf_index as int],
        membership.leaf_index == leaf_index,
        fold_path(
            tree.path_hasher,
            tree.digests()[leaf_index as int],
            membership.siblings@,
            leaf_index as nat,
        ) == tree.spec_root(),
    ensures
        fold_path(
            tree.path_hasher,
            tree.leaf_hasher.spec_hash(leaf),
            membership.siblings@,
            membership.leaf_index as nat,
        ) == tree.spec_root(),
{
}

/// Root rejection: a proof folds to exactly one digest, so `verify` refuses
/// every claimed root other than the true one.
pub proof fn lemma_root_rejection<LH: LeafHash, PH: PathHash>(
    membership: MerkleProof,
    leaf_hasher: LH,
    path_hasher: PH,
    true_root: Digest,
    claimed_root: Digest,
    leaf: LH::Leaf,
)
    requires
        fold_path(
            path_hasher,
            leaf_hasher.spec_hash(leaf),
            membership.siblings@,
            membership.leaf_index as nat,
        ) == true_root,
        claimed_root != true_root,
    ensures
        fold_path(
            path_hasher,
            leaf_hasher.spec_hash(leaf),
            membership.siblings@,
            membership.leaf_index as nat,
        ) != claimed_root,
{
}

/// The dense top entry of a well-formed tree is determined by its committed
/// digests: it is the hash of the whole padded leaf level.
proof fn lemma_top_determined<LH: LeafHash, PH: PathHash>(tree: MerkleTree<LH, PH>)
    requires
        tree.wf(),
    ensures
        tree.spec_top() == subtree_hash(tree.path_hasher, tree.padded(), tree.eff()),
{
    lemma2_to64();
    let d = tree.eff();
    assert(node_correct(tree.path_hasher, tree.inner_tree@, tree.padded(), d, 0, 0));
    vstd::arithmetic::mul::lemma_mul_basics(pow2(d) as int);
    assert(node_window(tree.padded(), d, 0, 0) =~= tree.padded());
    assert(node_index(0, 0) == 0);
}

/// Append monotonicity: appending leaves never changes the digests already
/// committed, and appending no leaves at all leaves the root unchanged.
pub proof fn lemma_append_monotonicity<LH: LeafHash, PH: PathHash>(
    tree: MerkleTree<LH, PH>,
    appended: MerkleTree<LH, PH>,
    added: Seq<Digest>,
)
    requires
        tree.wf(),
        appended.wf(),
        appended.depth == tree.depth,
        appended.path_hasher == tree.path_hasher,
        appended.number_of_leaves == tree.number_of_leaves + added.len(),
        appended.digests() == tree.digests() + added,
    ensures
        forall|i: int|
            0 <= i < tree.number_of_leaves ==> appended.digests()[i] == tree.digests()[i],
        added.len() == 0 ==> appended.spec_root() == tree.spec_root(),
{
    assert forall|i: int|
        0 <= i < tree.number_of_leaves implies appended.digests()[i] == tree.digests()[i] by {
        assert(appended.digests()[i] == (tree.digests() + added)[i]);
    }
    if added.len() == 0 {
        assert(appended.digests() =~= tree.digests());
        assert(appended.padded() =~= tree.padded());
        lemma_top_determined(tree);
        lemma_top_determined(appended);
    }
}

/// Structural determinism: two well-formed trees of the same depth, the same
/// path hasher and the same committed digests are identical throughout — the
/// same dense region, the same padding chain, the same root.
pub proof fn lemma_structural_determinism<LH: LeafHash, PH: PathHash>(
    first: MerkleTree<LH, PH>,
    second: MerkleTree<LH, PH>,
)
    requires
        first.wf(),
        second.wf(),
        second.depth == first.depth,
        second.path_hasher == first.path_hasher,
        second.number_of_leaves == first.number_of_leaves,
        second.digests() == first.digests(),
    ensures
        second.inner_tree@ == first.inner_tree@,
        second.padding_chain@ == first.padding_chain@,
        second.spec_root() == first.spec_root(),
{
    lemma2_to64();
    let d = first.eff();
    let ph = first.path_hasher;
    lemma_pow2_pos(d);
    assert(first.padded() =~= second.padded());
    assert forall|j: int|
        0 <= j < first.inner_tree@.len() implies first.inner_tree@[j] == second.inner_tree@[j] by {
        lemma_level_of_bounds(j as nat);
        let ell = level_of(j as nat);
        lemma_pow2_unfold((d + 1) as nat);
        lemma_pow2_lt_inverse(ell, (d + 1) as nat);
        lemma_pow2_unfold((ell + 1) as nat);
        let m = (j + 1 - pow2(ell)) as nat;
        assert(node_index(ell, m) == j);
        assert(node_correct(ph, first.inner_tree@, first.padded(), d, ell, m));
        assert(node_correct(ph, second.inner_tree@, second.padded(), d, ell, m));
    }
    assert(first.inner_tree@ =~= second.inner_tree@);
    assert forall|k: int|
        0 <= k < first.padding_chain@.len() implies first.padding_chain@[k]
        == second.padding_chain@[k] by {
        assert(first.padding_chain@[k].0 == second.padding_chain@[k].0);
        assert(first.padding_chain@[k].1 == second.padding_chain@[k].1);
    }
    assert(first.padding_chain@ =~= second.padding_chain@);
}

} // verus!
