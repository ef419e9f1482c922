//! The incremental Merkle tree itself.

use vstd::prelude::*;

use vstd::arithmetic::power2::{lemma2_to64, lemma_pow2_pos, lemma_pow2_unfold, pow2};

use crate::digest::Digest;
use crate::hash::{LeafHash, PathHash};
use crate::model::{
    chain_correct, dense_correct, effective_depth, effective_depth_exec, lemma_div_pow2_step,
    lemma_effective_depth_le, lemma_leaf_node_correct, lemma_node_index_bounds,
    lemma_node_window_bounds, lemma_pow2_le, lemma_subtree_hash_split, node_correct, node_index,
    node_window, pad_fold, padded_seq, pow2_exec,
};
use crate::path::{fold_path, lemma_fold_path_push, MerkleProof};

verus! {

/// Why a tree operation was refused. Every failure is returned, never
/// swallowed, and a failed operation leaves the prior tree untouched.
#[derive(Clone, Copy, PartialEq, Eq, Structural, Debug)]
pub enum TreeError {
    /// The declared depth was zero: no tree has fewer than one level.
    InvalidDepth,
    /// The requested leaf count does not fit below the declared depth.
    CapacityExceeded,
    /// A proof was requested for a leaf value that does not hash to the
    /// digest committed at that index.
    LeafMismatch,
}

/// An incremental, depth-bounded Merkle tree.
///
/// The committed leaves live, hashed, in `inner_tree`: a dense, array-backed
/// binary tree of the smallest depth whose capacity covers them, laid out as
/// an implicit heap. The levels between the dense region's top and the
/// declared depth are not materialized; `padding_chain` holds one
/// `(digest, empty)` pair per such level, short of the root, and the root
/// itself is recomputed on demand and never stored.
pub struct MerkleTree<LH: LeafHash, PH: PathHash> {
    /// The hasher that digests leaves.
    pub leaf_hasher: LH,
    /// The hasher that combines digests and names the empty digest.
    pub path_hasher: PH,
    /// The dense region: `2^(effective depth + 1) - 1` digests.
    pub inner_tree: Vec<Digest>,
    /// One `(combined, empty)` pair per padding level strictly between the
    /// dense region's top and the root.
    pub padding_chain: Vec<(Digest, Digest)>,
    /// How many leaves have been committed so far.
    pub number_of_leaves: usize,
    /// The declared maximum depth of this tree.
    pub depth: u8,
}

impl<LH: LeafHash, PH: PathHash> MerkleTree<LH, PH> {
    /// The depth of the dense region: the smallest depth covering the
    /// committed leaf count, derived rather than stored.
    pub open spec fn eff(self) -> nat {
        effective_depth(self.number_of_leaves as nat)
    }

    /// The committed leaf digests: the populated prefix of the dense
    /// region's leaf level.
    pub open spec fn digests(self) -> Seq<Digest> {
        self.inner_tree@.subrange(
            pow2(self.eff()) - 1,
            pow2(self.eff()) - 1 + self.number_of_leaves,
        )
    }

    /// The dense region's leaf level in full: the committed digests, padded
    /// on the right with the empty digest up to the region's capacity.
    pub open spec fn padded(self) -> Seq<Digest> {
        padded_seq(self.path_hasher, self.digests(), self.eff())
    }

    /// The dense region's top entry.
    pub open spec fn spec_top(self) -> Digest {
        self.inner_tree@[0]
    }

    /// The root: the dense region's top entry, padded once per level left
    /// between the dense region and the declared depth.
    pub open spec fn spec_root(self) -> Digest {
        pad_fold(self.path_hasher, self.spec_top(), (self.depth as nat - self.eff()) as nat)
    }

    /// Well-formedness: the dense region has exactly the derived depth's
    /// size and every one of its nodes hashes its window of padded leaves;
    /// the padding chain covers exactly the levels strictly between the
    /// dense top and the root, each entry the next padding of the top.
    pub open spec fn wf(self) -> bool {
        &&& 1 <= self.depth
        &&& self.number_of_leaves as nat <= pow2(self.depth as nat)
        &&& self.number_of_leaves as nat <= pow2(30)
        &&& self.number_of_leaves as nat <= pow2(self.eff())
        &&& self.eff() <= self.depth as nat
        &&& self.inner_tree@.len() == 2 * pow2(self.eff()) - 1
        &&& dense_correct(self.path_hasher, self.inner_tree@, self.padded(), self.eff())
        &&& self.padding_chain@.len() == (if self.eff() + 1 < self.depth as nat {
            self.depth as nat - self.eff() - 1
        } else {
            0
        })
        &&& chain_correct(self.path_hasher, self.padding_chain@, self.spec_top())
    }

    /// Constructs a tree of the given depth committing to the given leaves,
    /// in order.
    ///
    /// Fails with `InvalidDepth` exactly when `depth` is zero, and with
    /// `CapacityExceeded` exactly when the leaves outnumber the declared
    /// capacity `2^depth`; otherwise returns a well-formed tree whose
    /// committed digests are the leaf hashes, in order.
    ///
    /// The dense region is one index-addressed array of `2^(d+1) - 1`
    /// entries over the smallest covering depth `d`, so the leaf count is
    /// capped at `2^30`, which keeps every slot addressable even on 32-bit
    /// targets; the declared depth itself is not limited by this.
    pub fn new(leaf_hasher: &LH, path_hasher: &PH, leaves: &Vec<LH::Leaf>, depth: u8) -> (result:
        Result<Self, TreeError>)
        requires
            leaves@.len() <= pow2(30),
        ensures
            match result {
                Ok(tree) => {
                    &&& depth >= 1
                    &&& leaves@.len() <= pow2(depth as nat)
                    &&& tree.wf()
                    &&& tree.depth == depth
                    &&& tree.number_of_leaves == leaves@.len()
                    &&& tree.leaf_hasher == *leaf_hasher
                    &&& tree.path_hasher == *path_hasher
                    &&& tree.digests() == leaves@.map(
                        |i: int, leaf: LH::Leaf| leaf_hasher.spec_hash(leaf),
                    )
                },
                Err(TreeError::InvalidDepth) => depth == 0,
                Err(TreeError::CapacityExceeded) => depth >= 1 && leaves@.len() > pow2(
                    depth as nat,
                ),
                Err(TreeError::LeafMismatch) => false,
            },
    {
        if depth == 0 {
            return Err(TreeError::InvalidDepth);
        }
        if depth <= 30 {
            let capacity = pow2_exec(depth as usize);
            if leaves.len() > capacity {
                return Err(TreeError::CapacityExceeded);
            }
        } else {
            proof {
                lemma_pow2_le(30, depth as nat);
            }
        }
        let digests = hash_leaves(leaf_hasher, leaves);
        let d = effective_depth_exec(leaves.len());
        proof {
            crate::model::lemma_effective_depth_covers(leaves@.len() as nat);
        }
        let arr = build_dense(path_hasher, &digests, d);
        let levels = if d + 1 < depth as usize {
            depth as usize - d - 1
        } else {
            0
        };
        let chain = build_chain(path_hasher, arr[0], levels);
        let tree = MerkleTree {
            leaf_hasher: leaf_hasher.duplicate(),
            path_hasher: path_hasher.duplicate(),
            inner_tree: arr,
            padding_chain: chain,
            number_of_leaves: leaves.len(),
            depth,
        };
        proof {
            lemma_effective_depth_le(leaves@.len() as nat, depth as nat);
            assert(tree.digests() =~= digests@);
            assert(tree.padded() =~= padded_seq(*path_hasher, digests@, d as nat));
        }
        Ok(tree)
    }

    /// Returns the root of the tree.
    ///
    /// Never stored, the root is recomputed from the top of whatever is
    /// materialized: the dense top itself when the dense region reaches the
    /// declared depth, one padding of it when only one level is missing, and
    /// the combination of the last padding-chain pair otherwise.
    pub fn root(&self) -> (digest: Digest)
        requires
            self.wf(),
        ensures
            digest == self.spec_root(),
    {
        proof {
            reveal_with_fuel(pad_fold, 2);
        }
        let d = effective_depth_exec(self.number_of_leaves);
        if d == self.depth as usize {
            self.inner_tree[0]
        } else if self.padding_chain.len() == 0 {
            let empty = self.path_hasher.hash_empty();
            self.path_hasher.combine(&self.inner_tree[0], &empty)
        } else {
            let last = self.padding_chain.len() - 1;
            let pair = self.padding_chain[last];
            proof {
                assert(chain_correct(self.path_hasher, self.padding_chain@, self.spec_top()));
                assert(self.padding_chain@[last as int].0 == pad_fold(
                    self.path_hasher,
                    self.spec_top(),
                    (last + 1) as nat,
                ));
            }
            self.path_hasher.combine(&pair.0, &pair.1)
        }
    }

    /// Rewrites the dense region for an append that stays within its
    /// current capacity: the new digests land in their leaf slots and
    /// everything else is carried over; ancestors are left for the caller to
    /// recompute.
    fn append_dense_within(&self, hashed: &Vec<Digest>) -> (arr: Vec<Digest>)
        requires
            self.wf(),
            1 <= hashed@.len(),
            self.number_of_leaves + hashed@.len() <= pow2(30),
            effective_depth((self.number_of_leaves + hashed@.len()) as nat) == self.eff(),
        ensures
            ({
                let total = self.number_of_leaves + hashed@.len();
                let dn = self.eff();
                let lvs2 = padded_seq(self.path_hasher, self.digests() + hashed@, dn);
                &&& arr@.len() == 2 * pow2(dn) - 1
                &&& forall|mm: nat|
                    mm < pow2(dn) ==> #[trigger] node_correct(
                        self.path_hasher,
                        arr@,
                        lvs2,
                        dn,
                        dn,
                        mm,
                    )
                &&& forall|ell: nat, mm: nat|
                    ell < dn && mm < pow2(ell) && (mm < self.number_of_leaves as nat / pow2(
                        (dn - ell) as nat,
                    ) || mm > (total - 1) as nat / pow2((dn - ell) as nat))
                        ==> #[trigger] node_correct(self.path_hasher, arr@, lvs2, dn, ell, mm)
            }),
    {
        proof {
            lemma2_to64();
        }
        let k_new = hashed.len();
        let old_n = self.number_of_leaves;
        let total = old_n + k_new;
        let d_old = effective_depth_exec(old_n);
        let d_new = effective_depth_exec(total);
        let cap_new = pow2_exec(d_new);
        let ghost ph = self.path_hasher;
        let ghost lvs1 = self.padded();
        let ghost digs2 = self.digests() + hashed@;
        let ghost lvs2 = padded_seq(ph, digs2, d_new as nat);
        proof {
            crate::model::lemma_effective_depth_covers(old_n as nat);
            crate::model::lemma_effective_depth_covers(total as nat);
            crate::model::lemma_effective_depth_mono(old_n as nat, total as nat);
            lemma_pow2_le(d_new as nat, 30);
            lemma_pow2_pos(d_old as nat);
        }
        let mut arr = copy_digests(&self.inner_tree);
        let hi_leaf = total - 1;
        let mut j: usize = 0;
        while j < k_new
            invariant
                j <= k_new == hashed@.len(),
                old_n + k_new == total <= pow2(d_new as nat),
                cap_new == pow2(d_new as nat) <= 0x40000000,
                arr@.len() == 2 * pow2(d_new as nat) - 1,
                forall|t: int|
                    0 <= t < j ==> arr@[pow2(d_new as nat) - 1 + old_n + t] == hashed@[t],
                forall|t: int|
                    0 <= t < arr@.len() && !(pow2(d_new as nat) - 1 + old_n <= t < pow2(
                        d_new as nat,
                    ) - 1 + old_n + j) ==> arr@[t] == self.inner_tree@[t],
            decreases k_new - j,
        {
            arr.set(cap_new - 1 + old_n + j, hashed[j]);
            j = j + 1;
        }
        proof {
            assert(lvs2.len() == pow2(d_new as nat));
            assert forall|mm: nat| mm < pow2(d_new as nat) implies #[trigger] node_correct(
                ph,
                arr@,
                lvs2,
                d_new as nat,
                d_new as nat,
                mm,
            ) by {
                lemma_leaf_node_correct(ph, arr@, lvs2, d_new as nat, mm);
                lemma_leaf_node_correct(ph, self.inner_tree@, lvs1, d_old as nat, mm);
                assert(node_correct(ph, self.inner_tree@, lvs1, d_old as nat, d_old as nat, mm));
                if mm < old_n as nat {
                    assert(lvs1[mm as int] == self.digests()[mm as int]);
                    assert(lvs2[mm as int] == digs2[mm as int]);
                } else if mm < total as nat {
                    assert(arr@[pow2(d_new as nat) - 1 + mm] == hashed@[mm - old_n]);
                    assert(lvs2[mm as int] == digs2[mm as int]);
                } else {
                    assert(lvs1[mm as int] == ph.spec_empty());
                    assert(lvs2[mm as int] == ph.spec_empty());
                }
            }
            assert forall|ell: nat, mm: nat|
                ell < d_new as nat && mm < pow2(ell) && (mm < old_n as nat / pow2(
                    (d_new as nat - ell) as nat,
                ) || mm > (total - 1) as nat / pow2((d_new as nat - ell) as nat))
                    implies #[trigger] node_correct(ph, arr@, lvs2, d_new as nat, ell, mm) by {
                let s = (d_new as nat - ell) as nat;
                lemma_pow2_pos(s);
                lemma_pow2_pos(ell);
                lemma_node_index_bounds(d_new as nat, ell, mm);
                lemma_node_window_bounds(d_new as nat, ell, mm);
                crate::model::lemma_quotient_window(old_n as nat, s, mm);
                crate::model::lemma_quotient_window((total - 1) as nat, s, mm);
                assert(node_correct(ph, self.inner_tree@, lvs1, d_old as nat, ell, mm));
                assert(arr@[node_index(ell, mm)] == self.inner_tree@[node_index(ell, mm)]);
                assert(node_window(lvs1, d_new as nat, ell, mm) =~= node_window(
                    lvs2,
                    d_new as nat,
                    ell,
                    mm,
                ));
            }
        }
        arr
    }

    /// Builds the dense region for an append that outgrows the current
    /// capacity: the region grows to the smallest covering depth, the old
    /// leaf digests and every old subtree over them are copied into their
    /// places in the larger region, and the new digests land after them;
    /// everything above or right of the reused part is left for the caller
    /// to recompute.
    fn append_dense_grown(&self, hashed: &Vec<Digest>) -> (arr: Vec<Digest>)
        requires
            self.wf(),
            1 <= hashed@.len(),
            self.number_of_leaves + hashed@.len() <= pow2(30),
            self.eff() < effective_depth((self.number_of_leaves + hashed@.len()) as nat),
        ensures
            ({
                let total = self.number_of_leaves + hashed@.len();
                let dn = effective_depth(total as nat);
                let lvs2 = padded_seq(self.path_hasher, self.digests() + hashed@, dn);
                &&& arr@.len() == 2 * pow2(dn) - 1
                &&& forall|mm: nat|
                    mm < pow2(dn) ==> #[trigger] node_correct(
                        self.path_hasher,
                        arr@,
                        lvs2,
                        dn,
                        dn,
                        mm,
                    )
                &&& forall|ell: nat, mm: nat|
                    ell < dn && mm < pow2(ell) && (mm < self.number_of_leaves as nat / pow2(
                        (dn - ell) as nat,
                    ) || mm > (pow2(dn) - 1) as nat / pow2((dn - ell) as nat))
                        ==> #[trigger] node_correct(self.path_hasher, arr@, lvs2, dn, ell, mm)
            }),
    {
        proof {
            lemma2_to64();
        }
        let k_new = hashed.len();
        let old_n = self.number_of_leaves;
        let total = old_n + k_new;
        let d_old = effective_depth_exec(old_n);
        let d_new = effective_depth_exec(total);
        let cap_new = pow2_exec(d_new);
        let ghost ph = self.path_hasher;
        let ghost lvs1 = self.padded();
        let ghost digs2 = self.digests() + hashed@;
        let ghost lvs2 = padded_seq(ph, digs2, d_new as nat);
        proof {
            crate::model::lemma_effective_depth_covers(old_n as nat);
            crate::model::lemma_effective_depth_covers(total as nat);
            crate::model::lemma_effective_depth_mono(old_n as nat, total as nat);
            lemma_pow2_le(d_new as nat, 30);
            lemma_pow2_pos(d_old as nat);
        }
        let cap_old = pow2_exec(d_old);
        let delta = d_new - d_old;
        let empty = self.path_hasher.hash_empty();
        let size = 2 * cap_new - 1;
        let hi_leaf = cap_new - 1;
        let mut arr: Vec<Digest> = Vec::new();
        while arr.len() < size
            invariant
                arr@.len() <= size,
                empty == ph.spec_empty(),
                forall|t: int| 0 <= t < arr@.len() ==> arr@[t] == ph.spec_empty(),
            decreases size - arr@.len(),
        {
            arr.push(empty);
        }
        let mut j: usize = 0;
        while j < old_n
            invariant
                self.wf(),
                d_old == self.eff(),
                j <= old_n == self.number_of_leaves,
                old_n <= total <= pow2(d_new as nat),
                cap_old == pow2(d_old as nat),
                cap_new == pow2(d_new as nat) <= 0x40000000,
                d_old < d_new,
                arr@.len() == size == 2 * pow2(d_new as nat) - 1,
                forall|t: int|
                    0 <= t < j ==> #[trigger] arr@[pow2(d_new as nat) - 1 + t]
                        == self.inner_tree@[pow2(d_old as nat) - 1 + t],
                forall|t: int|
                    0 <= t < arr@.len() && !(pow2(d_new as nat) - 1 <= t < pow2(d_new as nat)
                        - 1 + j) ==> arr@[t] == ph.spec_empty(),
            decreases old_n - j,
        {
            proof {
                lemma_pow2_le(d_old as nat, d_new as nat);
            }
            arr.set(cap_new - 1 + j, self.inner_tree[cap_old - 1 + j]);
            j = j + 1;
        }
        let mut t: usize = 0;
        while t < k_new
            invariant
                t <= k_new == hashed@.len(),
                old_n + k_new == total <= pow2(d_new as nat),
                cap_new == pow2(d_new as nat) <= 0x40000000,
                arr@.len() == size == 2 * pow2(d_new as nat) - 1,
                forall|u: int|
                    0 <= u < old_n ==> #[trigger] arr@[pow2(d_new as nat) - 1 + u]
                        == self.inner_tree@[pow2(d_old as nat) - 1 + u],
                forall|u: int|
                    0 <= u < t ==> arr@[pow2(d_new as nat) - 1 + old_n + u] == hashed@[u],
                forall|u: int|
                    0 <= u < arr@.len() && !(pow2(d_new as nat) - 1 <= u < pow2(d_new as nat)
                        - 1 + old_n + t) ==> arr@[u] == ph.spec_empty(),
            decreases k_new - t,
        {
            arr.set(cap_new - 1 + old_n + t, hashed[t]);
            t = t + 1;
        }
        // Reuse the old dense region: copy each old internal level into
        // its place in the larger region.
        let mut ell: usize = 0;
        while ell < d_old
            invariant
                self.wf(),
                d_old == self.eff(),
                ell <= d_old,
                d_old < d_new <= 30,
                delta == d_new - d_old,
                old_n == self.number_of_leaves,
                old_n + k_new == total <= pow2(d_new as nat),
                cap_old == pow2(d_old as nat),
                cap_new == pow2(d_new as nat) <= 0x40000000,
                arr@.len() == size == 2 * pow2(d_new as nat) - 1,
                forall|u: int|
                    0 <= u < old_n ==> #[trigger] arr@[pow2(d_new as nat) - 1 + u]
                        == self.inner_tree@[pow2(d_old as nat) - 1 + u],
                forall|u: int|
                    0 <= u < k_new ==> arr@[pow2(d_new as nat) - 1 + old_n + u] == hashed@[u],
                forall|u: int|
                    pow2(d_new as nat) - 1 + total <= u < arr@.len() ==> arr@[u]
                        == ph.spec_empty(),
                forall|eo: nat, mm: nat|
                    eo < ell as nat && mm < pow2(eo) ==> #[trigger] arr@[node_index(
                        (eo + delta as nat) as nat,
                        mm,
                    )] == self.inner_tree@[node_index(eo, mm)],
            decreases d_old - ell,
        {
            let w_old = pow2_exec(ell);
            let w_new = pow2_exec(ell + delta);
            proof {
                lemma_pow2_pos(ell as nat);
                lemma_pow2_pos((ell + delta) as nat);
                lemma_pow2_le((ell + delta) as nat, d_new as nat);
                lemma_pow2_le(ell as nat, d_old as nat);
                lemma_pow2_unfold((ell + delta + 1) as nat);
                lemma_pow2_le((ell + delta + 1) as nat, d_new as nat);
                lemma_pow2_unfold((ell + 1) as nat);
                lemma_pow2_le((ell + 1) as nat, d_old as nat);
            }
            let mut m: usize = 0;
            while m < w_old
                invariant
                    self.wf(),
                    d_old == self.eff(),
                    ell < d_old,
                    d_old < d_new <= 30,
                    delta == d_new - d_old,
                    m <= w_old,
                    old_n == self.number_of_leaves,
                    old_n + k_new == total <= pow2(d_new as nat),
                    cap_old == pow2(d_old as nat),
                    cap_new == pow2(d_new as nat) <= 0x40000000,
                    1 <= w_old == pow2(ell as nat),
                    1 <= w_new == pow2((ell + delta) as nat),
                    2 * w_old <= pow2(d_old as nat),
                    2 * w_new <= pow2(d_new as nat),
                    arr@.len() == size == 2 * pow2(d_new as nat) - 1,
                    forall|u: int|
                        0 <= u < old_n ==> #[trigger] arr@[pow2(d_new as nat) - 1 + u]
                            == self.inner_tree@[pow2(d_old as nat) - 1 + u],
                    forall|u: int|
                        0 <= u < k_new ==> arr@[pow2(d_new as nat) - 1 + old_n + u]
                            == hashed@[u],
                    forall|u: int|
                        pow2(d_new as nat) - 1 + total <= u < arr@.len() ==> arr@[u]
                            == ph.spec_empty(),
                    forall|eo: nat, mm: nat|
                        (eo < ell as nat && mm < pow2(eo)) || (eo == ell as nat && mm < m)
                            ==> #[trigger] arr@[node_index((eo + delta as nat) as nat, mm)]
                            == self.inner_tree@[node_index(eo, mm)],
                decreases w_old - m,
            {
                proof {
                    lemma_pow2_le(ell as nat, (ell + delta) as nat);
                }
                let ghost before = arr@;
                arr.set(w_new - 1 + m, self.inner_tree[w_old - 1 + m]);
                proof {
                    assert forall|eo: nat, mm: nat|
                        (eo < ell as nat && mm < pow2(eo)) || (eo == ell as nat && mm < m
                            + 1) implies #[trigger] arr@[node_index(
                        (eo + delta as nat) as nat,
                        mm,
                    )] == self.inner_tree@[node_index(eo, mm)] by {
                        lemma_pow2_le(eo, (eo + delta as nat) as nat);
                        lemma_node_index_bounds(d_new as nat, (eo + delta as nat) as nat, mm);
                        lemma_node_index_bounds(
                            d_new as nat,
                            (ell + delta) as nat,
                            m as nat,
                        );
                        if !(eo == ell as nat && mm == m as nat) {
                            if eo < ell as nat {
                                lemma_pow2_le((eo + delta as nat + 1) as nat, (ell
                                    + delta) as nat);
                            }
                            assert(node_index((eo + delta as nat) as nat, mm) != node_index(
                                (ell + delta) as nat,
                                m as nat,
                            ));
                            assert(arr@[node_index((eo + delta as nat) as nat, mm)]
                                == before[node_index((eo + delta as nat) as nat, mm)]);
                        }
                    }
                }
                m = m + 1;
            }
            ell = ell + 1;
        }
        proof {
            assert(lvs2.len() == pow2(d_new as nat));
            assert forall|mm: nat| mm < pow2(d_new as nat) implies #[trigger] node_correct(
                ph,
                arr@,
                lvs2,
                d_new as nat,
                d_new as nat,
                mm,
            ) by {
                lemma_pow2_le(d_old as nat, d_new as nat);
                lemma_leaf_node_correct(ph, arr@, lvs2, d_new as nat, mm);
                if mm < old_n as nat {
                    lemma_leaf_node_correct(ph, self.inner_tree@, lvs1, d_old as nat, mm);
                    assert(node_correct(ph, self.inner_tree@, lvs1, d_old as nat, d_old as nat, mm));
                    assert(lvs1[mm as int] == self.digests()[mm as int]);
                    assert(lvs2[mm as int] == digs2[mm as int]);
                } else if mm < total as nat {
                    assert(arr@[pow2(d_new as nat) - 1 + mm] == hashed@[mm - old_n]);
                    assert(lvs2[mm as int] == digs2[mm as int]);
                } else {
                    assert(lvs2[mm as int] == ph.spec_empty());
                }
            }
            assert forall|ell: nat, mm: nat|
                ell < d_new as nat && mm < pow2(ell) && (mm < old_n as nat / pow2(
                    (d_new as nat - ell) as nat,
                ) || mm > (pow2(d_new as nat) - 1) as nat / pow2((d_new as nat - ell) as nat))
                    implies #[trigger] node_correct(ph, arr@, lvs2, d_new as nat, ell, mm) by {
                let s = (d_new as nat - ell) as nat;
                lemma_pow2_pos(s);
                lemma_pow2_pos(ell);
                lemma_node_index_bounds(d_new as nat, ell, mm);
                lemma_node_window_bounds(d_new as nat, ell, mm);
                crate::model::lemma_quotient_window(old_n as nat, s, mm);
                crate::model::lemma_quotient_window((pow2(d_new as nat) - 1) as nat, s, mm);
                // Only windows wholly under the old leaf prefix occur here:
                // every other window meets the appended range and is
                // recomputed by the caller.
                if ell < delta as nat {
                    lemma_pow2_le((d_old + 1) as nat, s);
                    vstd::arithmetic::div_mod::lemma_basic_div(old_n as int, pow2(s) as int);
                    assert(false);
                } else {
                    let eo = (ell - delta) as nat;
                    assert(mm < old_n as nat / pow2(s)) by {
                        vstd::arithmetic::power2::lemma_pow2_adds(ell, s);
                        vstd::arithmetic::div_mod::lemma_div_is_ordered(
                            (pow2(d_new as nat) - 1) as int,
                            (pow2(d_new as nat) - 1) as int,
                            pow2(s) as int,
                        );
                        vstd::arithmetic::div_mod::lemma_multiply_divide_lt(
                            (pow2(d_new as nat) - 1) as int,
                            pow2(s) as int,
                            pow2(ell) as int,
                        );
                        vstd::arithmetic::mul::lemma_mul_is_commutative(
                            pow2(s) as int,
                            pow2(ell) as int,
                        );
                    }
                    assert((mm + 1) * pow2(s) <= old_n as nat);
                    assert(mm < pow2(eo)) by {
                        vstd::arithmetic::power2::lemma_pow2_adds(eo, s);
                        vstd::arithmetic::mul::lemma_mul_inequality_converse(
                            (mm + 1) as int,
                            pow2(eo) as int,
                            pow2(s) as int,
                        );
                    }
                    assert((eo + delta as nat) as nat == ell);
                    assert(arr@[node_index((eo + delta as nat) as nat, mm)]
                        == self.inner_tree@[node_index(eo, mm)]);
                    assert(node_correct(ph, self.inner_tree@, lvs1, d_old as nat, eo, mm));
                    lemma_node_window_bounds(d_old as nat, eo, mm);
                    assert(node_window(lvs1, d_old as nat, eo, mm) =~= node_window(
                        lvs2,
                        d_new as nat,
                        ell,
                        mm,
                    ));
                }
            }
        }
        arr
    }

    /// Returns a new tree with the given leaves appended after the ones
    /// already committed; this tree is left unchanged.
    ///
    /// Fails with `CapacityExceeded` exactly when the combined leaf count
    /// exceeds the declared capacity `2^depth`. When the combined count
    /// still fits the dense region's current capacity, only the slots of the
    /// new leaves and their ancestor paths are recomputed; when it does not,
    /// the dense region grows to the smallest covering depth, the old region
    /// supplying the reused left part and the new leaves the fresh right
    /// part. Either way the padding chain is rebuilt over the new dense top,
    /// whose value the appended leaves change.
    ///
    /// The combined leaf count is capped at `2^30`, as in [`Self::new`].
    pub fn append(&self, new_leaves: &Vec<LH::Leaf>) -> (result: Result<Self, TreeError>)
        requires
            self.wf(),
            self.number_of_leaves + new_leaves@.len() <= pow2(30),
        ensures
            match result {
                Ok(tree) => {
                    &&& self.number_of_leaves + new_leaves@.len() <= pow2(self.depth as nat)
                    &&& tree.wf()
                    &&& tree.depth == self.depth
                    &&& tree.leaf_hasher == self.leaf_hasher
                    &&& tree.path_hasher == self.path_hasher
                    &&& tree.number_of_leaves == self.number_of_leaves + new_leaves@.len()
                    &&& tree.digests() == self.digests() + new_leaves@.map(
                        |i: int, leaf: LH::Leaf| self.leaf_hasher.spec_hash(leaf),
                    )
                },
                Err(TreeError::CapacityExceeded) => self.number_of_leaves + new_leaves@.len()
                    > pow2(self.depth as nat),
                Err(TreeError::InvalidDepth) => false,
                Err(TreeError::LeafMismatch) => false,
            },
    {
        proof {
            lemma2_to64();
        }
        let k_new = new_leaves.len();
        let old_n = self.number_of_leaves;
        let total = old_n + k_new;
        if self.depth <= 30 {
            let capacity = pow2_exec(self.depth as usize);
            if total > capacity {
                return Err(TreeError::CapacityExceeded);
            }
        } else {
            proof {
                lemma_pow2_le(30, self.depth as nat);
            }
        }
        let ghost to_digest = |i: int, leaf: LH::Leaf| self.leaf_hasher.spec_hash(leaf);
        if k_new == 0 {
            let tree = MerkleTree {
                leaf_hasher: self.leaf_hasher.duplicate(),
                path_hasher: self.path_hasher.duplicate(),
                inner_tree: copy_digests(&self.inner_tree),
                padding_chain: copy_pairs(&self.padding_chain),
                number_of_leaves: old_n,
                depth: self.depth,
            };
            proof {
                assert(tree.digests() =~= self.digests() + new_leaves@.map(to_digest));
                assert(tree.digests() =~= self.digests());
                assert(tree.padded() =~= self.padded());
            }
            return Ok(tree);
        }
        let hashed = hash_leaves(&self.leaf_hasher, new_leaves);
        let d_old = effective_depth_exec(old_n);
        let d_new = effective_depth_exec(total);
        let cap_new = pow2_exec(d_new);
        let ghost ph = self.path_hasher;
        let ghost digs2 = self.digests() + hashed@;
        let ghost lvs2 = padded_seq(ph, digs2, d_new as nat);
        proof {
            crate::model::lemma_effective_depth_covers(old_n as nat);
            crate::model::lemma_effective_depth_covers(total as nat);
            crate::model::lemma_effective_depth_mono(old_n as nat, total as nat);
            lemma_pow2_le(d_new as nat, 30);
            lemma_pow2_pos(d_new as nat);
        }
        let mut arr: Vec<Digest>;
        let hi_leaf: usize;
        if d_new == d_old {
            arr = self.append_dense_within(&hashed);
            hi_leaf = total - 1;
        } else {
            arr = self.append_dense_grown(&hashed);
            hi_leaf = cap_new - 1;
        }
        recompute_levels(&self.path_hasher, &mut arr, d_new, old_n, hi_leaf, Ghost(lvs2));
        let levels = if d_new + 1 < self.depth as usize {
            self.depth as usize - d_new - 1
        } else {
            0
        };
        let chain = build_chain(&self.path_hasher, arr[0], levels);
        let tree = MerkleTree {
            leaf_hasher: self.leaf_hasher.duplicate(),
            path_hasher: self.path_hasher.duplicate(),
            inner_tree: arr,
            padding_chain: chain,
            number_of_leaves: total,
            depth: self.depth,
        };
        proof {
            lemma_effective_depth_le(total as nat, self.depth as nat);
            assert forall|u: int| 0 <= u < total implies tree.inner_tree@[pow2(d_new as nat) - 1
                + u] == digs2[u] by {
                lemma_leaf_node_correct(ph, tree.inner_tree@, lvs2, d_new as nat, u as nat);
                assert(node_correct(ph, tree.inner_tree@, lvs2, d_new as nat, d_new as nat, u as nat));
            }
            assert(tree.digests() =~= digs2);
            assert(tree.padded() =~= lvs2);
            assert(hashed@ == new_leaves@.map(to_digest));
        }
        Ok(tree)
    }

    /// Produces a membership proof for the leaf at `leaf_index`.
    ///
    /// The supplied leaf must hash to the digest committed at that index;
    /// a mismatch fails with `LeafMismatch` and nothing else fails. The
    /// proof carries exactly `depth` siblings: one per dense level, then the
    /// empty digest for every padding level up to the root.
    pub fn prove(&self, leaf_index: usize, leaf: &LH::Leaf) -> (result: Result<
        MerkleProof,
        TreeError,
    >)
        requires
            self.wf(),
            leaf_index < self.number_of_leaves,
        ensures
            match result {
                Ok(proof) => {
                    &&& self.leaf_hasher.spec_hash(*leaf) == self.digests()[leaf_index as int]
                    &&& proof.leaf_index == leaf_index
                    &&& proof.siblings@.len() == self.depth as nat
                    &&& fold_path(
                        self.path_hasher,
                        self.leaf_hasher.spec_hash(*leaf),
                        proof.siblings@,
                        leaf_index as nat,
                    ) == self.spec_root()
                },
                Err(TreeError::LeafMismatch) => self.leaf_hasher.spec_hash(*leaf)
                    != self.digests()[leaf_index as int],
                Err(TreeError::InvalidDepth) => false,
                Err(TreeError::CapacityExceeded) => false,
            },
    {
        let d = effective_depth_exec(self.number_of_leaves);
        let cap = pow2_exec(d);
        proof {
            lemma2_to64();
            crate::model::lemma_effective_depth_covers(self.number_of_leaves as nat);
        }
        let expected = self.leaf_hasher.hash(leaf);
        let slot = cap - 1 + leaf_index;
        let committed = self.inner_tree[slot];
        proof {
            assert(committed == self.digests()[leaf_index as int]);
        }
        if expected != committed {
            return Err(TreeError::LeafMismatch);
        }
        let ghost start = self.digests()[leaf_index as int];
        let mut siblings: Vec<Digest> = Vec::new();
        let mut position = leaf_index;
        let mut level = d;
        proof {
            vstd::arithmetic::div_mod::lemma_div_basics(leaf_index as int);
            assert(siblings@ =~= Seq::<Digest>::empty());
        }
        while level > 0
            invariant
                self.wf(),
                d == self.eff(),
                1 <= d <= 30,
                cap == pow2(d as nat),
                level <= d,
                leaf_index < self.number_of_leaves,
                position == leaf_index as nat / pow2((d - level) as nat),
                position < pow2(level as nat),
                siblings@.len() == d - level,
                start == self.digests()[leaf_index as int],
                fold_path(self.path_hasher, start, siblings@, leaf_index as nat)
                    == self.inner_tree@[node_index(level as nat, position as nat)],
            decreases level,
        {
            let width = pow2_exec(level);
            proof {
                lemma2_to64();
                lemma_pow2_unfold(level as nat);
                lemma_pow2_pos(level as nat);
                lemma_pow2_le(level as nat, 30);
                lemma_pow2_le(d as nat, 30);
            }
            let sib_position = if position % 2 == 0 {
                position + 1
            } else {
                position - 1
            };
            proof {
                lemma_node_index_bounds(d as nat, level as nat, sib_position as nat);
                lemma_node_index_bounds(d as nat, level as nat, position as nat);
            }
            let sibling = self.inner_tree[width - 1 + sib_position];
            proof {
                let ph = self.path_hasher;
                let lvs = self.padded();
                let i = leaf_index as nat;
                let ell = (level - 1) as nat;
                let q = (position / 2) as nat;
                lemma_fold_path_push(ph, start, siblings@, i, sibling);
                vstd::arithmetic::div_mod::lemma_fundamental_div_mod(position as int, 2);
                assert(q < pow2(ell));
                lemma_node_index_bounds(d as nat, ell, q);
                lemma_subtree_hash_split(ph, lvs, d as nat, ell, q);
                assert(node_correct(ph, self.inner_tree@, lvs, d as nat, ell, q));
                assert(node_correct(
                    ph,
                    self.inner_tree@,
                    lvs,
                    d as nat,
                    level as nat,
                    (2 * q) as nat,
                ));
                assert(node_correct(
                    ph,
                    self.inner_tree@,
                    lvs,
                    d as nat,
                    level as nat,
                    (2 * q + 1) as nat,
                ));
                assert(node_index(level as nat, (2 * q) as nat) == 2 * node_index(ell, q) + 1);
                assert(node_index(level as nat, (2 * q + 1) as nat) == 2 * node_index(ell, q)
                    + 2);
                assert(self.inner_tree@[node_index(ell, q)] == ph.spec_combine(
                    self.inner_tree@[node_index(level as nat, (2 * q) as nat)],
                    self.inner_tree@[node_index(level as nat, (2 * q + 1) as nat)],
                ));
                lemma_div_pow2_step(i, (d - level) as nat);
            }
            siblings.push(sibling);
            position = position / 2;
            level = level - 1;
        }
        proof {
            vstd::arithmetic::div_mod::lemma_basic_div(leaf_index as int, pow2(d as nat) as int);
            assert(fold_path(self.path_hasher, start, siblings@, leaf_index as nat)
                == self.spec_top());
        }
        let empty = self.path_hasher.hash_empty();
        let mut k = d;
        while k < self.depth as usize
            invariant
                self.wf(),
                d == self.eff(),
                1 <= d <= 30,
                d <= k <= self.depth as nat,
                leaf_index < self.number_of_leaves,
                empty == self.path_hasher.spec_empty(),
                siblings@.len() == k,
                start == self.digests()[leaf_index as int],
                fold_path(self.path_hasher, start, siblings@, leaf_index as nat) == pad_fold(
                    self.path_hasher,
                    self.spec_top(),
                    (k - d) as nat,
                ),
            decreases self.depth as int - k,
        {
            proof {
                lemma_fold_path_push(
                    self.path_hasher,
                    start,
                    siblings@,
                    leaf_index as nat,
                    empty,
                );
                lemma_pow2_le(d as nat, k as nat);
                vstd::arithmetic::div_mod::lemma_basic_div(
                    leaf_index as int,
                    pow2(k as nat) as int,
                );
            }
            siblings.push(empty);
            k = k + 1;
        }
        Ok(MerkleProof { leaf_index, siblings })
    }
}

/// Digests every leaf independently, in order.
fn hash_leaves<LH: LeafHash>(leaf_hasher: &LH, leaves: &Vec<LH::Leaf>) -> (digests: Vec<Digest>)
    ensures
        digests@ == leaves@.map(|i: int, leaf: LH::Leaf| leaf_hasher.spec_hash(leaf)),
{
    let mut digests: Vec<Digest> = Vec::new();
    let mut i: usize = 0;
    while i < leaves.len()
        invariant
            i <= leaves@.len(),
            digests@.len() == i,
            forall|j: int| 0 <= j < i ==> digests@[j] == leaf_hasher.spec_hash(leaves@[j]),
        decreases leaves@.len() - i,
    {
        digests.push(leaf_hasher.hash(&leaves[i]));
        i = i + 1;
    }
    proof {
        assert(digests@ =~= leaves@.map(|i: int, leaf: LH::Leaf| leaf_hasher.spec_hash(leaf)));
    }
    digests
}

/// Builds the dense region of depth `d` over the given leaf digests: writes
/// the digests into the leaf level, pads the vacant slots with the empty
/// digest, and reduces level by level upward, each parent the combination of
/// its two children.
fn build_dense<PH: PathHash>(path_hasher: &PH, digests: &Vec<Digest>, d: usize) -> (arr: Vec<
    Digest,
>)
    requires
        1 <= d <= 30,
        digests@.len() <= pow2(d as nat),
    ensures
        arr@.len() == 2 * pow2(d as nat) - 1,
        dense_correct(
            *path_hasher,
            arr@,
            padded_seq(*path_hasher, digests@, d as nat),
            d as nat,
        ),
        arr@.subrange(pow2(d as nat) - 1, pow2(d as nat) - 1 + digests@.len()) == digests@,
{
    let ghost lvs = padded_seq(*path_hasher, digests@, d as nat);
    let cap = pow2_exec(d);
    let empty = path_hasher.hash_empty();
    let n = digests.len();
    proof {
        lemma_pow2_pos(d as nat);
        lemma2_to64();
        lemma_pow2_le(d as nat, 30);
    }
    let size = 2 * cap - 1;
    let mut arr: Vec<Digest> = Vec::new();
    while arr.len() < size
        invariant
            arr@.len() <= size,
            empty == path_hasher.spec_empty(),
            forall|j: int| 0 <= j < arr@.len() ==> arr@[j] == path_hasher.spec_empty(),
        decreases size - arr@.len(),
    {
        arr.push(empty);
    }
    let mut i: usize = 0;
    while i < n
        invariant
            i <= n == digests@.len() <= pow2(d as nat),
            cap == pow2(d as nat),
            arr@.len() == size == 2 * pow2(d as nat) - 1,
            forall|j: int| 0 <= j < i ==> arr@[cap - 1 + j] == digests@[j],
            forall|j: int|
                0 <= j < arr@.len() && !(cap - 1 <= j < cap - 1 + i) ==> arr@[j]
                    == path_hasher.spec_empty(),
        decreases n - i,
    {
        arr.set(cap - 1 + i, digests[i]);
        i = i + 1;
    }
    // The leaf level now holds exactly the padded digest sequence.
    assert forall|position: nat| position < pow2(d as nat) implies node_correct(
        *path_hasher,
        arr@,
        lvs,
        d as nat,
        d as nat,
        position,
    ) by {
        assert(lvs[position as int] == if position < n {
            digests@[position as int]
        } else {
            path_hasher.spec_empty()
        });
        lemma_leaf_node_correct(*path_hasher, arr@, lvs, d as nat, position);
    }
    let mut level: usize = d;
    while level > 0
        invariant
            level <= d <= 30,
            cap == pow2(d as nat),
            arr@.len() == size == 2 * pow2(d as nat) - 1,
            lvs.len() == pow2(d as nat),
            lvs == padded_seq(*path_hasher, digests@, d as nat),
            forall|ell: nat, m: nat|
                level as nat <= ell <= d as nat && m < pow2(ell) ==> #[trigger] node_correct(
                    *path_hasher,
                    arr@,
                    lvs,
                    d as nat,
                    ell,
                    m,
                ),
        decreases level,
    {
        level = level - 1;
        let width = pow2_exec(level);
        let mut m: usize = 0;
        proof {
            lemma_pow2_unfold((level + 1) as nat);
            lemma_pow2_le((level + 1) as nat, d as nat);
        }
        while m < width
            invariant
                level < d <= 31,
                cap == pow2(d as nat),
                width == pow2(level as nat),
                2 * width <= pow2(d as nat),
                m <= width,
                arr@.len() == size == 2 * pow2(d as nat) - 1,
                lvs.len() == pow2(d as nat),
                lvs == padded_seq(*path_hasher, digests@, d as nat),
                forall|ell: nat, mm: nat|
                    (level as nat) + 1 <= ell <= d as nat && mm < pow2(ell)
                        ==> #[trigger] node_correct(*path_hasher, arr@, lvs, d as nat, ell, mm),
                forall|mm: nat|
                    mm < m ==> #[trigger] node_correct(
                        *path_hasher,
                        arr@,
                        lvs,
                        d as nat,
                        level as nat,
                        mm,
                    ),
            decreases width - m,
        {
            let parent = width - 1 + m;
            let combined = path_hasher.combine(&arr[2 * parent + 1], &arr[2 * parent + 2]);
            proof {
                lemma_pow2_unfold((level + 1) as nat);
                assert(node_index((level + 1) as nat, (2 * m) as nat) == 2 * parent + 1);
                assert(node_index((level + 1) as nat, (2 * m + 1) as nat) == 2 * parent + 2);
                assert(node_correct(
                    *path_hasher,
                    arr@,
                    lvs,
                    d as nat,
                    (level + 1) as nat,
                    (2 * m) as nat,
                ));
                assert(node_correct(
                    *path_hasher,
                    arr@,
                    lvs,
                    d as nat,
                    (level + 1) as nat,
                    (2 * m + 1) as nat,
                ));
                lemma_subtree_hash_split(*path_hasher, lvs, d as nat, level as nat, m as nat);
            }
            let ghost before = arr@;
            arr.set(parent, combined);
            proof {
                assert forall|ell: nat, mm: nat|
                    ((level as nat) + 1 <= ell <= d as nat && mm < pow2(ell)) || (ell
                        == level as nat && mm < m + 1) implies #[trigger] node_correct(
                    *path_hasher,
                    arr@,
                    lvs,
                    d as nat,
                    ell,
                    mm,
                ) by {
                    lemma_node_index_bounds(d as nat, ell, mm);
                    lemma_node_index_bounds(d as nat, level as nat, m as nat);
                    lemma_pow2_le((level + 1) as nat, if ell >= level + 1 {
                        ell
                    } else {
                        (level + 1) as nat
                    });
                    if ell == level as nat && mm == m as nat {
                    } else {
                        assert(node_index(ell, mm) != parent);
                        assert(arr@[node_index(ell, mm)] == before[node_index(ell, mm)]);
                        assert(node_correct(*path_hasher, before, lvs, d as nat, ell, mm));
                    }
                }
            }
            m = m + 1;
        }
    }
    proof {
        assert forall|position: int| 0 <= position < digests@.len() implies arr@[pow2(d as nat)
            - 1 + position] == digests@[position] by {
            lemma_leaf_node_correct(*path_hasher, arr@, lvs, d as nat, position as nat);
            assert(node_correct(
                *path_hasher,
                arr@,
                lvs,
                d as nat,
                d as nat,
                position as nat,
            ));
        }
        assert(arr@.subrange(pow2(d as nat) - 1, pow2(d as nat) - 1 + digests@.len())
            =~= digests@);
    }
    arr
}

/// Copies a digest vector.
fn copy_digests(source: &Vec<Digest>) -> (copy: Vec<Digest>)
    ensures
        copy@ == source@,
{
    let mut copy: Vec<Digest> = Vec::new();
    let mut i: usize = 0;
    while i < source.len()
        invariant
            i <= source@.len(),
            copy@ == source@.subrange(0, i as int),
        decreases source@.len() - i,
    {
        copy.push(source[i]);
        proof {
            assert(copy@ =~= source@.subrange(0, i + 1));
        }
        i = i + 1;
    }
    proof {
        assert(source@.subrange(0, source@.len() as int) =~= source@);
    }
    copy
}

/// Copies a padding chain.
fn copy_pairs(source: &Vec<(Digest, Digest)>) -> (copy: Vec<(Digest, Digest)>)
    ensures
        copy@ == source@,
{
    let mut copy: Vec<(Digest, Digest)> = Vec::new();
    let mut i: usize = 0;
    while i < source.len()
        invariant
            i <= source@.len(),
            copy@ == source@.subrange(0, i as int),
        decreases source@.len() - i,
    {
        copy.push(source[i]);
        proof {
            assert(copy@ =~= source@.subrange(0, i + 1));
        }
        i = i + 1;
    }
    proof {
        assert(source@.subrange(0, source@.len() as int) =~= source@);
    }
    copy
}

/// Recomputes, level by level upward, every dense node whose window of
/// leaves meets `[lo_leaf, hi_leaf]`, combining its two children; every node
/// whose window lies outside that range must already be correct, and is left
/// untouched.
fn recompute_levels<PH: PathHash>(
    path_hasher: &PH,
    arr: &mut Vec<Digest>,
    d: usize,
    lo_leaf: usize,
    hi_leaf: usize,
    Ghost(lvs): Ghost<Seq<Digest>>,
)
    requires
        1 <= d <= 30,
        lo_leaf <= hi_leaf < pow2(d as nat),
        old(arr)@.len() == 2 * pow2(d as nat) - 1,
        lvs.len() == pow2(d as nat),
        forall|m: nat|
            m < pow2(d as nat) ==> #[trigger] node_correct(
                *path_hasher,
                old(arr)@,
                lvs,
                d as nat,
                d as nat,
                m,
            ),
        forall|ell: nat, m: nat|
            ell < d as nat && m < pow2(ell) && (m < lo_leaf as nat / pow2((d as nat - ell) as nat)
                || m > hi_leaf as nat / pow2((d as nat - ell) as nat)) ==> #[trigger] node_correct(
                *path_hasher,
                old(arr)@,
                lvs,
                d as nat,
                ell,
                m,
            ),
    ensures
        final(arr)@.len() == old(arr)@.len(),
        dense_correct(*path_hasher, final(arr)@, lvs, d as nat),
        forall|j: int|
            pow2(d as nat) - 1 <= j < 2 * pow2(d as nat) - 1 ==> final(arr)@[j] == old(arr)@[j],
{
    let ghost arr0 = arr@;
    let mut level: usize = d;
    while level > 0
        invariant
            1 <= d <= 30,
            level <= d,
            lo_leaf <= hi_leaf < pow2(d as nat),
            arr@.len() == arr0.len() == 2 * pow2(d as nat) - 1,
            lvs.len() == pow2(d as nat),
            forall|ell: nat, mm: nat|
                level as nat <= ell <= d as nat && mm < pow2(ell) ==> #[trigger] node_correct(
                    *path_hasher,
                    arr@,
                    lvs,
                    d as nat,
                    ell,
                    mm,
                ),
            forall|ell: nat, m: nat|
                ell < d as nat && m < pow2(ell) && (m < lo_leaf as nat / pow2(
                    (d as nat - ell) as nat,
                ) || m > hi_leaf as nat / pow2((d as nat - ell) as nat))
                    ==> #[trigger] node_correct(*path_hasher, arr0, lvs, d as nat, ell, m),
            forall|j: int| 0 <= j < pow2(level as nat) - 1 ==> arr@[j] == arr0[j],
            forall|j: int| pow2(d as nat) - 1 <= j < arr@.len() ==> arr@[j] == arr0[j],
        decreases level,
    {
        level = level - 1;
        let shift = d - level;
        let divisor = pow2_exec(shift);
        proof {
            lemma_pow2_pos(shift as nat);
        }
        let lo = lo_leaf / divisor;
        let hi = hi_leaf / divisor;
        let width = pow2_exec(level);
        proof {
            lemma2_to64();
            lemma_pow2_pos(level as nat);
            lemma_pow2_le(level as nat, 30);
            lemma_pow2_le(d as nat, 30);
            lemma_pow2_unfold((level + 1) as nat);
            lemma_pow2_le((level + 1) as nat, d as nat);
            vstd::arithmetic::div_mod::lemma_div_is_ordered(
                lo_leaf as int,
                hi_leaf as int,
                divisor as int,
            );
            assert(hi < width) by {
                vstd::arithmetic::power2::lemma_pow2_adds(level as nat, shift as nat);
                vstd::arithmetic::div_mod::lemma_multiply_divide_lt(
                    hi_leaf as int,
                    divisor as int,
                    width as int,
                );
                vstd::arithmetic::mul::lemma_mul_is_commutative(divisor as int, width as int);
            }
        }
        let mut m: usize = lo;
        while m <= hi
            invariant
                1 <= d <= 30,
                level < d,
                shift == d - level,
                divisor == pow2(shift as nat),
                width == pow2(level as nat),
                2 * width <= pow2(d as nat),
                lo == lo_leaf as nat / pow2(shift as nat),
                hi == hi_leaf as nat / pow2(shift as nat),
                lo <= m <= hi + 1,
                hi < width,
                1 <= width,
                pow2(d as nat) <= 0x40000000,
                lo_leaf <= hi_leaf < pow2(d as nat),
                arr@.len() == arr0.len() == 2 * pow2(d as nat) - 1,
                lvs.len() == pow2(d as nat),
                forall|ell: nat, mm: nat|
                    (level as nat) + 1 <= ell <= d as nat && mm < pow2(ell)
                        ==> #[trigger] node_correct(*path_hasher, arr@, lvs, d as nat, ell, mm),
                forall|mm: nat|
                    lo as nat <= mm < m ==> #[trigger] node_correct(
                        *path_hasher,
                        arr@,
                        lvs,
                        d as nat,
                        level as nat,
                        mm,
                    ),
                forall|ell: nat, mm: nat|
                    ell < d as nat && mm < pow2(ell) && (mm < lo_leaf as nat / pow2(
                        (d as nat - ell) as nat,
                    ) || mm > hi_leaf as nat / pow2((d as nat - ell) as nat))
                        ==> #[trigger] node_correct(*path_hasher, arr0, lvs, d as nat, ell, mm),
                forall|j: int|
                    0 <= j < pow2((level + 1) as nat) - 1 && !(width - 1 + lo <= j < width - 1
                        + m) ==> arr@[j] == arr0[j],
                forall|j: int| pow2(d as nat) - 1 <= j < arr@.len() ==> arr@[j] == arr0[j],
            decreases hi + 1 - m,
        {
            let parent = width - 1 + m;
            proof {
                lemma_pow2_unfold((level + 1) as nat);
                lemma_node_index_bounds(d as nat, level as nat, m as nat);
                lemma_node_index_bounds(d as nat, (level + 1) as nat, (2 * m) as nat);
                lemma_node_index_bounds(d as nat, (level + 1) as nat, (2 * m + 1) as nat);
            }
            let combined = path_hasher.combine(&arr[2 * parent + 1], &arr[2 * parent + 2]);
            proof {
                assert(node_index((level + 1) as nat, (2 * m) as nat) == 2 * parent + 1);
                assert(node_index((level + 1) as nat, (2 * m + 1) as nat) == 2 * parent + 2);
                assert(node_correct(
                    *path_hasher,
                    arr@,
                    lvs,
                    d as nat,
                    (level + 1) as nat,
                    (2 * m) as nat,
                ));
                assert(node_correct(
                    *path_hasher,
                    arr@,
                    lvs,
                    d as nat,
                    (level + 1) as nat,
                    (2 * m + 1) as nat,
                ));
                lemma_subtree_hash_split(*path_hasher, lvs, d as nat, level as nat, m as nat);
            }
            let ghost before = arr@;
            arr.set(parent, combined);
            proof {
                assert(node_correct(*path_hasher, arr@, lvs, d as nat, level as nat, m as nat));
                assert forall|ell: nat, mm: nat|
                    (level as nat) + 1 <= ell <= d as nat && mm < pow2(ell)
                        implies #[trigger] node_correct(
                    *path_hasher,
                    arr@,
                    lvs,
                    d as nat,
                    ell,
                    mm,
                ) by {
                    lemma_node_index_bounds(d as nat, ell, mm);
                    lemma_pow2_le((level + 1) as nat, ell);
                    assert(node_index(ell, mm) != parent);
                    assert(arr@[node_index(ell, mm)] == before[node_index(ell, mm)]);
                    assert(node_correct(*path_hasher, before, lvs, d as nat, ell, mm));
                }
                assert forall|mm: nat| lo as nat <= mm < m + 1 implies #[trigger] node_correct(
                    *path_hasher,
                    arr@,
                    lvs,
                    d as nat,
                    level as nat,
                    mm,
                ) by {
                    if mm < m {
                        assert(node_index(level as nat, mm) != parent);
                        assert(node_correct(*path_hasher, before, lvs, d as nat, level as nat, mm));
                    }
                }
            }
            m = m + 1;
        }
        proof {
            // Every node of this level outside the recomputed span kept its
            // prior, already-correct value.
            assert forall|ell: nat, mm: nat|
                level as nat <= ell <= d as nat && mm < pow2(ell) implies #[trigger] node_correct(
                *path_hasher,
                arr@,
                lvs,
                d as nat,
                ell,
                mm,
            ) by {
                if ell == level as nat && (mm < lo as nat || mm > hi as nat) {
                    lemma_node_index_bounds(d as nat, ell, mm);
                    assert(arr@[node_index(ell, mm)] == arr0[node_index(ell, mm)]);
                    assert(node_correct(*path_hasher, arr0, lvs, d as nat, ell, mm));
                }
            }
        }
    }
    proof {
        assert(dense_correct(*path_hasher, arr@, lvs, d as nat));
    }
}

/// Builds the padding chain over a dense top entry: one entry per requested
/// level, each combining the previous entry's combination with the empty
/// digest.
fn build_chain<PH: PathHash>(path_hasher: &PH, top: Digest, levels: usize) -> (chain: Vec<
    (Digest, Digest),
>)
    ensures
        chain@.len() == levels,
        chain_correct(*path_hasher, chain@, top),
{
    let empty = path_hasher.hash_empty();
    let mut chain: Vec<(Digest, Digest)> = Vec::new();
    let mut previous = top;
    let mut k: usize = 0;
    while k < levels
        invariant
            k == chain@.len() <= levels,
            empty == path_hasher.spec_empty(),
            previous == pad_fold(*path_hasher, top, k as nat),
            chain_correct(*path_hasher, chain@, top),
        decreases levels - k,
    {
        let combined = path_hasher.combine(&previous, &empty);
        chain.push((combined, empty));
        previous = combined;
        k = k + 1;
    }
    chain
}

} // verus!
