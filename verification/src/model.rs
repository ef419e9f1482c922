//! The mathematical model of the tree.
//!
//! Everything the public contracts say is said in terms of this module: the
//! effective depth covering a leaf count, the dense region as a heap-laid-out
//! array whose every node carries the hash of its window of padded leaves,
//! and the padding chain folding the dense top toward the declared depth.

use vstd::prelude::*;

use vstd::arithmetic::div_mod::{lemma_div_denominator, lemma_fundamental_div_mod};
use vstd::arithmetic::mul::lemma_mul_inequality;
use vstd::arithmetic::power2::{
    lemma2_to64, lemma_pow2_adds, lemma_pow2_strictly_increases, lemma_pow2_unfold, pow2,
};

use crate::digest::Digest;
use crate::hash::PathHash;

verus! {

// ------------------------------------------------------------------
// Powers of two
// ------------------------------------------------------------------
/// Powers of two are monotone.
pub proof fn lemma_pow2_le(e1: nat, e2: nat)
    requires
        e1 <= e2,
    ensures
        pow2(e1) <= pow2(e2),
{
    if e1 < e2 {
        lemma_pow2_strictly_increases(e1, e2);
    }
}

/// A power of two below another exponent's power has the smaller exponent.
pub proof fn lemma_pow2_lt_inverse(e1: nat, e2: nat)
    requires
        pow2(e1) < pow2(e2),
    ensures
        e1 < e2,
{
    if e1 >= e2 {
        lemma_pow2_le(e2, e1);
    }
}

/// Computes `pow2(e)` for the exponents a dense tree of this crate can need.
pub fn pow2_exec(e: usize) -> (p: usize)
    requires
        e <= 31,
    ensures
        p == pow2(e as nat),
{
    let mut p: usize = 1;
    let mut i: usize = 0;
    proof {
        lemma2_to64();
    }
    while i < e
        invariant
            i <= e <= 31,
            p == pow2(i as nat),
        decreases e - i,
    {
        proof {
            lemma_pow2_le(i as nat, 30);
            lemma2_to64();
            lemma_pow2_unfold((i + 1) as nat);
        }
        p = p * 2;
        i = i + 1;
    }
    p
}

// ------------------------------------------------------------------
// Effective depth
// ------------------------------------------------------------------
/// The ceiling of the base-two logarithm: the smallest exponent whose power
/// of two covers `n`.
pub open spec fn clog2(n: nat) -> nat
    decreases n,
{
    if n <= 1 {
        0
    } else {
        1 + clog2(((n + 1) / 2) as nat)
    }
}

/// `clog2` covers its argument.
pub proof fn lemma_clog2_covers(n: nat)
    ensures
        pow2(clog2(n)) >= n,
    decreases n,
{
    if n <= 1 {
        lemma2_to64();
    } else {
        let m = ((n + 1) / 2) as nat;
        lemma_clog2_covers(m);
        lemma_pow2_unfold(clog2(n));
        assert(2 * m >= n) by {
            lemma_fundamental_div_mod((n + 1) as int, 2);
        }
    }
}

/// `clog2` is the smallest covering exponent.
pub proof fn lemma_clog2_minimal(n: nat, k: nat)
    requires
        n <= pow2(k),
    ensures
        clog2(n) <= k,
    decreases n,
{
    if n <= 1 {
    } else {
        let m = ((n + 1) / 2) as nat;
        assert(k >= 1) by {
            lemma2_to64();
            if k == 0 {
            }
        }
        assert(m <= pow2((k - 1) as nat)) by {
            lemma_pow2_unfold(k);
            lemma_fundamental_div_mod((n + 1) as int, 2);
        }
        lemma_clog2_minimal(m, (k - 1) as nat);
    }
}

/// The smallest depth whose dense capacity covers `n` leaves; at least one
/// level always exists, even in an empty tree.
pub open spec fn effective_depth(n: nat) -> nat {
    if clog2(n) < 1 {
        1
    } else {
        clog2(n)
    }
}

/// The effective depth covers the leaf count, and is positive.
pub proof fn lemma_effective_depth_covers(n: nat)
    ensures
        pow2(effective_depth(n)) >= n,
        effective_depth(n) >= 1,
{
    lemma_clog2_covers(n);
    if clog2(n) < 1 {
        lemma2_to64();
    }
}

/// Any depth that covers the leaf count bounds the effective depth.
pub proof fn lemma_effective_depth_le(n: nat, d: nat)
    requires
        n <= pow2(d),
        d >= 1,
    ensures
        effective_depth(n) <= d,
{
    lemma_clog2_minimal(n, d);
}

/// The effective depth grows with the leaf count.
pub proof fn lemma_effective_depth_mono(n1: nat, n2: nat)
    requires
        n1 <= n2,
    ensures
        effective_depth(n1) <= effective_depth(n2),
{
    lemma_clog2_covers(n2);
    lemma_clog2_minimal(n1, clog2(n2));
}

/// A depth that covers the leaf count, and whose predecessor does not, is
/// exactly the effective depth.
pub proof fn lemma_effective_depth_unique(n: nat, d: nat)
    requires
        d >= 1,
        pow2(d) >= n,
        d > 1 ==> pow2((d - 1) as nat) < n,
    ensures
        d == effective_depth(n),
{
    lemma_clog2_minimal(n, d);
    if d > 1 {
        lemma_clog2_covers(n);
        if clog2(n) <= d - 1 {
            lemma_pow2_le(clog2(n), (d - 1) as nat);
        }
    }
}

/// Computes the effective depth of a leaf count.
pub fn effective_depth_exec(n: usize) -> (d: usize)
    requires
        n <= pow2(30),
    ensures
        d == effective_depth(n as nat),
        1 <= d <= 30,
{
    let mut d: usize = 1;
    let mut cap: usize = 2;
    proof {
        lemma2_to64();
    }
    while cap < n
        invariant
            1 <= d <= 30,
            cap == pow2(d as nat),
            n <= pow2(30),
            d > 1 ==> pow2((d - 1) as nat) < n,
        decreases pow2(31) - cap,
    {
        proof {
            lemma2_to64();
            assert(cap < 0x40000000);
            if d >= 30 {
                lemma_pow2_le(30, d as nat);
            }
            lemma_pow2_unfold((d + 1) as nat);
            lemma_pow2_le((d + 1) as nat, 32);
            vstd::arithmetic::power2::lemma_pow2_pos(d as nat);
        }
        d = d + 1;
        cap = cap * 2;
    }
    proof {
        lemma_effective_depth_unique(n as nat, d as nat);
    }
    d
}

// ------------------------------------------------------------------
// The dense region
// ------------------------------------------------------------------
/// A digest sequence padded on the right with the empty digest up to the
/// capacity of a dense region of depth `d`.
pub open spec fn padded_seq<PH: PathHash>(ph: PH, digests: Seq<Digest>, d: nat) -> Seq<Digest> {
    digests + Seq::new((pow2(d) - digests.len()) as nat, |i: int| ph.spec_empty())
}


/// The array slot of the node at `position` within `level` of a dense tree
/// laid out as an implicit binary heap: level 0 is the single top entry, and
/// the children of slot `i` are `2i + 1` and `2i + 2`.
pub open spec fn node_index(level: nat, position: nat) -> int {
    pow2(level) - 1 + position
}

/// The window of padded leaf digests under the node at `(level, position)`
/// of a dense tree of depth `d` over the padded leaf sequence `leaves`.
pub open spec fn node_window(leaves: Seq<Digest>, d: nat, level: nat, position: nat) -> Seq<
    Digest,
> {
    leaves.subrange(
        position as int * pow2((d - level) as nat) as int,
        (position + 1) as int * pow2((d - level) as nat) as int,
    )
}

/// The brute-force hash of a complete subtree of the given height over a
/// window of `pow2(height)` leaf digests: a lone digest at height zero, and
/// the combination of the two half-window hashes above that.
pub open spec fn subtree_hash<PH: PathHash>(ph: PH, window: Seq<Digest>, height: nat) -> Digest
    decreases height,
{
    if height == 0 {
        window[0]
    } else {
        let half = pow2((height - 1) as nat) as int;
        ph.spec_combine(
            subtree_hash(ph, window.subrange(0, half), (height - 1) as nat),
            subtree_hash(ph, window.subrange(half, 2 * half), (height - 1) as nat),
        )
    }
}

/// Whether the array entry for the node at `(level, position)` holds exactly
/// the hash of its window of padded leaves.
pub open spec fn node_correct<PH: PathHash>(
    ph: PH,
    arr: Seq<Digest>,
    leaves: Seq<Digest>,
    d: nat,
    level: nat,
    position: nat,
) -> bool {
    arr[node_index(level, position)] == subtree_hash(
        ph,
        node_window(leaves, d, level, position),
        (d - level) as nat,
    )
}

/// Whether every node of the dense region is correct: invariant of every
/// tree this crate builds.
pub open spec fn dense_correct<PH: PathHash>(
    ph: PH,
    arr: Seq<Digest>,
    leaves: Seq<Digest>,
    d: nat,
) -> bool {
    forall|level: nat, position: nat|
        level <= d && position < pow2(level) ==> #[trigger] node_correct(
            ph,
            arr,
            leaves,
            d,
            level,
            position,
        )
}

/// A node's slot lies within its level's slice of the array, and within the
/// array of a dense tree of depth `d`.
pub proof fn lemma_node_index_bounds(d: nat, level: nat, position: nat)
    requires
        level <= d,
        position < pow2(level),
    ensures
        pow2(level) - 1 <= node_index(level, position) < pow2((level + 1) as nat) - 1,
        0 <= node_index(level, position) < 2 * pow2(d) - 1,
{
    lemma_pow2_unfold((level + 1) as nat);
    lemma_pow2_le((level + 1) as nat, (d + 1) as nat);
    lemma_pow2_unfold((d + 1) as nat);
}

/// A node's window lies within the padded leaf sequence.
pub proof fn lemma_node_window_bounds(d: nat, level: nat, position: nat)
    requires
        level <= d,
        position < pow2(level),
    ensures
        0 <= position * pow2((d - level) as nat),
        (position + 1) * pow2((d - level) as nat) <= pow2(d),
        position * pow2((d - level) as nat) + pow2((d - level) as nat) == (position + 1) * pow2(
            (d - level) as nat,
        ),
{
    let h = (d - level) as nat;
    vstd::arithmetic::mul::lemma_mul_nonnegative(position as int, pow2(h) as int);
    lemma_mul_inequality((position + 1) as int, pow2(level) as int, pow2(h) as int);
    lemma_pow2_adds(level, h);
    assert(position * pow2(h) + pow2(h) == (position + 1) * pow2(h)) by {
        vstd::arithmetic::mul::lemma_mul_is_distributive_add_other_way(
            pow2(h) as int,
            position as int,
            1,
        );
    }
}

/// The hash of a node's window is the combination of the hashes of its two
/// children's windows.
pub proof fn lemma_subtree_hash_split<PH: PathHash>(
    ph: PH,
    leaves: Seq<Digest>,
    d: nat,
    level: nat,
    position: nat,
)
    requires
        level < d,
        position < pow2(level),
        leaves.len() == pow2(d),
    ensures
        subtree_hash(ph, node_window(leaves, d, level, position), (d - level) as nat)
            == ph.spec_combine(
            subtree_hash(
                ph,
                node_window(leaves, d, (level + 1) as nat, 2 * position),
                (d - level - 1) as nat,
            ),
            subtree_hash(
                ph,
                node_window(leaves, d, (level + 1) as nat, 2 * position + 1),
                (d - level - 1) as nat,
            ),
        ),
{
    let h = (d - level) as nat;
    let hc = (h - 1) as nat;
    let w = node_window(leaves, d, level, position);
    let lo = position * pow2(h);
    lemma_pow2_unfold(h);
    assert(2 * position + 1 < pow2((level + 1) as nat)) by {
        lemma_pow2_unfold((level + 1) as nat);
    }
    lemma_node_window_bounds(d, level, position);
    lemma_node_window_bounds(d, (level + 1) as nat, 2 * position);
    lemma_node_window_bounds(d, (level + 1) as nat, 2 * position + 1);
    assert(lo == 2 * position * pow2(hc) && lo + pow2(hc) == (2 * position + 1) * pow2(hc) && lo
        + 2 * pow2(hc) == (2 * position + 2) * pow2(hc)) by {
        lemma_pow2_unfold(h);
        assert(position * (2 * pow2(hc)) == 2 * position * pow2(hc)) by (nonlinear_arith);
        assert((2 * position + 1) * pow2(hc) == 2 * position * pow2(hc) + pow2(hc))
            by (nonlinear_arith);
        assert((2 * position + 2) * pow2(hc) == 2 * position * pow2(hc) + 2 * pow2(hc))
            by (nonlinear_arith);
    }
    assert(w.subrange(0, pow2(hc) as int) =~= node_window(
        leaves,
        d,
        (level + 1) as nat,
        2 * position,
    ));
    assert(w.subrange(pow2(hc) as int, 2 * pow2(hc) as int) =~= node_window(
        leaves,
        d,
        (level + 1) as nat,
        2 * position + 1,
    ));
}

/// At the leaf level, a node is correct exactly when its slot holds its
/// padded leaf digest.
pub proof fn lemma_leaf_node_correct<PH: PathHash>(
    ph: PH,
    arr: Seq<Digest>,
    leaves: Seq<Digest>,
    d: nat,
    position: nat,
)
    requires
        position < pow2(d),
        leaves.len() == pow2(d),
    ensures
        node_correct(ph, arr, leaves, d, d, position) == (arr[node_index(d, position)]
            == leaves[position as int]),
{
    lemma2_to64();
    vstd::arithmetic::mul::lemma_mul_basics(position as int);
    vstd::arithmetic::mul::lemma_mul_basics((position + 1) as int);
    assert(node_window(leaves, d, d, position) =~= leaves.subrange(
        position as int,
        position + 1 as int,
    ));
}

/// The level a heap slot belongs to.
pub open spec fn level_of(slot: nat) -> nat
    decreases slot,
{
    if slot == 0 {
        0
    } else {
        1 + level_of(((slot - 1) / 2) as nat)
    }
}

/// Every heap slot lies within its level's slice of the array, so every slot
/// of a dense tree's array is some node's slot.
pub proof fn lemma_level_of_bounds(slot: nat)
    ensures
        pow2(level_of(slot)) - 1 <= slot < pow2((level_of(slot) + 1) as nat) - 1,
    decreases slot,
{
    lemma2_to64();
    if slot > 0 {
        let parent = ((slot - 1) / 2) as nat;
        lemma_level_of_bounds(parent);
        lemma_fundamental_div_mod((slot - 1) as int, 2);
        lemma_pow2_unfold((level_of(parent) + 1) as nat);
        lemma_pow2_unfold((level_of(parent) + 2) as nat);
    }
}

// ------------------------------------------------------------------
// The padding chain
// ------------------------------------------------------------------
/// The digest reached from `digest` by `count` combinations with the empty
/// digest, always on the right: the value of each padding level above the
/// dense region, and finally of the root itself.
pub open spec fn pad_fold<PH: PathHash>(ph: PH, digest: Digest, count: nat) -> Digest
    decreases count,
{
    if count == 0 {
        digest
    } else {
        ph.spec_combine(pad_fold(ph, digest, (count - 1) as nat), ph.spec_empty())
    }
}

/// Whether a padding chain is exactly the successive paddings of the dense
/// region's top entry, each paired with the empty digest it was combined
/// with.
pub open spec fn chain_correct<PH: PathHash>(
    ph: PH,
    chain: Seq<(Digest, Digest)>,
    top: Digest,
) -> bool {
    forall|k: int|
        0 <= k < chain.len() ==> (#[trigger] chain[k]).0 == pad_fold(ph, top, (k + 1) as nat)
            && chain[k].1 == ph.spec_empty()
}

// ------------------------------------------------------------------
// Division helpers
// ------------------------------------------------------------------
/// Halving a quotient by a power of two divides by the next power.
pub proof fn lemma_div_pow2_step(i: nat, k: nat)
    ensures
        (i / pow2(k)) / 2 == i / pow2((k + 1) as nat),
{
    lemma2_to64();
    vstd::arithmetic::power2::lemma_pow2_pos(k);
    lemma_pow2_adds(k, 1);
    lemma_div_denominator(i as int, pow2(k) as int, 2);
}

/// A position strictly below a lower quotient bounds its window below the
/// dividend; one strictly above an upper quotient starts past it.
pub proof fn lemma_quotient_window(x: nat, s: nat, m: nat)
    ensures
        m < x / pow2(s) ==> (m + 1) * pow2(s) <= x,
        m > x / pow2(s) ==> x < m * pow2(s),
{
    vstd::arithmetic::power2::lemma_pow2_pos(s);
    let p = pow2(s) as int;
    lemma_fundamental_div_mod(x as int, p);
    vstd::arithmetic::div_mod::lemma_mod_division_less_than_divisor(x as int, p);
    if m < x / pow2(s) {
        lemma_mul_inequality((m + 1) as int, (x / pow2(s)) as int, p);
    }
    if m > x / pow2(s) {
        lemma_mul_inequality((x / pow2(s) + 1) as int, m as int, p);
        vstd::arithmetic::mul::lemma_mul_is_distributive_add_other_way(
            p,
            (x / pow2(s)) as int,
            1,
        );
    }
}

} // verus!
