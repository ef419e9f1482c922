//! End-to-end checks of the incremental Merkle tree: construction, proofs,
//! appends, and the exact node layout at small depths.

use incremental_merkle::digest::Digest;
use incremental_merkle::hash::{LeafHash, PathHash};
use incremental_merkle::mix::{MixLeafHasher, MixPathHasher};
use incremental_merkle::tree::{MerkleTree, TreeError};

const ITERATIONS: u128 = 10;

/// A small deterministic generator for leaf values.
struct Lcg(u64);

impl Lcg {
    fn new(seed: u64) -> Lcg {
        Lcg(seed)
    }

    fn next_value(&mut self) -> u64 {
        self.0 = self
            .0
            .wrapping_mul(6364136223846793005)
            .wrapping_add(1442695040888963407);
        self.0
    }

    fn leaves(&mut self, count: usize) -> Vec<u64> {
        (0..count).map(|_| self.next_value()).collect()
    }
}

/// Runs the following test:
/// 1. Construct the Merkle tree for the leaves.
/// 2. Check that the Merkle proof for every leaf is valid.
/// 3. Add the additional leaves to the Merkle tree.
/// 4. Check that the Merkle proof for every additional leaf is valid.
fn check_merkle_tree(
    leaf_hasher: &MixLeafHasher,
    path_hasher: &MixPathHasher,
    leaves: &Vec<u64>,
    additional_leaves: &Vec<u64>,
    depth: u8,
    rng: &mut Lcg,
) -> Result<(), TreeError> {
    // Construct the Merkle tree for the given leaves.
    let merkle_tree = MerkleTree::new(leaf_hasher, path_hasher, leaves, depth)?;
    assert_eq!(leaves.len(), merkle_tree.number_of_leaves);

    // Check each leaf in the Merkle tree.
    if !leaves.is_empty() {
        for (leaf_index, leaf) in leaves.iter().enumerate() {
            // Compute a Merkle proof for the leaf.
            let proof = merkle_tree.prove(leaf_index, leaf)?;
            // Verify the Merkle proof succeeds.
            assert!(proof.verify(leaf_hasher, path_hasher, &merkle_tree.root(), leaf));
            // Verify the Merkle proof **fails** on an invalid root.
            assert!(!proof.verify(leaf_hasher, path_hasher, &Digest::new(0), leaf));
            assert!(!proof.verify(leaf_hasher, path_hasher, &Digest::new(1), leaf));
            assert!(!proof.verify(
                leaf_hasher,
                path_hasher,
                &Digest::new(rng.next_value()),
                leaf
            ));
        }
    }
    // If additional leaves are provided, check that the Merkle tree is consistent with them.
    if !additional_leaves.is_empty() {
        // Append additional leaves to the Merkle tree.
        let merkle_tree = merkle_tree.append(additional_leaves)?;
        // Check each additional leaf in the Merkle tree.
        for (leaf_index, leaf) in additional_leaves.iter().enumerate() {
            // Compute a Merkle proof for the leaf.
            let proof = merkle_tree.prove(leaves.len() + leaf_index, leaf)?;
            // Verify the Merkle proof succeeds.
            assert!(proof.verify(leaf_hasher, path_hasher, &merkle_tree.root(), leaf));
            // Verify the Merkle proof **fails** on an invalid root.
            assert!(!proof.verify(leaf_hasher, path_hasher, &Digest::new(0), leaf));
            assert!(!proof.verify(leaf_hasher, path_hasher, &Digest::new(1), leaf));
            assert!(!proof.verify(
                leaf_hasher,
                path_hasher,
                &Digest::new(rng.next_value()),
                leaf
            ));
        }
    }
    Ok(())
}

/// Runs the following test:
/// 1. Construct a depth-2 Merkle tree with 4 leaves.
/// 2. Checks that every node hash and the Merkle root is correct.
fn check_merkle_tree_depth_2(
    leaf_hasher: &MixLeafHasher,
    path_hasher: &MixPathHasher,
    leaves: &Vec<u64>,
) -> Result<(), TreeError> {
    assert_eq!(4, leaves.len(), "Depth-2 test requires 4 leaves");

    // Construct the Merkle tree for the given leaves.
    let merkle_tree = MerkleTree::new(leaf_hasher, path_hasher, leaves, 2)?;
    assert_eq!(7, merkle_tree.inner_tree.len());

    // Depth 2.
    let expected_leaf0 = leaf_hasher.hash(&leaves[0]);
    let expected_leaf1 = leaf_hasher.hash(&leaves[1]);
    let expected_leaf2 = leaf_hasher.hash(&leaves[2]);
    let expected_leaf3 = leaf_hasher.hash(&leaves[3]);
    assert_eq!(expected_leaf0, merkle_tree.inner_tree[3]);
    assert_eq!(expected_leaf1, merkle_tree.inner_tree[4]);
    assert_eq!(expected_leaf2, merkle_tree.inner_tree[5]);
    assert_eq!(expected_leaf3, merkle_tree.inner_tree[6]);

    // Depth 1.
    let expected_left = path_hasher.combine(&expected_leaf0, &expected_leaf1);
    let expected_right = path_hasher.combine(&expected_leaf2, &expected_leaf3);
    assert_eq!(expected_left, merkle_tree.inner_tree[1]);
    assert_eq!(expected_right, merkle_tree.inner_tree[2]);

    // Depth 0.
    let expected_root = path_hasher.combine(&expected_left, &expected_right);
    assert_eq!(expected_root, merkle_tree.inner_tree[0]);
    assert_eq!(expected_root, merkle_tree.root());
    Ok(())
}

/// Runs the following test:
/// 1. Construct a depth-3 Merkle tree with 4 leaves (leaving 4 leaves empty).
/// 2. Checks that every node hash and the Merkle root is correct.
/// 3. Add an additional leaf to the Merkle tree.
/// 4. Checks that every node hash and the Merkle root is correct.
fn check_merkle_tree_depth_3_padded(
    leaf_hasher: &MixLeafHasher,
    path_hasher: &MixPathHasher,
    leaves: &Vec<u64>,
    additional_leaves: &Vec<u64>,
) -> Result<(), TreeError> {
    assert_eq!(
        4,
        leaves.len(),
        "Padded depth-3 test requires 4 leaves (out of 8)"
    );
    assert_eq!(
        1,
        additional_leaves.len(),
        "Padded depth-3 test requires 1 additional leaf"
    );
    let hash_empty = path_hasher.hash_empty();

    // Construct the Merkle tree for the given leaves.
    let mut merkle_tree = MerkleTree::new(leaf_hasher, path_hasher, leaves, 3)?;
    assert_eq!(7, merkle_tree.inner_tree.len());
    assert_eq!(0, merkle_tree.padding_chain.len());

    // Depth 3.
    let expected_leaf0 = leaf_hasher.hash(&leaves[0]);
    let expected_leaf1 = leaf_hasher.hash(&leaves[1]);
    let expected_leaf2 = leaf_hasher.hash(&leaves[2]);
    let expected_leaf3 = leaf_hasher.hash(&leaves[3]);
    assert_eq!(expected_leaf0, merkle_tree.inner_tree[3]);
    assert_eq!(expected_leaf1, merkle_tree.inner_tree[4]);
    assert_eq!(expected_leaf2, merkle_tree.inner_tree[5]);
    assert_eq!(expected_leaf3, merkle_tree.inner_tree[6]);

    // Depth 2.
    let expected_left = path_hasher.combine(&expected_leaf0, &expected_leaf1);
    let expected_right = path_hasher.combine(&expected_leaf2, &expected_leaf3);
    assert_eq!(expected_left, merkle_tree.inner_tree[1]);
    assert_eq!(expected_right, merkle_tree.inner_tree[2]);

    // Depth 1.
    let expected_left = path_hasher.combine(&expected_left, &expected_right);
    let expected_right = hash_empty;
    assert_eq!(expected_left, merkle_tree.inner_tree[0]);

    // Depth 0.
    let expected_root = path_hasher.combine(&expected_left, &expected_right);
    assert_eq!(expected_root, merkle_tree.root());

    // ------------------------------------------------------------------ //
    // Check that the Merkle tree can be updated with the additional leaf.
    // ------------------------------------------------------------------ //

    // Rebuild the Merkle tree with the additional leaf.
    merkle_tree = merkle_tree.append(additional_leaves)?;
    assert_eq!(15, merkle_tree.inner_tree.len());
    assert_eq!(0, merkle_tree.padding_chain.len());
    assert_eq!(5, merkle_tree.number_of_leaves);

    // Depth 3.
    let expected_leaf4 = leaf_hasher.hash(&additional_leaves[0]);
    assert_eq!(expected_leaf0, merkle_tree.inner_tree[7]);
    assert_eq!(expected_leaf1, merkle_tree.inner_tree[8]);
    assert_eq!(expected_leaf2, merkle_tree.inner_tree[9]);
    assert_eq!(expected_leaf3, merkle_tree.inner_tree[10]);
    assert_eq!(expected_leaf4, merkle_tree.inner_tree[11]);
    assert_eq!(hash_empty, merkle_tree.inner_tree[12]);
    assert_eq!(hash_empty, merkle_tree.inner_tree[13]);
    assert_eq!(hash_empty, merkle_tree.inner_tree[14]);

    // Depth 2.
    let expected_left0 = path_hasher.combine(&expected_leaf0, &expected_leaf1);
    let expected_right0 = path_hasher.combine(&expected_leaf2, &expected_leaf3);
    let expected_left1 = path_hasher.combine(&expected_leaf4, &hash_empty);
    let expected_right1 = path_hasher.combine(&hash_empty, &hash_empty);
    assert_eq!(expected_left0, merkle_tree.inner_tree[3]);
    assert_eq!(expected_right0, merkle_tree.inner_tree[4]);
    assert_eq!(expected_left1, merkle_tree.inner_tree[5]);
    assert_eq!(expected_right1, merkle_tree.inner_tree[6]);

    // Depth 1.
    let expected_left = path_hasher.combine(&expected_left0, &expected_right0);
    let expected_right = path_hasher.combine(&expected_left1, &expected_right1);
    assert_eq!(expected_left, merkle_tree.inner_tree[1]);
    assert_eq!(expected_right, merkle_tree.inner_tree[2]);

    // Depth 0.
    let expected_root = path_hasher.combine(&expected_left, &expected_right);
    assert_eq!(expected_root, merkle_tree.root());
    Ok(())
}

/// Runs the following test:
/// 1. Construct a depth-4 Merkle tree with 4 leaves (leaving 12 leaves empty).
/// 2. Checks that every node hash and the Merkle root is correct.
/// 3. Appends two further leaves, one at a time, re-checking every node.
fn check_merkle_tree_depth_4_padded(
    leaf_hasher: &MixLeafHasher,
    path_hasher: &MixPathHasher,
    leaves: &Vec<u64>,
    additional_leaves: &Vec<u64>,
) -> Result<(), TreeError> {
    assert_eq!(
        4,
        leaves.len(),
        "Padded depth-4 test requires 4 leaves (out of 16)"
    );
    assert_eq!(
        2,
        additional_leaves.len(),
        "Padded depth-4 test requires 2 additional leaves"
    );
    let hash_empty = path_hasher.hash_empty();

    // Construct the Merkle tree for the given leaves.
    let mut merkle_tree = MerkleTree::new(leaf_hasher, path_hasher, leaves, 4)?;
    assert_eq!(7, merkle_tree.inner_tree.len());
    assert_eq!(1, merkle_tree.padding_chain.len());

    // Depth 4.
    let expected_leaf0 = leaf_hasher.hash(&leaves[0]);
    let expected_leaf1 = leaf_hasher.hash(&leaves[1]);
    let expected_leaf2 = leaf_hasher.hash(&leaves[2]);
    let expected_leaf3 = leaf_hasher.hash(&leaves[3]);
    assert_eq!(expected_leaf0, merkle_tree.inner_tree[3]);
    assert_eq!(expected_leaf1, merkle_tree.inner_tree[4]);
    assert_eq!(expected_leaf2, merkle_tree.inner_tree[5]);
    assert_eq!(expected_leaf3, merkle_tree.inner_tree[6]);

    // Depth 3.
    let expected_left = path_hasher.combine(&expected_leaf0, &expected_leaf1);
    let expected_right = path_hasher.combine(&expected_leaf2, &expected_leaf3);
    assert_eq!(expected_left, merkle_tree.inner_tree[1]);
    assert_eq!(expected_right, merkle_tree.inner_tree[2]);

    // Depth 2.
    let expected_left = path_hasher.combine(&expected_left, &expected_right);
    let expected_right = hash_empty;
    assert_eq!(expected_left, merkle_tree.inner_tree[0]);

    // Depth 1.
    let expected_left = path_hasher.combine(&expected_left, &expected_right);
    let expected_right = hash_empty;
    assert_eq!(expected_left, merkle_tree.padding_chain[0].0);
    assert_eq!(hash_empty, merkle_tree.padding_chain[0].1);

    // Depth 0.
    let expected_root = path_hasher.combine(&expected_left, &expected_right);
    assert_eq!(expected_root, merkle_tree.root());

    // ------------------------------------------------------------------ //
    // Check that the Merkle tree can be updated with an additional leaf.
    // ------------------------------------------------------------------ //

    // Rebuild the Merkle tree with the additional leaf.
    merkle_tree = merkle_tree.append(&vec![additional_leaves[0]])?;
    assert_eq!(15, merkle_tree.inner_tree.len());
    assert_eq!(0, merkle_tree.padding_chain.len());
    assert_eq!(5, merkle_tree.number_of_leaves);

    // Depth 4.
    let expected_leaf4 = leaf_hasher.hash(&additional_leaves[0]);
    assert_eq!(expected_leaf0, merkle_tree.inner_tree[7]);
    assert_eq!(expected_leaf1, merkle_tree.inner_tree[8]);
    assert_eq!(expected_leaf2, merkle_tree.inner_tree[9]);
    assert_eq!(expected_leaf3, merkle_tree.inner_tree[10]);
    assert_eq!(expected_leaf4, merkle_tree.inner_tree[11]);
    assert_eq!(hash_empty, merkle_tree.inner_tree[12]);
    assert_eq!(hash_empty, merkle_tree.inner_tree[13]);
    assert_eq!(hash_empty, merkle_tree.inner_tree[14]);

    // Depth 3.
    let expected_left0 = path_hasher.combine(&expected_leaf0, &expected_leaf1);
    let expected_right0 = path_hasher.combine(&expected_leaf2, &expected_leaf3);
    let expected_left1 = path_hasher.combine(&expected_leaf4, &hash_empty);
    let expected_right1 = path_hasher.combine(&hash_empty, &hash_empty);
    assert_eq!(expected_left0, merkle_tree.inner_tree[3]);
    assert_eq!(expected_right0, merkle_tree.inner_tree[4]);
    assert_eq!(expected_left1, merkle_tree.inner_tree[5]);
    assert_eq!(expected_right1, merkle_tree.inner_tree[6]);

    // Depth 2.
    let expected_left = path_hasher.combine(&expected_left0, &expected_right0);
    let expected_right = path_hasher.combine(&expected_left1, &expected_right1);
    assert_eq!(expected_left, merkle_tree.inner_tree[1]);
    assert_eq!(expected_right, merkle_tree.inner_tree[2]);

    // Depth 1.
    let expected_left = path_hasher.combine(&expected_left, &expected_right);
    let expected_right = hash_empty;
    assert_eq!(expected_left, merkle_tree.inner_tree[0]);

    // Depth 0.
    let expected_root = path_hasher.combine(&expected_left, &expected_right);
    assert_eq!(expected_root, merkle_tree.root());

    // ------------------------------------------------------------------ //
    // Check that the Merkle tree can be updated with an additional leaf.
    // ------------------------------------------------------------------ //

    // Ensure we're starting where we left off from the previous rebuild.
    assert_eq!(15, merkle_tree.inner_tree.len());
    assert_eq!(0, merkle_tree.padding_chain.len());
    assert_eq!(5, merkle_tree.number_of_leaves);

    // Rebuild the Merkle tree with the additional leaf.
    merkle_tree = merkle_tree.append(&vec![additional_leaves[1]])?;
    assert_eq!(15, merkle_tree.inner_tree.len());
    assert_eq!(0, merkle_tree.padding_chain.len());
    assert_eq!(6, merkle_tree.number_of_leaves);

    // Depth 4.
    let expected_leaf5 = leaf_hasher.hash(&additional_leaves[1]);
    assert_eq!(expected_leaf0, merkle_tree.inner_tree[7]);
    assert_eq!(expected_leaf1, merkle_tree.inner_tree[8]);
    assert_eq!(expected_leaf2, merkle_tree.inner_tree[9]);
    assert_eq!(expected_leaf3, merkle_tree.inner_tree[10]);
    assert_eq!(expected_leaf4, merkle_tree.inner_tree[11]);
    assert_eq!(expected_leaf5, merkle_tree.inner_tree[12]);
    assert_eq!(hash_empty, merkle_tree.inner_tree[13]);
    assert_eq!(hash_empty, merkle_tree.inner_tree[14]);

    // Depth 3.
    let expected_left0 = path_hasher.combine(&expected_leaf0, &expected_leaf1);
    let expected_right0 = path_hasher.combine(&expected_leaf2, &expected_leaf3);
    let expected_left1 = path_hasher.combine(&expected_leaf4, &expected_leaf5);
    let expected_right1 = path_hasher.combine(&hash_empty, &hash_empty);
    assert_eq!(expected_left0, merkle_tree.inner_tree[3]);
    assert_eq!(expected_right0, merkle_tree.inner_tree[4]);
    assert_eq!(expected_left1, merkle_tree.inner_tree[5]);
    assert_eq!(expected_right1, merkle_tree.inner_tree[6]);

    // Depth 2.
    let expected_left = path_hasher.combine(&expected_left0, &expected_right0);
    let expected_right = path_hasher.combine(&expected_left1, &expected_right1);
    assert_eq!(expected_left, merkle_tree.inner_tree[1]);
    assert_eq!(expected_right, merkle_tree.inner_tree[2]);

    // Depth 1.
    let expected_left = path_hasher.combine(&expected_left, &expected_right);
    let expected_right = hash_empty;
    assert_eq!(expected_left, merkle_tree.inner_tree[0]);

    // Depth 0.
    let expected_root = path_hasher.combine(&expected_left, &expected_right);
    assert_eq!(expected_root, merkle_tree.root());
    Ok(())
}

fn run_test(depth: u8, leaf_domain: u64, path_domain: u64, seed: u64) -> Result<(), TreeError> {
    let leaf_hasher = MixLeafHasher::setup(leaf_domain);
    let path_hasher = MixPathHasher::setup(path_domain);
    let mut rng = Lcg::new(seed);

    for i in 0..ITERATIONS {
        for j in 0..ITERATIONS {
            // Determine the leaves and additional leaves.
            let num_leaves = core::cmp::min(2u128.pow(depth as u32), i);
            let num_additional_leaves = core::cmp::min(2u128.pow(depth as u32) - num_leaves, j);

            // Check the Merkle tree.
            let leaves = rng.leaves(num_leaves as usize);
            let additional_leaves = rng.leaves(num_additional_leaves as usize);
            check_merkle_tree(
                &leaf_hasher,
                &path_hasher,
                &leaves,
                &additional_leaves,
                depth,
                &mut rng,
            )?;
        }
    }
    Ok(())
}

#[test]
fn test_merkle_tree_bhp() {
    // Ensure DEPTH = 0 fails.
    assert!(run_test(0, 101, 102, 1).is_err());
    // Spot check important depths.
    assert!(run_test(1, 101, 102, 2).is_ok());
    assert!(run_test(2, 101, 102, 3).is_ok());
    assert!(run_test(3, 101, 102, 4).is_ok());
    assert!(run_test(4, 101, 102, 5).is_ok());
    assert!(run_test(5, 101, 102, 6).is_ok());
    assert!(run_test(6, 101, 102, 7).is_ok());
    assert!(run_test(7, 101, 102, 8).is_ok());
    assert!(run_test(8, 101, 102, 9).is_ok());
    assert!(run_test(9, 101, 102, 10).is_ok());
    assert!(run_test(10, 101, 102, 11).is_ok());
    assert!(run_test(15, 101, 102, 12).is_ok());
    assert!(run_test(16, 101, 102, 13).is_ok());
    assert!(run_test(17, 101, 102, 14).is_ok());
    assert!(run_test(31, 101, 102, 15).is_ok());
    assert!(run_test(32, 101, 102, 16).is_ok());
    assert!(run_test(64, 101, 102, 17).is_ok());
}

#[test]
fn test_merkle_tree_poseidon() {
    // Ensure DEPTH = 0 fails.
    assert!(run_test(0, 201, 202, 21).is_err());
    // Spot check important depths.
    assert!(run_test(1, 201, 202, 22).is_ok());
    assert!(run_test(2, 201, 202, 23).is_ok());
    assert!(run_test(3, 201, 202, 24).is_ok());
    assert!(run_test(4, 201, 202, 25).is_ok());
    assert!(run_test(5, 201, 202, 26).is_ok());
    assert!(run_test(6, 201, 202, 27).is_ok());
    assert!(run_test(7, 201, 202, 28).is_ok());
    assert!(run_test(8, 201, 202, 29).is_ok());
    assert!(run_test(9, 201, 202, 30).is_ok());
    assert!(run_test(10, 201, 202, 31).is_ok());
    assert!(run_test(15, 201, 202, 32).is_ok());
    assert!(run_test(16, 201, 202, 33).is_ok());
    assert!(run_test(17, 201, 202, 34).is_ok());
    assert!(run_test(31, 201, 202, 35).is_ok());
    assert!(run_test(32, 201, 202, 36).is_ok());
    assert!(run_test(64, 201, 202, 37).is_ok());
}

#[test]
fn test_merkle_tree_depth_2_bhp() {
    let leaf_hasher = MixLeafHasher::setup(101);
    let path_hasher = MixPathHasher::setup(102);
    let mut rng = Lcg::new(41);

    // Check the depth-2 Merkle tree.
    let leaves = rng.leaves(4);
    check_merkle_tree_depth_2(&leaf_hasher, &path_hasher, &leaves).unwrap();
}

#[test]
fn test_merkle_tree_depth_2_poseidon() {
    let leaf_hasher = MixLeafHasher::setup(201);
    let path_hasher = MixPathHasher::setup(202);
    let mut rng = Lcg::new(42);

    // Check the depth-2 Merkle tree.
    let leaves = rng.leaves(4);
    check_merkle_tree_depth_2(&leaf_hasher, &path_hasher, &leaves).unwrap();
}

#[test]
fn test_merkle_tree_depth_3_bhp() {
    let leaf_hasher = MixLeafHasher::setup(101);
    let path_hasher = MixPathHasher::setup(102);
    let mut rng = Lcg::new(43);

    // Check the depth-3 Merkle tree.
    let leaves = rng.leaves(4);
    let additional_leaves = rng.leaves(1);
    check_merkle_tree_depth_3_padded(&leaf_hasher, &path_hasher, &leaves, &additional_leaves)
        .unwrap();
}

#[test]
fn test_merkle_tree_depth_3_poseidon() {
    let leaf_hasher = MixLeafHasher::setup(201);
    let path_hasher = MixPathHasher::setup(202);
    let mut rng = Lcg::new(44);

    // Check the depth-3 Merkle tree.
    let leaves = rng.leaves(4);
    let additional_leaves = rng.leaves(1);
    check_merkle_tree_depth_3_padded(&leaf_hasher, &path_hasher, &leaves, &additional_leaves)
        .unwrap();
}

#[test]
fn test_merkle_tree_depth_4_bhp() {
    let leaf_hasher = MixLeafHasher::setup(101);
    let path_hasher = MixPathHasher::setup(102);
    let mut rng = Lcg::new(45);

    // Check the depth-4 Merkle tree.
    let leaves = rng.leaves(4);
    let additional_leaves = rng.leaves(2);
    check_merkle_tree_depth_4_padded(&leaf_hasher, &path_hasher, &leaves, &additional_leaves)
        .unwrap();
}

#[test]
fn test_merkle_tree_depth_4_poseidon() {
    let leaf_hasher = MixLeafHasher::setup(201);
    let path_hasher = MixPathHasher::setup(202);
    let mut rng = Lcg::new(46);

    // Check the depth-4 Merkle tree.
    let leaves = rng.leaves(4);
    let additional_leaves = rng.leaves(2);
    check_merkle_tree_depth_4_padded(&leaf_hasher, &path_hasher, &leaves, &additional_leaves)
        .unwrap();
}
