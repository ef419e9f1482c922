//! An incremental, depth-bounded Merkle tree over an abstract pair of hash
//! capabilities.
//!
//! The tree commits to a growing, ordered collection of leaves with a single
//! fixed-size digest. A dense, array-backed binary tree covers the levels
//! that actually hold leaves; a sparse padding chain stands in for the levels
//! between the dense region and the declared maximum depth, so that a tree of
//! depth 32 with a handful of leaves costs memory proportional to the leaves,
//! not to 2^32. Appending leaves reuses every subtree the new leaves do not
//! touch, and membership proofs are verified independently of the tree.

pub mod digest;
pub mod hash;
pub mod instruction;
pub mod laws;
pub mod mix;
pub mod model;
pub mod path;
pub mod tree;
