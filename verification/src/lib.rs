//! A static binary Merkle tree over BLS12-381 scalar field elements.
//!
//! The tree commits to an ordered, non-empty sequence of values with a single
//! SHA-256 based root, hands out inclusion proofs for individual leaves and
//! checks such proofs without access to the tree.

pub mod encoding;
pub mod hash;
pub mod laws;
pub mod merkle_tree;
pub mod model;
