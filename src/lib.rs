//! A mutable Merkle tree over SHA-256 digests, stored as a flat array of
//! internal-node digests in breadth-first order.

pub mod hashing;
pub mod laws;
pub mod model;
pub mod tree;

pub use tree::{Leaf, MerkleTree, MAX_LEAVES};
