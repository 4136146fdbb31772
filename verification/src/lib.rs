//! A fixed-capacity Merkle tree over byte strings, with membership proofs.
//!
//! The tree commits to an ordered collection of items under one root digest.
//! For any single item it hands out a proof of logarithmic size, and anyone who
//! holds the root can replay that proof against the item.
//!
//! - [`tree`] holds the tree and its operations,
//! - [`membership`] the proofs,
//! - [`hasher`] what is asked of the hash function that the caller supplies,
//! - [`model`] the mathematics that the contracts are stated in,
//! - [`laws`] what follows from it for every hasher and every collection of items.

pub mod error;
pub mod hasher;
pub mod laws;
pub mod membership;
pub mod model;
pub mod node_index;
pub mod tree;

pub use error::MerkleError;
pub use membership::{Location, Proof, ProofStep};
pub use node_index::NodeIndex;
pub use tree::{MerkleTree, Nodes};
