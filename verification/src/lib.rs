//! Merkle-Patricia tries of fixed height: proofs of their entries, and trees of which only some
//! nodes are known.

pub mod collections;
pub mod error;
pub mod felt;
pub mod key_value_db;
pub mod laws;
pub mod text;
pub mod trie;
