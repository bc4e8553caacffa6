//! The tries themselves.

pub mod editing;
pub mod hops;
pub mod loading;
pub mod merkle_node;
pub mod model;
pub mod node_map;
pub mod partial;
pub mod partial_trie;
pub mod path;
pub mod positions;
pub mod proofs;
pub mod tree;
