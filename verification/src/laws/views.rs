//! What values of the library stand for.

use crate::error::{BonsaiStorageError, StorageErrorView};
use crate::felt::Felt;
use crate::laws::inserting::{binary_node, edge_node};
use crate::trie::merkle_node::{Node, NodeHandle};
use crate::trie::partial::outcome;
use crate::trie::partial_trie::{PartialTrieError, PartialTrieErrorView};
use crate::trie::path::Path;
use crate::trie::proofs::{
    finding, way_view, ProofNode, ProofVerificationError, VerificationErrorView,
};
use crate::trie::tree::{failure, keys_view, positions_view, trie_failure, NodeKey};
use vstd::prelude::*;

verus! {

/// A node of a proof says its children, each in its place, and the bits of an edge.
pub proof fn law_node_says(node: ProofNode)
    ensures
        match node {
            ProofNode::Binary { left, right } => node@ == binary_node(left, right),
            ProofNode::Edge { child, path } => node@ == edge_node(path.0@, child),
        },
{
}

/// A way in memory says the bits and the node of each entry, in order.
pub proof fn law_way_says(nodes: Seq<(Vec<bool>, ProofNode)>, i: int)
    ensures
        way_view(nodes).len() == nodes.len(),
        0 <= i < nodes.len() ==> {
            &&& way_view(nodes)[i].0 == nodes[i].0@
            &&& match nodes[i].1 {
                ProofNode::Binary { left, right } => way_view(nodes)[i].1 == binary_node(
                    left,
                    right,
                ),
                ProofNode::Edge { child, path } => way_view(nodes)[i].1 == edge_node(
                    path.0@,
                    child,
                ),
            }
        },
{
}

/// Paths, positions and keys say their bits.
pub proof fn law_bits_said(
    path: Path,
    position: NodeKey,
    keys: Seq<Vec<bool>>,
    list: Seq<(NodeKey, usize)>,
    i: int,
)
    ensures
        path@ == path.0@,
        position@ == position.0@,
        keys_view(keys).len() == keys.len(),
        0 <= i < keys.len() ==> keys_view(keys)[i] == keys[i]@,
        positions_view(list).len() == list.len(),
        0 <= i < list.len() ==> positions_view(list)[i].0 == list[i].0.0@ && positions_view(
            list,
        )[i].1 == list[i].1,
{
}

/// A handle stands for the hash that it holds, or for the node in memory with its children, each in
/// its place.
pub proof fn law_handle_says(handle: NodeHandle)
    ensures
        match handle {
            NodeHandle::Hash(hash) => handle@ is Digest && handle@->0 == hash,
            NodeHandle::InMemory(node) => match *node {
                Node::Binary(node) => handle@ is Binary && *handle@->left == node.left@
                    && *handle@->right == node.right@,
                Node::Edge(node) => handle@ is Edge && handle@->path == node.path.0@
                    && *handle@->child == node.child@,
            },
        },
{
}

/// An error says what it is, with its particulars.
pub proof fn law_errors_say(
    verification: ProofVerificationError,
    partial: PartialTrieError,
    storage: BonsaiStorageError,
)
    ensures
        match verification {
            ProofVerificationError::KeyLengthMismatch { path, expected, got } => {
                match verification@ {
                    VerificationErrorView::KeyLengthMismatch { path: p, expected: e, got: g } => {
                        p == path@ && e == expected && g == got
                    },
                    _ => false,
                }
            },
            ProofVerificationError::MissingNode { path, hash } => match verification@ {
                VerificationErrorView::MissingNode { path: p, hash: h } => p == path@ && h == hash,
                _ => false,
            },
            ProofVerificationError::Overshot { path, expected_max_height } => {
                match verification@ {
                    VerificationErrorView::Overshot { path: p, expected_max_height: e } => {
                        p == path@ && e == expected_max_height
                    },
                    _ => false,
                }
            },
            ProofVerificationError::HashMismatch { path, expected, got } => match verification@ {
                VerificationErrorView::HashMismatch { path: p, expected: e, got: g } => {
                    p == path@ && e == expected && g == got
                },
                _ => false,
            },
            ProofVerificationError::InvalidProof => verification@ is InvalidProof,
        },
        match partial {
            PartialTrieError::ProofVerificationError(error) => partial@ is ProofVerificationError
                && partial@->0 == error@,
            PartialTrieError::NodeNotFound => partial@ is NodeNotFound,
            PartialTrieError::KeyLength => partial@ is KeyLength,
            PartialTrieError::SetValueZero => partial@ is SetValueZero,
            PartialTrieError::InvalidNodeHandle => partial@ is InvalidNodeHandle,
        },
        match storage {
            BonsaiStorageError::Trie(error) => storage@ is Trie && storage@->0 == error@,
            BonsaiStorageError::KeyLength { expected, got } => match storage@ {
                StorageErrorView::KeyLength { expected: e, got: g } => e == expected && g == got,
                _ => false,
            },
        },
{
}

/// The outcome of an operation is what it gave, or what its error says.
pub proof fn law_outcomes_say<T>(
    verified: Result<Felt, ProofVerificationError>,
    done: Result<T, BonsaiStorageError>,
    told: Result<Felt, crate::trie::partial::PartialTrieError>,
    error: PartialTrieErrorView,
)
    ensures
        match verified {
            Ok(value) => finding(verified) == Ok::<Felt, VerificationErrorView>(value),
            Err(error) => finding(verified) == Err::<Felt, VerificationErrorView>(error@),
        },
        match done {
            Ok(_) => failure(done) is None,
            Err(error) => failure(done) == Some(error@),
        },
        match told {
            Ok(hash) => outcome(told) == Some(hash),
            Err(_) => outcome(told) is None,
        },
        trie_failure(None) is None,
        trie_failure(Some(error)) matches Some(said) && said is Trie && said->0 == error,
{
}

} // verus!
