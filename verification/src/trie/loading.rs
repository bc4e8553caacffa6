//! Loading the nodes of a trie as they are needed.

use crate::felt::{Felt, StarkHash};
use crate::key_value_db::KeyValueDB;
use crate::trie::editing::is_sole;
use crate::trie::merkle_node::{
    node_hash, BinaryNode, Direction, EdgeNode, Node, NodeHandle, NodeView,
};
use crate::trie::model::Trie;
use crate::trie::partial_trie::{PartialTrieError, PartialTrieErrorView};
use crate::trie::path::{common_path, lemma_common_len, lemma_prefix_common, slice_of};
use crate::trie::proofs::{MultiProof, ProofNode, ProofVerificationError, VerificationErrorView};
use vstd::prelude::*;

verus! {

/// The nodes that are at hand: what is stored, and else what the proof brings.
pub open spec fn at_hand(
    stored: Map<Felt, NodeView>,
    proof_nodes: Map<Felt, NodeView>,
) -> Map<Felt, NodeView> {
    proof_nodes.union_prefer_right(stored)
}

/// The node with the hash `hash`, which stands after the first `depth` bits of `key`, with its
/// children as digests.
///
/// The node has to have the hash that it is filed under, and an edge has to have bits, but no
/// more than the key has left.
pub open spec fn load_node<H: StarkHash>(
    hash: Felt,
    nodes: Map<Felt, NodeView>,
    key: Seq<bool>,
    depth: nat,
) -> Result<Trie, PartialTrieErrorView> {
    if !nodes.contains_key(hash) {
        Err(PartialTrieErrorView::NodeNotFound)
    } else if node_hash::<H>(nodes[hash]) != hash {
        Err(
            PartialTrieErrorView::ProofVerificationError(
                VerificationErrorView::HashMismatch {
                    path: key.take(depth as int),
                    expected: hash,
                    got: node_hash::<H>(nodes[hash]),
                },
            ),
        )
    } else {
        match nodes[hash] {
            NodeView::Binary { left, right } => Ok(
                Trie::Binary {
                    left: Box::new(Trie::Digest(left)),
                    right: Box::new(Trie::Digest(right)),
                },
            ),
            NodeView::Edge { child, path } => if path.len() == 0 {
                Err(
                    PartialTrieErrorView::ProofVerificationError(
                        VerificationErrorView::InvalidProof,
                    ),
                )
            } else if depth + path.len() > key.len() {
                Err(
                    PartialTrieErrorView::ProofVerificationError(
                        VerificationErrorView::Overshot {
                            path: key.take(depth as int) + path,
                            expected_max_height: key.len(),
                        },
                    ),
                )
            } else {
                Ok(Trie::Edge { path, child: Box::new(Trie::Digest(child)) })
            },
        }
    }
}

/// The trie with the node at its top loaded.
pub open spec fn load_top<H: StarkHash>(
    trie: Trie,
    nodes: Map<Felt, NodeView>,
    key: Seq<bool>,
    depth: nat,
) -> Result<Trie, PartialTrieErrorView> {
    match trie {
        Trie::Digest(hash) => load_node::<H>(hash, nodes, key, depth),
        _ => Ok(trie),
    }
}

/// The trie, which stands after the first `depth` bits of `key`, with the nodes on the way to the
/// key loaded, as far as the way goes or until a node cannot be loaded.
pub open spec fn load_way<H: StarkHash>(
    trie: Trie,
    nodes: Map<Felt, NodeView>,
    key: Seq<bool>,
    depth: nat,
) -> (Trie, Option<PartialTrieErrorView>)
    decreases key.len() - depth,
{
    if depth >= key.len() {
        (trie, None)
    } else {
        match load_top::<H>(trie, nodes, key, depth) {
            Err(error) => (trie, Some(error)),
            Ok(Trie::Digest(hash)) => (Trie::Digest(hash), None),
            Ok(Trie::Binary { left, right }) => if key[depth as int] {
                let (child, error) = load_way::<H>(*right, nodes, key, depth + 1);
                (Trie::Binary { left, right: Box::new(child) }, error)
            } else {
                let (child, error) = load_way::<H>(*left, nodes, key, depth + 1);
                (Trie::Binary { left: Box::new(child), right }, error)
            },
            Ok(Trie::Edge { path, child }) => if path.len() > 0 && path.is_prefix_of(
                key.skip(depth as int),
            ) {
                let (child, error) = load_way::<H>(*child, nodes, key, depth + path.len());
                (Trie::Edge { path, child: Box::new(child) }, error)
            } else {
                (Trie::Edge { path, child }, None)
            },
        }
    }
}

/// A loaded node has the hash that it is loaded by.
pub proof fn lemma_load_top_hash<H: StarkHash>(
    trie: Trie,
    nodes: Map<Felt, NodeView>,
    key: Seq<bool>,
    depth: nat,
)
    ensures
        load_top::<H>(trie, nodes, key, depth) matches Ok(loaded) ==> loaded.hash::<H>()
            == trie.hash::<H>() && !(loaded is Digest),
{
    reveal_with_fuel(Trie::hash, 2);
}

/// Loading does not change the hash of a trie.
pub proof fn lemma_load_way_hash<H: StarkHash>(
    trie: Trie,
    nodes: Map<Felt, NodeView>,
    key: Seq<bool>,
    depth: nat,
)
    ensures
        load_way::<H>(trie, nodes, key, depth).0.hash::<H>() == trie.hash::<H>(),
    decreases key.len() - depth,
{
    if depth < key.len() {
        lemma_load_top_hash::<H>(trie, nodes, key, depth);
        match load_top::<H>(trie, nodes, key, depth) {
            Ok(Trie::Binary { left, right }) => {
                lemma_load_way_hash::<H>(*left, nodes, key, depth + 1);
                lemma_load_way_hash::<H>(*right, nodes, key, depth + 1);
            },
            Ok(Trie::Edge { path, child }) => {
                if path.len() > 0 && path.is_prefix_of(key.skip(depth as int)) {
                    lemma_load_way_hash::<H>(*child, nodes, key, depth + path.len());
                }
            },
            _ => {},
        }
    }
}

/// Once the way to a key is loaded, the value under the key is known.
pub proof fn lemma_load_way_known<H: StarkHash>(
    trie: Trie,
    nodes: Map<Felt, NodeView>,
    key: Seq<bool>,
    depth: nat,
)
    requires
        depth <= key.len(),
        trie.fits((key.len() - depth) as nat),
        load_way::<H>(trie, nodes, key, depth).1 is None,
    ensures
        load_way::<H>(trie, nodes, key, depth).0.lookup(key.skip(depth as int)) is Some,
    decreases key.len() - depth,
{
    if depth < key.len() {
        lemma_load_top_hash::<H>(trie, nodes, key, depth);
        let rest = key.skip(depth as int);
        match load_top::<H>(trie, nodes, key, depth) {
            Ok(Trie::Binary { left, right }) => {
                assert(rest.skip(1) =~= key.skip(depth as int + 1));
                if key[depth as int] {
                    lemma_load_way_known::<H>(*right, nodes, key, depth + 1);
                } else {
                    lemma_load_way_known::<H>(*left, nodes, key, depth + 1);
                }
            },
            Ok(Trie::Edge { path, child }) => {
                if path.is_prefix_of(rest) {
                    assert(rest.skip(path.len() as int) =~= key.skip((depth + path.len()) as int));
                    lemma_load_way_known::<H>(*child, nodes, key, depth + path.len());
                }
            },
            _ => {},
        }
    }
}

/// Where the value under a key is known, nothing is left to load.
pub proof fn lemma_load_way_idle<H: StarkHash>(
    trie: Trie,
    nodes: Map<Felt, NodeView>,
    key: Seq<bool>,
    depth: nat,
)
    requires
        depth <= key.len(),
        trie.fits((key.len() - depth) as nat),
        trie.lookup(key.skip(depth as int)) is Some,
    ensures
        load_way::<H>(trie, nodes, key, depth) == (trie, None::<PartialTrieErrorView>),
    decreases trie,
{
    let rest = key.skip(depth as int);
    match trie {
        Trie::Digest(_) => {},
        Trie::Binary { left, right } => {
            assert(rest.skip(1) =~= key.skip(depth as int + 1));
            if key[depth as int] {
                lemma_load_way_idle::<H>(*right, nodes, key, depth + 1);
            } else {
                lemma_load_way_idle::<H>(*left, nodes, key, depth + 1);
            }
        },
        Trie::Edge { path, child } => {
            if path.is_prefix_of(rest) {
                assert(rest.skip(path.len() as int) =~= key.skip((depth + path.len()) as int));
                lemma_load_way_idle::<H>(*child, nodes, key, depth + path.len());
            }
        },
    }
}

/// The trie, which stands after the first `depth` bits of `key`, with the node loaded that takes
/// the place of its parent when the entry under `key` is removed.
pub open spec fn load_beside<H: StarkHash>(
    trie: Trie,
    nodes: Map<Felt, NodeView>,
    key: Seq<bool>,
    depth: nat,
) -> (Trie, Option<PartialTrieErrorView>)
    decreases trie,
{
    match trie {
        Trie::Digest(_) => (trie, None),
        Trie::Binary { left, right } => {
            let beside = key.update(depth as int, !key[depth as int]);
            if key[depth as int] {
                if right.remove(key.skip(depth as int + 1)) is Some {
                    let (child, error) = load_beside::<H>(*right, nodes, key, depth + 1);
                    (Trie::Binary { left, right: Box::new(child) }, error)
                } else if depth + 1 >= key.len() {
                    (trie, None)
                } else {
                    match load_top::<H>(*left, nodes, beside, depth + 1) {
                        Ok(child) => (Trie::Binary { left: Box::new(child), right }, None),
                        Err(error) => (trie, Some(error)),
                    }
                }
            } else {
                if left.remove(key.skip(depth as int + 1)) is Some {
                    let (child, error) = load_beside::<H>(*left, nodes, key, depth + 1);
                    (Trie::Binary { left: Box::new(child), right }, error)
                } else if depth + 1 >= key.len() {
                    (trie, None)
                } else {
                    match load_top::<H>(*right, nodes, beside, depth + 1) {
                        Ok(child) => (Trie::Binary { left, right: Box::new(child) }, None),
                        Err(error) => (trie, Some(error)),
                    }
                }
            }
        },
        Trie::Edge { path, child } => if path.is_prefix_of(key.skip(depth as int)) {
            let (child, error) = load_beside::<H>(*child, nodes, key, depth + path.len());
            (Trie::Edge { path, child: Box::new(child) }, error)
        } else {
            (trie, None)
        },
    }
}

/// Loading beside a key changes neither the hash of the trie nor the value under the key.
pub proof fn lemma_load_beside<H: StarkHash>(
    trie: Trie,
    nodes: Map<Felt, NodeView>,
    key: Seq<bool>,
    depth: nat,
)
    requires
        depth <= key.len(),
        trie.fits((key.len() - depth) as nat),
    ensures
        load_beside::<H>(trie, nodes, key, depth).0.hash::<H>() == trie.hash::<H>(),
        load_beside::<H>(trie, nodes, key, depth).0.lookup(key.skip(depth as int)) == trie.lookup(
            key.skip(depth as int),
        ),
    decreases trie,
{
    let rest = key.skip(depth as int);
    match trie {
        Trie::Digest(_) => {},
        Trie::Binary { left, right } => {
            let beside = key.update(depth as int, !key[depth as int]);
            assert(rest.skip(1) =~= key.skip(depth as int + 1));
            lemma_load_beside::<H>(*left, nodes, key, depth + 1);
            lemma_load_beside::<H>(*right, nodes, key, depth + 1);
            lemma_load_top_hash::<H>(*left, nodes, beside, depth + 1);
            lemma_load_top_hash::<H>(*right, nodes, beside, depth + 1);
        },
        Trie::Edge { path, child } => {
            if path.is_prefix_of(rest) {
                assert(rest.skip(path.len() as int) =~= key.skip((depth + path.len()) as int));
                lemma_load_beside::<H>(*child, nodes, key, depth + path.len());
            }
        },
    }
}

/// What an error of loading says.
pub open spec fn error_view(error: Option<PartialTrieError>) -> Option<PartialTrieErrorView> {
    match error {
        None => None,
        Some(error) => Some(error@),
    }
}

/// What a loaded handle or an error says.
pub open spec fn loaded_view(result: Result<NodeHandle, PartialTrieError>) -> Result<
    Trie,
    PartialTrieErrorView,
> {
    match result {
        Ok(handle) => Ok(handle@),
        Err(error) => Err(error@),
    }
}

/// Loads the node with the hash `hash`, which stands after the first `depth` bits of `key`.
pub(crate) fn fetch_node<H: StarkHash>(
    hash: Felt,
    db: &KeyValueDB,
    proof: &MultiProof,
    key: &[bool],
    depth: usize,
) -> (r: Result<NodeHandle, PartialTrieError>)
    requires
        depth < key@.len() <= u8::MAX,
    ensures
        loaded_view(r) == load_node::<H>(hash, at_hand(db@, proof@), key@, depth as nat),
        r matches Ok(handle) ==> handle.sound::<H>() && handle.settled() && handle@.fits(
            (key@.len() - depth) as nat,
        ),
{
    let found = match db.get(&hash) {
        Some(node) => Some(node),
        None => proof.0.get(&hash),
    };
    let node = match found {
        Some(node) => node,
        None => {
            return Err(PartialTrieError::NodeNotFound);
        },
    };
    let computed = node.hash::<H>();
    if computed != hash {
        return Err(
            PartialTrieError::from(
                ProofVerificationError::HashMismatch {
                    path: slice_of(key, 0, depth),
                    expected: hash,
                    got: computed,
                },
            ),
        );
    }
    proof {
        reveal_with_fuel(NodeHandle::trie, 2);
        reveal_with_fuel(NodeHandle::sound, 2);
        reveal_with_fuel(Trie::fits, 2);
        reveal_with_fuel(Trie::hash, 2);
    }
    match node {
        ProofNode::Binary { left, right } => {
            let node = BinaryNode {
                hash: Some(hash),
                left: NodeHandle::Hash(*left),
                right: NodeHandle::Hash(*right),
            };
            Ok(NodeHandle::InMemory(Box::new(Node::Binary(node))))
        },
        ProofNode::Edge { child, path } => {
            if path.0.len() == 0 {
                return Err(PartialTrieError::from(ProofVerificationError::InvalidProof));
            }
            if path.0.len() > key.len() - depth {
                let mut overshot = slice_of(key, 0, depth);
                overshot.extend_from_slice(&path.0);
                assert(overshot@ =~= key@.take(depth as int) + path@);
                return Err(
                    PartialTrieError::from(
                        ProofVerificationError::Overshot {
                            path: overshot,
                            expected_max_height: key.len() as u8,
                        },
                    ),
                );
            }
            let node = EdgeNode {
                hash: Some(hash),
                path: path.clone(),
                child: NodeHandle::Hash(*child),
            };
            Ok(NodeHandle::InMemory(Box::new(Node::Edge(node))))
        },
    }
}

/// Loads the nodes on the way to `key`, from a handle that stands after its first `depth` bits.
pub(crate) fn fetch_way<H: StarkHash>(
    handle: NodeHandle,
    db: &KeyValueDB,
    proof: &MultiProof,
    key: &[bool],
    depth: usize,
) -> (r: (NodeHandle, Option<PartialTrieError>))
    requires
        depth <= key@.len() <= u8::MAX,
        handle.sound::<H>(),
        handle@.fits((key@.len() - depth) as nat),
    ensures
        (r.0@, error_view(r.1)) == load_way::<H>(
            handle@,
            at_hand(db@, proof@),
            key@,
            depth as nat,
        ),
        r.0.sound::<H>(),
        handle.settled() <==> r.0.settled(),
        r.0@.fits((key@.len() - depth) as nat),
    decreases key@.len() - depth,
{
    if depth == key.len() {
        return (handle, None);
    }
    let ghost nodes = at_hand(db@, proof@);
    proof {
        lemma_load_top_hash::<H>(handle@, nodes, key@, depth as nat);
    }
    let node = match handle {
        NodeHandle::InMemory(node) => node,
        NodeHandle::Hash(hash) => match fetch_node::<H>(hash, db, proof, key, depth) {
            Ok(NodeHandle::InMemory(node)) => node,
            Ok(NodeHandle::Hash(hash)) => {
                return (NodeHandle::Hash(hash), None);
            },
            Err(error) => {
                return (NodeHandle::Hash(hash), Some(error));
            },
        },
    };
    assert(load_top::<H>(handle@, nodes, key@, depth as nat) == Ok::<Trie, PartialTrieErrorView>(
        NodeHandle::InMemory(node)@,
    ));
    match *node {
        Node::Binary(node) => match Direction::from(key[depth]) {
            Direction::Left => {
                proof {
                    lemma_load_way_hash::<H>(node.left@, nodes, key@, depth as nat + 1);
                }
                let (left, error) = fetch_way::<H>(node.left, db, proof, key, depth + 1);
                let node = BinaryNode { hash: node.hash, left, right: node.right };
                (NodeHandle::InMemory(Box::new(Node::Binary(node))), error)
            },
            Direction::Right => {
                proof {
                    lemma_load_way_hash::<H>(node.right@, nodes, key@, depth as nat + 1);
                }
                let (right, error) = fetch_way::<H>(node.right, db, proof, key, depth + 1);
                let node = BinaryNode { hash: node.hash, left: node.left, right };
                (NodeHandle::InMemory(Box::new(Node::Binary(node))), error)
            },
        },
        Node::Edge(node) => {
            let length: usize = node.path.0.len();
            proof {
                lemma_common_len(node.path@, key@.skip(depth as int));
                lemma_prefix_common(node.path@, key@.skip(depth as int));
            }
            if common_path(&node.path.0, key, depth) < length {
                return (NodeHandle::InMemory(Box::new(Node::Edge(node))), None);
            }
            proof {
                lemma_load_way_hash::<H>(node.child@, nodes, key@, depth as nat + length as nat);
            }
            let (child, error) = fetch_way::<H>(node.child, db, proof, key, depth + length);
            let node = EdgeNode { hash: node.hash, path: node.path, child };
            (NodeHandle::InMemory(Box::new(Node::Edge(node))), error)
        },
    }
}

/// Loads the node that takes the place of its parent when the entry under `key` is removed.
pub(crate) fn fetch_beside<H: StarkHash>(
    handle: NodeHandle,
    db: &KeyValueDB,
    proof: &MultiProof,
    key: &[bool],
    depth: usize,
) -> (r: (NodeHandle, Option<PartialTrieError>))
    requires
        depth <= key@.len() <= u8::MAX,
        handle.sound::<H>(),
        handle@.fits((key@.len() - depth) as nat),
    ensures
        (r.0@, error_view(r.1)) == load_beside::<H>(
            handle@,
            at_hand(db@, proof@),
            key@,
            depth as nat,
        ),
        r.0.sound::<H>(),
        handle.settled() <==> r.0.settled(),
        r.0@.fits((key@.len() - depth) as nat),
    decreases handle,
{
    let ghost nodes = at_hand(db@, proof@);
    let ghost rest = key@.skip(depth as int);
    let total: usize = key.len();
    let node = match handle {
        NodeHandle::Hash(hash) => {
            return (NodeHandle::Hash(hash), None);
        },
        NodeHandle::InMemory(node) => node,
    };
    match *node {
        Node::Binary(node) => {
            let BinaryNode { hash, left, right } = node;
            let bit = key[depth];
            let (near, far) = match Direction::from(bit) {
                Direction::Left => (left, right),
                Direction::Right => (right, left),
            };
            proof {
                lemma_load_beside::<H>(near@, nodes, key@, depth as nat + 1);
            }
            let (near, far, error) = if !is_sole(&near, key, depth + 1) {
                let (near, error) = fetch_beside::<H>(near, db, proof, key, depth + 1);
                (near, far, error)
            } else if depth + 1 == total {
                (near, far, None)
            } else {
                match far {
                    NodeHandle::InMemory(node) => (near, NodeHandle::InMemory(node), None),
                    NodeHandle::Hash(far_hash) => {
                        let mut beside = slice_of(key, 0, total);
                        beside.set(depth, !bit);
                        assert(beside@ =~= key@.update(depth as int, !bit));
                        proof {
                            lemma_load_top_hash::<H>(far@, nodes, beside@, depth as nat + 1);
                        }
                        match fetch_node::<H>(far_hash, db, proof, &beside, depth + 1) {
                            Ok(far) => (near, far, None),
                            Err(error) => (near, NodeHandle::Hash(far_hash), Some(error)),
                        }
                    },
                }
            };
            let (left, right) = match Direction::from(bit) {
                Direction::Left => (near, far),
                Direction::Right => (far, near),
            };
            let node = BinaryNode { hash, left, right };
            (NodeHandle::InMemory(Box::new(Node::Binary(node))), error)
        },
        Node::Edge(node) => {
            let length: usize = node.path.0.len();
            proof {
                lemma_common_len(node.path@, rest);
                lemma_prefix_common(node.path@, rest);
            }
            if common_path(&node.path.0, key, depth) < length {
                return (NodeHandle::InMemory(Box::new(Node::Edge(node))), None);
            }
            proof {
                lemma_load_beside::<H>(node.child@, nodes, key@, depth as nat + length as nat);
            }
            let (child, error) = fetch_beside::<H>(node.child, db, proof, key, depth + length);
            let node = EdgeNode { hash: node.hash, path: node.path, child };
            (NodeHandle::InMemory(Box::new(Node::Edge(node))), error)
        },
    }
}

} // verus!
