//! Changing the entries of a trie in memory.

use crate::felt::{Felt, StarkHash};
use crate::trie::merkle_node::{BinaryNode, Direction, EdgeNode, Node, NodeHandle};
use crate::trie::model::{absorb, fork, lead};
use crate::trie::path::{common_path, lemma_common_len, lemma_prefix_common, slice_of, Path};
use vstd::prelude::*;

verus! {

/// A leading edge over a handle. An edge without bits is left out.
pub(crate) fn lead_handle<H: StarkHash>(path: Vec<bool>, below: NodeHandle) -> (r: NodeHandle)
    requires
        below.sound::<H>(),
    ensures
        r@ == lead(path@, below@),
        r.sound::<H>(),
        r.settled() <==> path@.len() == 0 && below.settled(),
{
    if path.len() == 0 {
        below
    } else {
        let node = EdgeNode { hash: None, path: Path(path), child: below };
        NodeHandle::InMemory(Box::new(Node::Edge(node)))
    }
}

/// Forks an edge where what is left of `key` after `depth` bits leaves it.
pub(crate) fn fork_handle<H: StarkHash>(
    path: &Path,
    child: NodeHandle,
    key: &[bool],
    depth: usize,
    value: Felt,
) -> (r: NodeHandle)
    requires
        child.sound::<H>(),
        depth + path@.len() <= key@.len(),
        !path@.is_prefix_of(key@.skip(depth as int)),
    ensures
        r@ == fork(path@, child@, key@.skip(depth as int), value),
        r.sound::<H>(),
        !r.settled(),
{
    let ghost rest = key@.skip(depth as int);
    let total: usize = key.len();
    let n = common_path(&path.0, key, depth);
    proof {
        lemma_common_len(path@, rest);
        lemma_prefix_common(path@, rest);
    }
    let new_path = slice_of(key, depth + n + 1, total);
    let old_path = slice_of(&path.0, n + 1, path.0.len());
    let top_path = slice_of(&path.0, 0, n);
    assert(new_path@ =~= rest.skip(n + 1));
    assert(old_path@ =~= path@.skip(n + 1));
    assert(top_path@ =~= path@.take(n as int));
    let new = lead_handle::<H>(new_path, NodeHandle::Hash(value));
    let old_part = lead_handle::<H>(old_path, child);
    let (left, right) = match Direction::from(key[depth + n]) {
        Direction::Left => (new, old_part),
        Direction::Right => (old_part, new),
    };
    let node = BinaryNode { hash: None, left, right };
    lead_handle::<H>(top_path, NodeHandle::InMemory(Box::new(Node::Binary(node))))
}

/// Puts `value` under what is left of `key` after `depth` bits.
pub(crate) fn insert_value<H: StarkHash>(
    handle: NodeHandle,
    key: &[bool],
    depth: usize,
    value: Felt,
) -> (r: NodeHandle)
    requires
        depth <= key@.len(),
        handle.sound::<H>(),
        handle@.fits((key@.len() - depth) as nat),
        handle@.lookup(key@.skip(depth as int)) is Some,
    ensures
        r@ == handle@.insert(key@.skip(depth as int), value),
        r.sound::<H>(),
        r.settled() <==> handle@ is Digest,
    decreases handle,
{
    let ghost rest = key@.skip(depth as int);
    let total: usize = key.len();
    let node = match handle {
        NodeHandle::Hash(_) => {
            return NodeHandle::Hash(value);
        },
        NodeHandle::InMemory(node) => node,
    };
    match *node {
        Node::Binary(node) => {
            assert(rest.skip(1) =~= key@.skip(depth + 1));
            match Direction::from(key[depth]) {
                Direction::Left => {
                    let left = insert_value::<H>(node.left, key, depth + 1, value);
                    let node = BinaryNode { hash: None, left, right: node.right };
                    NodeHandle::InMemory(Box::new(Node::Binary(node)))
                },
                Direction::Right => {
                    let right = insert_value::<H>(node.right, key, depth + 1, value);
                    let node = BinaryNode { hash: None, left: node.left, right };
                    NodeHandle::InMemory(Box::new(Node::Binary(node)))
                },
            }
        },
        Node::Edge(node) => {
            let length: usize = node.path.0.len();
            proof {
                lemma_common_len(node.path@, rest);
                lemma_prefix_common(node.path@, rest);
            }
            if common_path(&node.path.0, key, depth) < length {
                return fork_handle::<H>(&node.path, node.child, key, depth, value);
            }
            assert(rest.skip(length as int) =~= key@.skip(depth + length));
            let child = insert_value::<H>(node.child, key, depth + length, value);
            let node = EdgeNode { hash: None, path: node.path, child };
            NodeHandle::InMemory(Box::new(Node::Edge(node)))
        },
    }
}

/// Whether the trie below a handle has no entry but the one under what is left of `key` after
/// `depth` bits.
pub(crate) fn is_sole(handle: &NodeHandle, key: &[bool], depth: usize) -> (r: bool)
    requires
        depth <= key@.len(),
        handle@.fits((key@.len() - depth) as nat),
    ensures
        r == (handle@.remove(key@.skip(depth as int)) is None),
    decreases handle,
{
    let total: usize = key.len();
    match handle {
        NodeHandle::Hash(_) => true,
        NodeHandle::InMemory(node) => match &**node {
            Node::Binary(_) => false,
            Node::Edge(node) => {
                let ghost rest = key@.skip(depth as int);
                let length: usize = node.path.0.len();
                proof {
                    lemma_common_len(node.path@, rest);
                    lemma_prefix_common(node.path@, rest);
                    assert(rest.skip(length as int) =~= key@.skip(depth + length));
                }
                common_path(&node.path.0, key, depth) == length && is_sole(
                    &node.child,
                    key,
                    depth + length,
                )
            },
        },
    }
}

/// A handle at the end of a path, as one edge if it starts with an edge.
pub(crate) fn absorb_handle<H: StarkHash>(path: Vec<bool>, below: NodeHandle) -> (r: NodeHandle)
    requires
        below.sound::<H>(),
    ensures
        r@ == absorb(path@, below@),
        r.sound::<H>(),
        !r.settled(),
{
    let (path, child) = match below {
        NodeHandle::Hash(hash) => (path, NodeHandle::Hash(hash)),
        NodeHandle::InMemory(node) => match *node {
            Node::Binary(node) => (path, NodeHandle::InMemory(Box::new(Node::Binary(node)))),
            Node::Edge(node) => {
                let mut whole = path;
                whole.extend_from_slice(&node.path.0);
                assert(whole@ =~= path@ + node.path@);
                (whole, node.child)
            },
        },
    };
    let node = EdgeNode { hash: None, path: Path(path), child };
    NodeHandle::InMemory(Box::new(Node::Edge(node)))
}

/// Removes the entry under what is left of `key` after `depth` bits.
pub(crate) fn remove_value<H: StarkHash>(
    handle: NodeHandle,
    key: &[bool],
    depth: usize,
) -> (r: Option<NodeHandle>)
    requires
        depth <= key@.len(),
        handle.sound::<H>(),
        handle@.fits((key@.len() - depth) as nat),
        handle@.lookup(key@.skip(depth as int)) is Some,
    ensures
        match r {
            Some(left) => handle@.remove(key@.skip(depth as int)) == Some(left@)
                && left.sound::<H>() && (handle@.lookup(key@.skip(depth as int)) != Some(
                Felt::of(0),
            ) ==> !left.settled()),
            None => handle@.remove(key@.skip(depth as int)) is None,
        },
    decreases handle,
{
    let ghost rest = key@.skip(depth as int);
    let total: usize = key.len();
    let node = match handle {
        NodeHandle::Hash(_) => {
            return None;
        },
        NodeHandle::InMemory(node) => node,
    };
    match *node {
        Node::Binary(node) => {
            assert(rest.skip(1) =~= key@.skip(depth + 1));
            match Direction::from(key[depth]) {
                Direction::Left => match remove_value::<H>(node.left, key, depth + 1) {
                    Some(left) => {
                        let node = BinaryNode { hash: None, left, right: node.right };
                        Some(NodeHandle::InMemory(Box::new(Node::Binary(node))))
                    },
                    None => {
                        let mut bits: Vec<bool> = Vec::new();
                        bits.push(true);
                        assert(bits@ =~= seq![true]);
                        Some(absorb_handle::<H>(bits, node.right))
                    },
                },
                Direction::Right => match remove_value::<H>(node.right, key, depth + 1) {
                    Some(right) => {
                        let node = BinaryNode { hash: None, left: node.left, right };
                        Some(NodeHandle::InMemory(Box::new(Node::Binary(node))))
                    },
                    None => {
                        let mut bits: Vec<bool> = Vec::new();
                        bits.push(false);
                        assert(bits@ =~= seq![false]);
                        Some(absorb_handle::<H>(bits, node.left))
                    },
                },
            }
        },
        Node::Edge(node) => {
            let length: usize = node.path.0.len();
            proof {
                lemma_common_len(node.path@, rest);
                lemma_prefix_common(node.path@, rest);
            }
            if common_path(&node.path.0, key, depth) < length {
                return Some(NodeHandle::InMemory(Box::new(Node::Edge(node))));
            }
            assert(rest.skip(length as int) =~= key@.skip(depth + length));
            match remove_value::<H>(node.child, key, depth + length) {
                Some(child) => Some(absorb_handle::<H>(node.path.0, child)),
                None => None,
            }
        },
    }
}

/// The value under what is left of `key` after `depth` bits.
pub(crate) fn value_at(handle: &NodeHandle, key: &[bool], depth: usize) -> (r: Felt)
    requires
        depth <= key@.len(),
        handle@.fits((key@.len() - depth) as nat),
        handle@.lookup(key@.skip(depth as int)) is Some,
    ensures
        handle@.lookup(key@.skip(depth as int)) == Some(r),
    decreases handle,
{
    let ghost rest = key@.skip(depth as int);
    let total: usize = key.len();
    match handle {
        NodeHandle::Hash(hash) => *hash,
        NodeHandle::InMemory(node) => match &**node {
            Node::Binary(node) => {
                assert(rest.skip(1) =~= key@.skip(depth + 1));
                match Direction::from(key[depth]) {
                    Direction::Left => value_at(&node.left, key, depth + 1),
                    Direction::Right => value_at(&node.right, key, depth + 1),
                }
            },
            Node::Edge(node) => {
                let length: usize = node.path.0.len();
                proof {
                    lemma_common_len(node.path@, rest);
                    lemma_prefix_common(node.path@, rest);
                    assert(rest.skip(length as int) =~= key@.skip(depth + length));
                }
                if common_path(&node.path.0, key, depth) < length {
                    Felt::zero()
                } else {
                    value_at(&node.child, key, depth + length)
                }
            },
        },
    }
}

} // verus!
