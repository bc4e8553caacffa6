//! The two kinds of inner nodes and their hashes.

use crate::felt::{prime, Felt, StarkHash};
use crate::trie::model::Trie;
use crate::trie::path::{bits_value, Path};
use vstd::arithmetic::div_mod::lemma_add_mod_noop;
use vstd::prelude::*;

verus! {

/// The side of a binary node that a bit of the key selects.
#[derive(Clone, Copy, Debug, PartialEq, Eq, Structural)]
pub enum Direction {
    Left,
    Right,
}

impl Direction {
    /// A set bit leads to the right, a clear one to the left.
    pub open spec fn of(bit: bool) -> Direction {
        if bit {
            Direction::Right
        } else {
            Direction::Left
        }
    }
}

impl vstd::std_specs::convert::FromSpecImpl<bool> for Direction {
    open spec fn obeys_from_spec() -> bool {
        true
    }

    open spec fn from_spec(bit: bool) -> Direction {
        Direction::of(bit)
    }
}

impl From<bool> for Direction {
    fn from(bit: bool) -> (r: Direction) {
        if bit {
            Direction::Right
        } else {
            Direction::Left
        }
    }
}

/// What an inner node says: the hashes of its children, and for an edge the bits that lead to
/// its only child.
#[verifier::ext_equal]
pub enum NodeView {
    Binary { left: Felt, right: Felt },
    Edge { child: Felt, path: Seq<bool> },
}

/// The hash of a binary node.
pub open spec fn binary_hash<H: StarkHash>(left: Felt, right: Felt) -> Felt {
    H::hash_of(left, right)
}

/// The hash of an edge: the hash of the child's hash and of the number that the path spells, plus
/// the length of the path.
pub open spec fn edge_hash<H: StarkHash>(path: Seq<bool>, child: Felt) -> Felt {
    Felt::of((H::hash_of(child, Felt::of(bits_value(path) % prime()))@ + path.len()) % prime())
}

/// The hash of a node.
pub open spec fn node_hash<H: StarkHash>(node: NodeView) -> Felt {
    match node {
        NodeView::Binary { left, right } => binary_hash::<H>(left, right),
        NodeView::Edge { child, path } => edge_hash::<H>(path, child),
    }
}

/// `node` with `hash` in place of the child that `bit` selects.
pub open spec fn with_child(node: NodeView, bit: bool, hash: Felt) -> NodeView {
    match node {
        NodeView::Binary { left, right } => if bit {
            NodeView::Binary { left, right: hash }
        } else {
            NodeView::Binary { left: hash, right }
        },
        NodeView::Edge { path, .. } => NodeView::Edge { child: hash, path },
    }
}

/// Computes the hash of a binary node.
pub fn hash_binary_node<H: StarkHash>(left: Felt, right: Felt) -> (r: Felt)
    ensures
        r == binary_hash::<H>(left, right),
        r == H::hash_of(left, right),
{
    H::hash(&left, &right)
}

/// The field element that a path spells.
fn path_felt(path: &Path) -> (r: Felt)
    ensures
        r == Felt::of(bits_value(path@) % prime()),
{
    let one = Felt::from_u64(1);
    let mut sum = Felt::zero();
    let mut i: usize = 0;
    while i < path.0.len()
        invariant
            i <= path@.len(),
            one@ == 1,
            sum@ == bits_value(path@.take(i as int)) % prime(),
        decreases path@.len() - i,
    {
        let ghost before = bits_value(path@.take(i as int));
        assert(path@.take(i + 1).drop_last() =~= path@.take(i as int));
        proof {
            lemma_add_mod_noop(before as int, before as int, prime() as int);
        }
        sum = sum.plus(&sum);
        if path.0[i] {
            proof {
                lemma_add_mod_noop(2 * before as int, 1, prime() as int);
            }
            sum = sum.plus(&one);
        }
        i += 1;
    }
    assert(path@.take(i as int) =~= path@);
    proof {
        sum.lemma_of_view();
    }
    sum
}

/// Computes the hash of an edge.
pub fn hash_edge_node<H: StarkHash>(path: &Path, child: Felt) -> (r: Felt)
    ensures
        r == edge_hash::<H>(path@, child),
        r@ == (H::hash_of(child, Felt::of(bits_value(path.0@) % prime()))@ + path.0@.len())
            % prime(),
{
    let bits = path_felt(path);
    let length = Felt::from_u64(path.0.len() as u64);
    H::hash(&child, &bits).plus(&length)
}

/// What stands below a node: another node, or the hash of one that is not loaded. At the full
/// height it is the value of an entry.
#[derive(Debug)]
pub enum NodeHandle {
    Hash(Felt),
    InMemory(Box<Node>),
}

/// A node of a tree.
#[derive(Debug)]
pub enum Node {
    Binary(BinaryNode),
    Edge(EdgeNode),
}

/// A node with two children.
#[derive(Debug)]
pub struct BinaryNode {
    /// The hash of the node, unless a change below it made it stale.
    pub hash: Option<Felt>,
    pub left: NodeHandle,
    pub right: NodeHandle,
}

/// A node with one child at the end of a path.
#[derive(Debug)]
pub struct EdgeNode {
    /// The hash of the node, unless a change below it made it stale.
    pub hash: Option<Felt>,
    pub path: Path,
    pub child: NodeHandle,
}

impl View for NodeHandle {
    type V = Trie;

    open spec fn view(&self) -> Trie {
        self.trie()
    }
}

impl Node {
    /// The hash of the node, unless it is stale.
    pub open spec fn cached(self) -> Option<Felt> {
        match self {
            Node::Binary(node) => node.hash,
            Node::Edge(node) => node.hash,
        }
    }

    /// The hash of the node, unless it is stale.
    pub fn get_hash(&self) -> (r: Option<Felt>)
        ensures
            r == self.cached(),
    {
        match self {
            Node::Binary(node) => node.hash,
            Node::Edge(node) => node.hash,
        }
    }
}

impl NodeHandle {
    /// The trie below the handle.
    pub open spec fn trie(self) -> Trie
        decreases self,
    {
        match self {
            NodeHandle::Hash(hash) => Trie::Digest(hash),
            NodeHandle::InMemory(node) => match *node {
                Node::Binary(node) => Trie::Binary {
                    left: Box::new(node.left.trie()),
                    right: Box::new(node.right.trie()),
                },
                Node::Edge(node) => Trie::Edge {
                    path: node.path@,
                    child: Box::new(node.child.trie()),
                },
            },
        }
    }

    /// No hash that a node below the handle keeps is stale.
    pub open spec fn sound<H: StarkHash>(self) -> bool
        decreases self,
    {
        match self {
            NodeHandle::Hash(_) => true,
            NodeHandle::InMemory(node) => {
                &&& node.cached() is Some ==> node.cached() == Some(self.trie().hash::<H>())
                &&& match *node {
                    Node::Binary(node) => node.left.sound::<H>() && node.right.sound::<H>(),
                    Node::Edge(node) => node.child.sound::<H>(),
                }
            },
        }
    }

    /// The hash of the trie below the handle is at hand.
    pub open spec fn settled(self) -> bool {
        match self {
            NodeHandle::Hash(_) => true,
            NodeHandle::InMemory(node) => node.cached() is Some,
        }
    }

    /// The hash of the trie below the handle, from the hashes that are kept where they are not
    /// stale.
    pub fn get_or_compute_node_hash<H: StarkHash>(&self) -> (r: Felt)
        requires
            self.sound::<H>(),
        ensures
            r == self@.hash::<H>(),
        decreases self,
    {
        match self {
            NodeHandle::Hash(hash) => *hash,
            NodeHandle::InMemory(node) => match node.get_hash() {
                Some(hash) => hash,
                None => match &**node {
                    Node::Binary(node) => {
                        let left = node.left.get_or_compute_node_hash::<H>();
                        let right = node.right.get_or_compute_node_hash::<H>();
                        hash_binary_node::<H>(left, right)
                    },
                    Node::Edge(node) => {
                        let child = node.child.get_or_compute_node_hash::<H>();
                        hash_edge_node::<H>(&node.path, child)
                    },
                },
            },
        }
    }

    /// Computes the hashes that are stale.
    pub fn settle<H: StarkHash>(self) -> (r: (NodeHandle, Felt))
        requires
            self.sound::<H>(),
        ensures
            r.0@ == self@,
            r.0.sound::<H>(),
            r.0.settled(),
            r.1 == self@.hash::<H>(),
        decreases self,
    {
        let node = match self {
            NodeHandle::Hash(hash) => {
                return (NodeHandle::Hash(hash), hash);
            },
            NodeHandle::InMemory(node) => node,
        };
        if let Some(hash) = node.get_hash() {
            return (NodeHandle::InMemory(node), hash);
        }
        match *node {
            Node::Binary(node) => {
                let (left, left_hash) = node.left.settle::<H>();
                let (right, right_hash) = node.right.settle::<H>();
                let hash = hash_binary_node::<H>(left_hash, right_hash);
                let node = BinaryNode { hash: Some(hash), left, right };
                (NodeHandle::InMemory(Box::new(Node::Binary(node))), hash)
            },
            Node::Edge(node) => {
                let (child, child_hash) = node.child.settle::<H>();
                let hash = hash_edge_node::<H>(&node.path, child_hash);
                let node = EdgeNode { hash: Some(hash), path: node.path, child };
                (NodeHandle::InMemory(Box::new(Node::Edge(node))), hash)
            },
        }
    }
}

} // verus!
