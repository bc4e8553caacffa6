//! The nodes that are stored.

use crate::felt::Felt;
use crate::trie::merkle_node::NodeView;
use crate::trie::node_map::NodeMap;
use crate::trie::proofs::ProofNode;
use vstd::prelude::*;

verus! {

/// The nodes of the committed trees, by their hashes.
#[derive(Debug)]
pub struct KeyValueDB {
    nodes: NodeMap,
}

impl View for KeyValueDB {
    type V = Map<Felt, NodeView>;

    closed spec fn view(&self) -> Map<Felt, NodeView> {
        self.nodes@
    }
}

impl KeyValueDB {
    /// A storage without nodes.
    pub fn new() -> (r: KeyValueDB)
        ensures
            r@ == Map::<Felt, NodeView>::empty(),
    {
        KeyValueDB { nodes: NodeMap::new() }
    }

    /// The node under a hash.
    pub fn get(&self, hash: &Felt) -> (r: Option<&ProofNode>)
        ensures
            r is Some <==> self@.contains_key(*hash),
            r matches Some(node) ==> node@ == self@[*hash],
    {
        self.nodes.get(hash)
    }

    /// Puts a node under a hash, in place of any node that was there.
    pub fn insert(&mut self, hash: Felt, node: ProofNode)
        ensures
            final(self)@ == old(self)@.insert(hash, node@),
    {
        self.nodes.insert(hash, node);
    }
}

} // verus!
