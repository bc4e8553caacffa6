//! Committing a tree, and reading it back.

use crate::felt::{Felt, StarkHash};
use crate::laws::forking::{
    complete, lemma_load_way_prunes, lemma_prunes_hash, lemma_prunes_lookup, missing, prunes,
};
use crate::laws::nodes::{
    collision_free, holds_way, lemma_way_nodes, lemma_within_values, nodes_of, within,
};
use crate::trie::merkle_node::{node_hash, NodeView};
use crate::trie::model::{lemma_node_hash, well_filed, Trie};
use crate::trie::loading::{lemma_load_way_known, load_way};
use vstd::prelude::*;

verus! {

/// The map holds every node of the set under its hash.
pub open spec fn holds_nodes<H: StarkHash>(
    nodes: Map<Felt, NodeView>,
    held: Set<NodeView>,
) -> bool {
    forall|node: NodeView| #[trigger]
        held.contains(node) ==> nodes.contains_pair(node_hash::<H>(node), node)
}

/// Adding a node under its hash changes nothing but that the node is there.
pub proof fn lemma_insert_node<H: StarkHash>(
    nodes: Map<Felt, NodeView>,
    node: NodeView,
    all: Set<NodeView>,
)
    requires
        collision_free::<H>(all),
        all.contains(node),
        within(nodes, all),
        well_filed::<H>(nodes),
    ensures
        well_filed::<H>(nodes.insert(node_hash::<H>(node), node)),
        within(nodes.insert(node_hash::<H>(node), node), all),
        nodes.submap_of(nodes.insert(node_hash::<H>(node), node)),
{
    let hash = node_hash::<H>(node);
    if nodes.contains_key(hash) {
        assert(all.contains(nodes[hash]));
    }
}

/// What holds a node, more nodes hold too.
pub proof fn lemma_holds_nodes_more<H: StarkHash>(
    nodes: Map<Felt, NodeView>,
    more: Map<Felt, NodeView>,
    held: Set<NodeView>,
)
    requires
        nodes.submap_of(more),
        holds_nodes::<H>(nodes, held),
    ensures
        holds_nodes::<H>(more, held),
{
    assert forall|node: NodeView| #[trigger] held.contains(node) implies more.contains_pair(
        node_hash::<H>(node),
        node,
    ) by {
        assert(nodes.dom().contains(node_hash::<H>(node)));
    }
}

/// Storing a trie adds its nodes, and keeps what was there.
pub proof fn lemma_store<H: StarkHash>(
    trie: Trie,
    nodes: Map<Felt, NodeView>,
    all: Set<NodeView>,
)
    requires
        collision_free::<H>(all),
        nodes_of::<H>(trie).subset_of(all),
        within(nodes, all),
        well_filed::<H>(nodes),
    ensures
        well_filed::<H>(trie.store::<H>(nodes)),
        within(trie.store::<H>(nodes), all),
        nodes.submap_of(trie.store::<H>(nodes)),
        holds_nodes::<H>(trie.store::<H>(nodes), nodes_of::<H>(trie)),
    decreases trie,
{
    let after = trie.store::<H>(nodes);
    match trie {
        Trie::Digest(_) => {},
        Trie::Binary { left, right } => {
            let one = left.store::<H>(nodes);
            let two = right.store::<H>(one);
            lemma_store::<H>(*left, nodes, all);
            lemma_store::<H>(*right, one, all);
            lemma_node_hash::<H>(trie);
            lemma_insert_node::<H>(two, trie.node::<H>(), all);
            lemma_submap_trans(nodes, one, two);
            lemma_submap_trans(one, two, after);
            lemma_submap_trans(nodes, two, after);
            lemma_holds_nodes_more::<H>(one, after, nodes_of::<H>(*left));
            lemma_holds_nodes_more::<H>(two, after, nodes_of::<H>(*right));
        },
        Trie::Edge { path, child } => {
            let one = child.store::<H>(nodes);
            lemma_store::<H>(*child, nodes, all);
            lemma_node_hash::<H>(trie);
            lemma_insert_node::<H>(one, trie.node::<H>(), all);
            lemma_submap_trans(nodes, one, after);
            lemma_holds_nodes_more::<H>(one, after, nodes_of::<H>(*child));
        },
    }
}

/// A part of a part of a map is a part of the map.
pub proof fn lemma_submap_trans(
    a: Map<Felt, NodeView>,
    b: Map<Felt, NodeView>,
    c: Map<Felt, NodeView>,
)
    requires
        a.submap_of(b),
        b.submap_of(c),
    ensures
        a.submap_of(c),
{
    assert forall|hash: Felt| #[trigger] a.dom().contains(hash) implies c.dom().contains(hash)
        && a[hash] == c[hash] by {
        assert(b.dom().contains(hash));
    }
}

/// Committing a tree keeps every node that is stored, and every node stays under its own hash,
/// unless two different nodes have the same hash.
pub proof fn law_commit_keeps_nodes<H: StarkHash>(trie: Trie, stored: Map<Felt, NodeView>)
    requires
        well_filed::<H>(stored),
        collision_free::<H>(nodes_of::<H>(trie).union(stored.values())),
    ensures
        well_filed::<H>(trie.store::<H>(stored)),
        stored.submap_of(trie.store::<H>(stored)),
        holds_nodes::<H>(trie.store::<H>(stored), nodes_of::<H>(trie)),
{
    lemma_within_values(stored, nodes_of::<H>(trie));
    lemma_store::<H>(trie, stored, nodes_of::<H>(trie).union(stored.values()));
}

/// A committed tree can be read back by its root hash: the way to every key can be loaded, and the
/// value under it is the one in the tree.
pub proof fn law_commit_can_be_read<H: StarkHash>(
    trie: Trie,
    stored: Map<Felt, NodeView>,
    key: Seq<bool>,
)
    requires
        complete(trie, key.len()),
        well_filed::<H>(stored),
        collision_free::<H>(nodes_of::<H>(trie).union(stored.values())),
    ensures
        ({
            let (loaded, error) = load_way::<H>(
                Trie::Digest(trie.hash::<H>()),
                trie.store::<H>(stored),
                key,
                0,
            );
            &&& error is None
            &&& prunes::<H>(loaded, trie)
            &&& loaded.hash::<H>() == trie.hash::<H>()
            &&& loaded.lookup(key) is Some
            &&& loaded.lookup(key) == trie.lookup(key)
        }),
{
    let all = nodes_of::<H>(trie).union(stored.values());
    let nodes = trie.store::<H>(stored);
    let digest = Trie::Digest(trie.hash::<H>());
    lemma_within_values(stored, nodes_of::<H>(trie));
    lemma_store::<H>(trie, stored, all);
    let way = missing::<H>(digest, trie, key, 0);
    assert forall|i: int| 0 <= i < way.len() implies nodes.contains_pair(
        node_hash::<H>((#[trigger] way[i]).1),
        way[i].1,
    ) by {
        lemma_way_nodes::<H>(trie, key, 0, i);
    }
    assert(holds_way::<H>(nodes, way));
    lemma_load_way_prunes::<H>(digest, trie, nodes, all, key, 0);
    let loaded = load_way::<H>(digest, nodes, key, 0).0;
    assert(key.skip(0) =~= key);
    lemma_load_way_known::<H>(digest, nodes, key, 0);
    lemma_prunes_hash::<H>(loaded, trie);
    lemma_prunes_lookup::<H>(loaded, trie, key);
}

/// Committing a tree stores its nodes and nothing else: what is stored after it was stored before,
/// or is a node of the tree under its own hash. No hash gets lost, and the hash of every node of
/// the tree is there.
pub proof fn law_commit_stores_nodes<H: StarkHash>(
    trie: Trie,
    stored: Map<Felt, NodeView>,
    hash: Felt,
    node: NodeView,
)
    ensures
        ({
            let after = trie.store::<H>(stored);
            &&& stored.contains_key(hash) ==> after.contains_key(hash)
            &&& after.contains_key(hash) ==> {
                ||| stored.contains_pair(hash, after[hash])
                ||| nodes_of::<H>(trie).contains(after[hash]) && node_hash::<H>(after[hash])
                    == hash
            }
            &&& nodes_of::<H>(trie).contains(node) ==> after.contains_key(node_hash::<H>(node))
        }),
    decreases trie,
{
    match trie {
        Trie::Digest(_) => {},
        Trie::Binary { left, right } => {
            let between = left.store::<H>(stored);
            lemma_node_hash::<H>(trie);
            law_commit_stores_nodes::<H>(*left, stored, hash, node);
            law_commit_stores_nodes::<H>(*right, between, hash, node);
            law_commit_stores_nodes::<H>(*right, between, node_hash::<H>(node), node);
        },
        Trie::Edge { child, .. } => {
            lemma_node_hash::<H>(trie);
            law_commit_stores_nodes::<H>(*child, stored, hash, node);
        },
    }
}

} // verus!
