//! Loading nodes: what it leaves as it was, and when it succeeds.

use crate::felt::{Felt, StarkHash};
use crate::laws::nodes::nodes_of;
use crate::trie::merkle_node::NodeView;
use crate::trie::model::Trie;
use crate::trie::loading::{lemma_load_top_hash, lemma_load_way_hash, load_top, load_way};
use vstd::prelude::*;

verus! {

/// A loaded node has the height that it is loaded for, and says what is filed under its hash.
pub proof fn lemma_load_top<H: StarkHash>(
    trie: Trie,
    nodes: Map<Felt, NodeView>,
    key: Seq<bool>,
    depth: nat,
)
    requires
        depth < key.len(),
        trie.fits((key.len() - depth) as nat),
    ensures
        load_top::<H>(trie, nodes, key, depth) matches Ok(loaded) ==> {
            &&& !(loaded is Digest)
            &&& loaded.hash::<H>() == trie.hash::<H>()
            &&& loaded.fits((key.len() - depth) as nat)
            &&& !(trie is Digest) ==> loaded == trie
            &&& trie is Digest ==> nodes.contains_key(trie->0) && loaded.node::<H>()
                == nodes[trie->0]
            &&& nodes_of::<H>(trie).subset_of(nodes_of::<H>(loaded))
        },
{
    lemma_load_top_hash::<H>(trie, nodes, key, depth);
    reveal_with_fuel(Trie::hash, 2);
    reveal_with_fuel(Trie::fits, 2);
}

/// Loading keeps the height.
pub proof fn lemma_load_way_fits<H: StarkHash>(
    trie: Trie,
    nodes: Map<Felt, NodeView>,
    key: Seq<bool>,
    depth: nat,
)
    requires
        depth <= key.len(),
        trie.fits((key.len() - depth) as nat),
    ensures
        load_way::<H>(trie, nodes, key, depth).0.fits((key.len() - depth) as nat),
    decreases key.len() - depth,
{
    if depth < key.len() {
        lemma_load_top::<H>(trie, nodes, key, depth);
        match load_top::<H>(trie, nodes, key, depth) {
            Ok(Trie::Binary { left, right }) => {
                lemma_load_way_fits::<H>(*left, nodes, key, depth + 1);
                lemma_load_way_fits::<H>(*right, nodes, key, depth + 1);
            },
            Ok(Trie::Edge { path, child }) => {
                if path.is_prefix_of(key.skip(depth as int)) {
                    lemma_load_way_fits::<H>(*child, nodes, key, depth + path.len());
                }
            },
            _ => {},
        }
    }
}

/// Loading adds to the nodes of a trie.
pub proof fn lemma_load_way_nodes<H: StarkHash>(
    trie: Trie,
    nodes: Map<Felt, NodeView>,
    key: Seq<bool>,
    depth: nat,
)
    requires
        depth <= key.len(),
        trie.fits((key.len() - depth) as nat),
    ensures
        nodes_of::<H>(trie).subset_of(
            nodes_of::<H>(load_way::<H>(trie, nodes, key, depth).0),
        ),
    decreases key.len() - depth,
{
    if depth < key.len() {
        lemma_load_top::<H>(trie, nodes, key, depth);
        let loaded = load_way::<H>(trie, nodes, key, depth).0;
        match load_top::<H>(trie, nodes, key, depth) {
            Ok(Trie::Binary { left, right }) => {
                let child = if key[depth as int] {
                    *right
                } else {
                    *left
                };
                lemma_load_way_nodes::<H>(child, nodes, key, depth + 1);
                lemma_load_way_hash::<H>(child, nodes, key, depth + 1);
            },
            Ok(Trie::Edge { path, child }) => {
                if path.is_prefix_of(key.skip(depth as int)) {
                    lemma_load_way_nodes::<H>(*child, nodes, key, depth + path.len());
                    lemma_load_way_hash::<H>(*child, nodes, key, depth + path.len());
                }
            },
            _ => {},
        }
    }
}

/// Loading the way to one key changes neither a value that is known under another nor the way to
/// it.
pub proof fn lemma_load_way_keeps<H: StarkHash>(
    trie: Trie,
    nodes: Map<Felt, NodeView>,
    key: Seq<bool>,
    depth: nat,
    other: Seq<bool>,
)
    requires
        depth <= key.len(),
        other.len() == key.len(),
        trie.fits((key.len() - depth) as nat),
        trie.lookup(other.skip(depth as int)) is Some,
    ensures
        load_way::<H>(trie, nodes, key, depth).0.lookup(other.skip(depth as int)) == trie.lookup(
            other.skip(depth as int),
        ),
        load_way::<H>(trie, nodes, key, depth).0.way::<H>(other, depth) == trie.way::<H>(
            other,
            depth,
        ),
    decreases key.len() - depth,
{
    if depth < key.len() {
        let rest = other.skip(depth as int);
        lemma_load_top::<H>(trie, nodes, key, depth);
        match load_top::<H>(trie, nodes, key, depth) {
            Ok(Trie::Binary { left, right }) => {
                assert(rest.skip(1) =~= other.skip(depth as int + 1));
                lemma_load_way_hash::<H>(*left, nodes, key, depth + 1);
                lemma_load_way_hash::<H>(*right, nodes, key, depth + 1);
                if key[depth as int] == other[depth as int] {
                    lemma_load_way_keeps::<H>(
                        trie.side(key[depth as int]),
                        nodes,
                        key,
                        depth + 1,
                        other,
                    );
                }
            },
            Ok(Trie::Edge { path, child }) => {
                if path.is_prefix_of(key.skip(depth as int)) {
                    lemma_load_way_hash::<H>(*child, nodes, key, depth + path.len());
                    if path.is_prefix_of(rest) {
                        assert(rest.skip(path.len() as int) =~= other.skip(
                            (depth + path.len()) as int,
                        ));
                        lemma_load_way_keeps::<H>(*child, nodes, key, depth + path.len(), other);
                    }
                }
            },
            _ => {},
        }
    }
}

} // verus!
