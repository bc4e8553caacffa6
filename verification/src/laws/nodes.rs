//! Sets of nodes, and when their hashes tell them apart.

use crate::felt::{Felt, StarkHash};
use crate::trie::merkle_node::{node_hash, NodeView};
use crate::trie::model::{file_way, well_filed, Trie};
use vstd::prelude::*;

verus! {

/// No two different nodes of the set have the same hash.
pub open spec fn collision_free<H: StarkHash>(nodes: Set<NodeView>) -> bool {
    forall|a: NodeView, b: NodeView|
        #[trigger] nodes.contains(a) && #[trigger] nodes.contains(b) && node_hash::<H>(a)
            == node_hash::<H>(b) ==> a == b
}

/// What no two different nodes of a set have, no two of a part of it have.
pub proof fn lemma_collision_free_part<H: StarkHash>(part: Set<NodeView>, all: Set<NodeView>)
    requires
        part.subset_of(all),
        collision_free::<H>(all),
    ensures
        collision_free::<H>(part),
{
    assert forall|a: NodeView, b: NodeView|
        #[trigger] part.contains(a) && #[trigger] part.contains(b) && node_hash::<H>(a)
            == node_hash::<H>(b) implies a == b by {
        assert(all.contains(a) && all.contains(b));
    }
}

/// Every node of the map is in the set.
pub open spec fn within(nodes: Map<Felt, NodeView>, all: Set<NodeView>) -> bool {
    forall|hash: Felt| #[trigger] nodes.contains_key(hash) ==> all.contains(nodes[hash])
}

/// The nodes of a trie.
pub open spec fn nodes_of<H: StarkHash>(trie: Trie) -> Set<NodeView>
    decreases trie,
{
    match trie {
        Trie::Digest(_) => Set::empty(),
        Trie::Binary { left, right } => nodes_of::<H>(*left).union(nodes_of::<H>(*right)).insert(
            trie.node::<H>(),
        ),
        Trie::Edge { path, child } => nodes_of::<H>(*child).insert(trie.node::<H>()),
    }
}

/// The map holds every node of a way under its hash.
pub open spec fn holds_way<H: StarkHash>(
    nodes: Map<Felt, NodeView>,
    way: Seq<(Seq<bool>, NodeView)>,
) -> bool {
    forall|i: int|
        0 <= i < way.len() ==> nodes.contains_pair(
            node_hash::<H>((#[trigger] way[i]).1),
            way[i].1,
        )
}

/// The nodes of a map are within the values of the map.
pub proof fn lemma_within_values(nodes: Map<Felt, NodeView>, more: Set<NodeView>)
    ensures
        within(nodes, more.union(nodes.values())),
{
    assert forall|hash: Felt| #[trigger] nodes.contains_key(hash) implies more.union(
        nodes.values(),
    ).contains(nodes[hash]) by {
        assert(nodes.values().contains(nodes[hash]));
    }
}

/// The nodes on a way through a trie are nodes of the trie.
pub proof fn lemma_way_nodes<H: StarkHash>(trie: Trie, key: Seq<bool>, depth: nat, i: int)
    requires
        0 <= i < trie.way::<H>(key, depth).len(),
    ensures
        nodes_of::<H>(trie).contains(trie.way::<H>(key, depth)[i].1),
    decreases trie,
{
    match trie {
        Trie::Digest(_) => {},
        Trie::Binary { left, right } => {
            if i > 0 {
                if key[depth as int] {
                    lemma_way_nodes::<H>(*right, key, depth + 1, i - 1);
                } else {
                    lemma_way_nodes::<H>(*left, key, depth + 1, i - 1);
                }
            }
        },
        Trie::Edge { path, child } => {
            if i > 0 {
                lemma_way_nodes::<H>(*child, key, depth + path.len(), i - 1);
            }
        },
    }
}

/// A way is held exactly if its first node is held and the rest of it is.
pub proof fn lemma_holds_way_step<H: StarkHash>(
    nodes: Map<Felt, NodeView>,
    here: (Seq<bool>, NodeView),
    lower: Seq<(Seq<bool>, NodeView)>,
)
    ensures
        holds_way::<H>(nodes, seq![here] + lower) <==> nodes.contains_pair(
            node_hash::<H>(here.1),
            here.1,
        ) && holds_way::<H>(nodes, lower),
{
    let way = seq![here] + lower;
    if holds_way::<H>(nodes, way) {
        assert(way[0] == here);
        assert forall|i: int| 0 <= i < lower.len() implies nodes.contains_pair(
            node_hash::<H>((#[trigger] lower[i]).1),
            lower[i].1,
        ) by {
            assert(way[i + 1] == lower[i]);
        }
    }
    if nodes.contains_pair(node_hash::<H>(here.1), here.1) && holds_way::<H>(nodes, lower) {
        assert forall|i: int| 0 <= i < way.len() implies nodes.contains_pair(
            node_hash::<H>((#[trigger] way[i]).1),
            way[i].1,
        ) by {
            if i > 0 {
                assert(way[i] == lower[i - 1]);
            }
        }
    }
}

/// Filing a way adds its nodes, and keeps what was there.
pub proof fn lemma_file_way<H: StarkHash>(
    way: Seq<(Seq<bool>, NodeView)>,
    nodes: Map<Felt, NodeView>,
    all: Set<NodeView>,
)
    requires
        collision_free::<H>(all),
        well_filed::<H>(nodes),
        within(nodes, all),
        forall|i: int| 0 <= i < way.len() ==> all.contains((#[trigger] way[i]).1),
    ensures
        well_filed::<H>(file_way::<H>(way, nodes)),
        within(file_way::<H>(way, nodes), all),
        nodes.submap_of(file_way::<H>(way, nodes)),
        holds_way::<H>(file_way::<H>(way, nodes), way),
    decreases way.len(),
{
    if way.len() > 0 {
        let upper = way.drop_last();
        assert forall|i: int| 0 <= i < upper.len() implies all.contains(
            (#[trigger] upper[i]).1,
        ) by {
            assert(upper[i] == way[i]);
        }
        lemma_file_way::<H>(upper, nodes, all);
        let before = file_way::<H>(upper, nodes);
        let node = way.last().1;
        let hash = node_hash::<H>(node);
        let after = before.insert(hash, node);
        assert(all.contains(node)) by {
            assert(way[way.len() - 1].1 == node);
        }
        if before.contains_key(hash) {
            assert(all.contains(before[hash]));
            assert(before[hash] == node);
        }
        assert(before.submap_of(after));
        assert(nodes.submap_of(after)) by {
            assert forall|h: Felt| #[trigger] nodes.dom().contains(h) implies after.dom().contains(
                h,
            ) && nodes[h] == after[h] by {
                assert(before.dom().contains(h));
                assert(after.dom().contains(h));
            }
        }
        assert forall|i: int| 0 <= i < way.len() implies after.contains_pair(
            node_hash::<H>((#[trigger] way[i]).1),
            way[i].1,
        ) by {
            if i < upper.len() {
                assert(upper[i] == way[i]);
                assert(before.dom().contains(node_hash::<H>(way[i].1)));
                assert(after.dom().contains(node_hash::<H>(way[i].1)));
            }
        }
    }
}

/// What holds a way, more nodes hold too.
pub proof fn lemma_holds_more<H: StarkHash>(
    nodes: Map<Felt, NodeView>,
    more: Map<Felt, NodeView>,
    way: Seq<(Seq<bool>, NodeView)>,
)
    requires
        nodes.submap_of(more),
        holds_way::<H>(nodes, way),
    ensures
        holds_way::<H>(more, way),
{
    assert forall|i: int| 0 <= i < way.len() implies more.contains_pair(
        node_hash::<H>((#[trigger] way[i]).1),
        way[i].1,
    ) by {
        assert(nodes.dom().contains(node_hash::<H>(way[i].1)));
    }
}

} // verus!
