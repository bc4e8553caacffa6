//! Telling the root hash after an insertion from nodes that are known.

use crate::felt::{Felt, StarkHash};
use crate::laws::forking::{
    complete, lemma_complete, lemma_insert_complete, lemma_insert_missing, lemma_insert_prunes,
    lemma_prunes_hash, lemma_prunes_node, lemma_prunes_nodes, missing, prunes,
};
use crate::trie::hops::{hop, hops, lands, lands_after};
use crate::laws::nodes::{
    collision_free, holds_way, lemma_collision_free_part, lemma_way_nodes, lemma_within_values,
    nodes_of, within,
};
use crate::laws::proving::law_whole_tree_proves;
use crate::laws::storing::{
    holds_nodes, lemma_holds_nodes_more, lemma_insert_node, lemma_store, lemma_submap_trans,
};
use crate::trie::loading::{at_hand, lemma_load_way_idle};
use crate::trie::merkle_node::{node_hash, with_child, NodeView};
use crate::trie::model::{
    fork, lemma_insert_lookup, lemma_node_hash, lemma_store_filed, own_hashed, well_filed, Trie,
};
use crate::trie::partial::{
    beside, carry_up, insertion, insertion_at, lemma_empty_edge, lemma_take_node, take_node,
};
use crate::trie::partial_trie::PartialTrieErrorView;
use crate::trie::proofs::{walk, MultiProof, VerificationErrorView};
use crate::trie::tree::{prove_keys, root_digest, set_value};
use vstd::prelude::*;

verus! {

/// Every node of a way is known or in the proof.
pub open spec fn reachable<H: StarkHash>(
    known: Map<Felt, NodeView>,
    proof_nodes: Map<Felt, NodeView>,
    way: Seq<(Seq<bool>, NodeView)>,
) -> bool {
    forall|i: int|
        0 <= i < way.len() ==> known.contains_key(node_hash::<H>((#[trigger] way[i]).1))
            || proof_nodes.contains_key(node_hash::<H>(way[i].1))
}

/// A way is at hand exactly if its first node is and the rest of it is.
proof fn lemma_reachable_step<H: StarkHash>(
    known: Map<Felt, NodeView>,
    proof_nodes: Map<Felt, NodeView>,
    here: (Seq<bool>, NodeView),
    lower: Seq<(Seq<bool>, NodeView)>,
)
    ensures
        reachable::<H>(known, proof_nodes, seq![here] + lower) <==> (known.contains_key(
            node_hash::<H>(here.1),
        ) || proof_nodes.contains_key(node_hash::<H>(here.1))) && reachable::<H>(
            known,
            proof_nodes,
            lower,
        ),
        proof_nodes.contains_key(node_hash::<H>(here.1)) ==> (reachable::<H>(
            known.insert(node_hash::<H>(here.1), here.1),
            proof_nodes,
            lower,
        ) <==> reachable::<H>(known, proof_nodes, lower)),
{
    let way = seq![here] + lower;
    if reachable::<H>(known, proof_nodes, way) {
        assert(way[0] == here);
        assert forall|i: int| 0 <= i < lower.len() implies known.contains_key(
            node_hash::<H>((#[trigger] lower[i]).1),
        ) || proof_nodes.contains_key(node_hash::<H>(lower[i].1)) by {
            assert(way[i + 1] == lower[i]);
        }
    }
    if reachable::<H>(known, proof_nodes, lower) && (known.contains_key(node_hash::<H>(here.1))
        || proof_nodes.contains_key(node_hash::<H>(here.1))) {
        assert forall|i: int| 0 <= i < way.len() implies known.contains_key(
            node_hash::<H>((#[trigger] way[i]).1),
        ) || proof_nodes.contains_key(node_hash::<H>(way[i].1)) by {
            if i > 0 {
                assert(way[i] == lower[i - 1]);
            }
        }
    }
}

/// What an insertion sees of a trie: the nodes on the way to the key.
pub open spec fn skeleton<H: StarkHash>(trie: Trie, key: Seq<bool>) -> Trie
    decreases trie,
{
    match trie {
        Trie::Digest(_) => trie,
        Trie::Binary { left, right } => if key[0] {
            Trie::Binary {
                left: Box::new(Trie::Digest(left.hash::<H>())),
                right: Box::new(skeleton::<H>(*right, key.skip(1))),
            }
        } else {
            Trie::Binary {
                left: Box::new(skeleton::<H>(*left, key.skip(1))),
                right: Box::new(Trie::Digest(right.hash::<H>())),
            }
        },
        Trie::Edge { path, child } => if path.is_prefix_of(key) {
            Trie::Edge {
                path,
                child: Box::new(skeleton::<H>(*child, key.skip(path.len() as int))),
            }
        } else {
            Trie::Edge { path, child: Box::new(Trie::Digest(child.hash::<H>())) }
        },
    }
}

/// The skeleton of a trie is a part of it that knows the value under the key.
proof fn lemma_skeleton<H: StarkHash>(trie: Trie, key: Seq<bool>)
    requires
        complete(trie, key.len()),
    ensures
        prunes::<H>(skeleton::<H>(trie, key), trie),
        skeleton::<H>(trie, key).fits(key.len()),
        skeleton::<H>(trie, key).lookup(key) is Some,
    decreases trie,
{
    reveal_with_fuel(prunes, 2);
    reveal_with_fuel(Trie::fits, 2);
    match trie {
        Trie::Digest(_) => {},
        Trie::Binary { .. } => {
            lemma_skeleton::<H>(trie.side(key[0]), key.skip(1));
        },
        Trie::Edge { path, child } => {
            if path.is_prefix_of(key) {
                lemma_skeleton::<H>(*child, key.skip(path.len() as int));
            }
        },
    }
}

/// A way that a part of a trie knows is the way through the trie.
proof fn lemma_prunes_way<H: StarkHash>(part: Trie, whole: Trie, key: Seq<bool>, depth: nat)
    requires
        depth <= key.len(),
        prunes::<H>(part, whole),
        complete(whole, (key.len() - depth) as nat),
        part.lookup(key.skip(depth as int)) is Some,
    ensures
        part.way::<H>(key, depth) == whole.way::<H>(key, depth),
    decreases part,
{
    let rest = key.skip(depth as int);
    match part {
        Trie::Digest(_) => {},
        Trie::Binary { .. } => {
            let bit = key[depth as int];
            lemma_prunes_node::<H>(part, whole);
            assert(rest.skip(1) =~= key.skip(depth as int + 1));
            lemma_prunes_way::<H>(part.side(bit), whole.side(bit), key, depth + 1);
        },
        Trie::Edge { path, child } => {
            lemma_prunes_node::<H>(part, whole);
            if path.is_prefix_of(rest) {
                assert(rest.skip(path.len() as int) =~= key.skip((depth + path.len()) as int));
                lemma_prunes_way::<H>(*child, *whole->child, key, depth + path.len());
            }
        },
    }
}

/// A node on a way through a trie is one that a part of the trie knows, or one that it misses.
proof fn lemma_way_splits<H: StarkHash>(
    part: Trie,
    whole: Trie,
    key: Seq<bool>,
    depth: nat,
    i: int,
)
    requires
        prunes::<H>(part, whole),
        0 <= i < whole.way::<H>(key, depth).len(),
    ensures
        nodes_of::<H>(part).contains(whole.way::<H>(key, depth)[i].1) || missing::<H>(
            part,
            whole,
            key,
            depth,
        ).contains(whole.way::<H>(key, depth)[i]),
    decreases part,
{
    match part {
        Trie::Digest(_) => {},
        Trie::Binary { .. } => {
            lemma_prunes_node::<H>(part, whole);
            if i > 0 {
                let bit = key[depth as int];
                lemma_way_splits::<H>(part.side(bit), whole.side(bit), key, depth + 1, i - 1);
            }
        },
        Trie::Edge { path, child } => {
            lemma_prunes_node::<H>(part, whole);
            if i > 0 {
                lemma_way_splits::<H>(*child, *whole->child, key, depth + path.len(), i - 1);
            }
        },
    }
}

/// A node that a part of a trie misses on a way is on the way through the trie.
proof fn lemma_missing_on_way<H: StarkHash>(
    part: Trie,
    whole: Trie,
    key: Seq<bool>,
    depth: nat,
    entry: (Seq<bool>, NodeView),
)
    requires
        prunes::<H>(part, whole),
        missing::<H>(part, whole, key, depth).contains(entry),
    ensures
        whole.way::<H>(key, depth).contains(entry),
    decreases part,
{
    let way = whole.way::<H>(key, depth);
    match part {
        Trie::Digest(_) => {},
        Trie::Binary { .. } => {
            let bit = key[depth as int];
            let lower = whole.side(bit).way::<H>(key, depth + 1);
            lemma_missing_on_way::<H>(part.side(bit), whole.side(bit), key, depth + 1, entry);
            let i = choose|i: int| 0 <= i < lower.len() && lower[i] == entry;
            assert(way[i + 1] == entry);
        },
        Trie::Edge { path, child } => {
            let below = depth + path.len();
            let lower = whole->child.way::<H>(key, below);
            lemma_missing_on_way::<H>(*child, *whole->child, key, below, entry);
            let i = choose|i: int| 0 <= i < lower.len() && lower[i] == entry;
            assert(way[i + 1] == entry);
        },
    }
}

/// What an insertion into a trie comes to.
spec fn inserts<H: StarkHash>(
    trie: Trie,
    known: Map<Felt, NodeView>,
    all: Set<NodeView>,
    key: Seq<bool>,
    value: Felt,
    result: (Option<Felt>, Map<Felt, NodeView>),
) -> bool {
    &&& known.submap_of(result.1)
    &&& well_filed::<H>(result.1)
    &&& within(result.1, all)
    &&& result.0 matches Some(hash) ==> hash == trie.insert(key, value).hash::<H>()
        && holds_nodes::<H>(
        result.1,
        nodes_of::<H>(skeleton::<H>(trie, key).insert(key, value)),
    )
}

/// Insertion where the key leaves an edge.
proof fn lemma_insertion_fork<H: StarkHash>(
    trie: Trie,
    known: Map<Felt, NodeView>,
    proof_nodes: Map<Felt, NodeView>,
    all: Set<NodeView>,
    key: Seq<bool>,
    value: Felt,
)
    requires
        complete(trie, key.len()),
        trie is Edge,
        !trie->path.is_prefix_of(key),
        nodes_of::<H>(trie.insert(key, value)).subset_of(all),
        within(known, all),
        well_filed::<H>(known),
        collision_free::<H>(all),
        known.contains_pair(trie.hash::<H>(), trie.node::<H>()),
    ensures
        ({
            let result = insertion_at::<H>(
                known,
                proof_nodes,
                trie.hash::<H>(),
                key,
                value,
            );
            result.0 is Some && inserts::<H>(trie, known, all, key, value, result)
        }),
{
    let path = trie->path;
    let part = skeleton::<H>(trie, key);
    let forked = part.insert(key, value);
    if key.is_prefix_of(path) {
        assert(path.take(key.len() as int) =~= path);
        assert(path =~= key.take(path.len() as int));
    }
    lemma_skeleton::<H>(trie, key);
    lemma_insert_prunes::<H>(part, trie, key, value);
    lemma_prunes_hash::<H>(forked, trie.insert(key, value));
    lemma_prunes_nodes::<H>(forked, trie.insert(key, value));
    lemma_store::<H>(forked, known, all);
}

/// An insertion below the topmost node of a trie, carried over the node.
proof fn lemma_insertion_carry<H: StarkHash>(
    trie: Trie,
    known: Map<Felt, NodeView>,
    all: Set<NodeView>,
    key: Seq<bool>,
    value: Felt,
    child: Trie,
    below: Seq<bool>,
    result: (Option<Felt>, Map<Felt, NodeView>),
)
    requires
        complete(trie, key.len()),
        match trie {
            Trie::Digest(_) => false,
            Trie::Binary { .. } => child == trie.side(key[0]) && below == key.skip(1),
            Trie::Edge { path, child: c } => path.is_prefix_of(key) && child == *c && below
                == key.skip(path.len() as int),
        },
        nodes_of::<H>(trie.insert(key, value)).subset_of(all),
        collision_free::<H>(all),
        inserts::<H>(child, known, all, below, value, result),
    ensures
        inserts::<H>(
            trie,
            known,
            all,
            key,
            value,
            carry_up::<H>(trie.node::<H>(), key[0], result),
        ),
{
    let new = trie.insert(key, value);
    let part = skeleton::<H>(trie, key).insert(key, value);
    if let Some(hash) = result.0 {
        let node = with_child(trie.node::<H>(), key[0], hash);
        assert(node == new.node::<H>());
        lemma_node_hash::<H>(new);
        lemma_insert_node::<H>(result.1, node, all);
        let after = result.1.insert(node_hash::<H>(node), node);
        lemma_submap_trans(known, result.1, after);
        lemma_skeleton::<H>(trie, key);
        lemma_insert_prunes::<H>(skeleton::<H>(trie, key), trie, key, value);
        lemma_prunes_node::<H>(part, new);
        let lower = nodes_of::<H>(skeleton::<H>(child, below).insert(below, value));
        lemma_holds_nodes_more::<H>(result.1, after, lower);
        reveal_with_fuel(nodes_of, 2);
        assert(nodes_of::<H>(part) =~= lower.insert(node));
    }
}

/// What an insertion comes to, and when it succeeds. The trie stands after the first `depth` bits
/// of the key.
proof fn lemma_insertion<H: StarkHash>(
    trie: Trie,
    known: Map<Felt, NodeView>,
    proof_nodes: Map<Felt, NodeView>,
    all: Set<NodeView>,
    key: Seq<bool>,
    depth: nat,
    value: Felt,
)
    requires
        depth <= key.len(),
        complete(trie, (key.len() - depth) as nat),
        nodes_of::<H>(trie).subset_of(all),
        nodes_of::<H>(trie.insert(key.skip(depth as int), value)).subset_of(all),
        within(known, all),
        within(proof_nodes, all),
        well_filed::<H>(known),
        well_filed::<H>(proof_nodes),
        collision_free::<H>(all),
    ensures
        ({
            let rest = key.skip(depth as int);
            let result = insertion::<H>(
                known,
                proof_nodes,
                trie.hash::<H>(),
                rest,
                value,
            );
            &&& result.0 is Some <==> reachable::<H>(
                known,
                proof_nodes,
                trie.way::<H>(key, depth),
            )
            &&& inserts::<H>(trie, known, all, rest, value, result)
        }),
    decreases trie,
{
    let rest = key.skip(depth as int);
    let hash = trie.hash::<H>();
    let node = trie.node::<H>();
    let here = (key.take(depth as int), node);
    let way = trie.way::<H>(key, depth);
    if !(trie is Digest) && (known.contains_key(hash) || proof_nodes.contains_key(hash)) {
        lemma_node_hash::<H>(trie);
        assert(all.contains(node));
        let now = if known.contains_key(hash) {
            assert(all.contains(known[hash]));
            known
        } else {
            assert(all.contains(proof_nodes[hash]));
            lemma_insert_node::<H>(known, node, all);
            known.insert(hash, node)
        };
        assert(known.submap_of(now));
        let result = insertion_at::<H>(now, proof_nodes, hash, rest, value);
        assert(insertion::<H>(known, proof_nodes, hash, rest, value)
            == result);
        match trie {
            Trie::Digest(_) => {},
            Trie::Binary { .. } => {
                let child = trie.side(key[depth as int]);
                let lower = child.way::<H>(key, depth + 1);
                let below = rest.skip(1);
                assert(below =~= key.skip(depth as int + 1));
                lemma_insertion::<H>(
                    child,
                    now,
                    proof_nodes,
                    all,
                    key,
                    depth + 1,
                    value,
                );
                lemma_insertion_carry::<H>(
                    trie,
                    now,
                    all,
                    rest,
                    value,
                    child,
                    below,
                    insertion::<H>(
                        now,
                        proof_nodes,
                        child.hash::<H>(),
                        below,
                        value,
                    ),
                );
                assert(way =~= seq![here] + lower);
                lemma_reachable_step::<H>(known, proof_nodes, here, lower);
            },
            Trie::Edge { path, child } => {
                if path.is_prefix_of(rest) {
                    let lower = child.way::<H>(key, depth + path.len());
                    let below = rest.skip(path.len() as int);
                    assert(below =~= key.skip((depth + path.len()) as int));
                    if rest.is_prefix_of(path) {
                        assert(rest =~= path);
                    }
                    lemma_insertion::<H>(
                        *child,
                        now,
                        proof_nodes,
                        all,
                        key,
                        depth + path.len(),
                        value,
                    );
                    lemma_insertion_carry::<H>(
                        trie,
                        now,
                        all,
                        rest,
                        value,
                        *child,
                        below,
                        insertion::<H>(
                            now,
                            proof_nodes,
                            child.hash::<H>(),
                            below,
                            value,
                        ),
                    );
                    assert(way =~= seq![here] + lower);
                    lemma_reachable_step::<H>(known, proof_nodes, here, lower);
                } else {
                    lemma_insertion_fork::<H>(
                        trie,
                        now,
                        proof_nodes,
                        all,
                        rest,
                        value,
                    );
                    let lower = Seq::<(Seq<bool>, NodeView)>::empty();
                    assert(way =~= seq![here] + lower);
                    lemma_reachable_step::<H>(known, proof_nodes, here, lower);
                }
            },
        }
        lemma_submap_trans(known, now, result.1);
    } else if !(trie is Digest) {
        lemma_node_hash::<H>(trie);
        assert(way[0] == here);
    }
}

/// The nodes among which no two different ones may have the same hash, for an insertion to tell
/// the root hash.
pub open spec fn involved<H: StarkHash>(
    trie: Trie,
    known: Map<Felt, NodeView>,
    proof_nodes: Map<Felt, NodeView>,
    key: Seq<bool>,
    value: Felt,
) -> Set<NodeView> {
    nodes_of::<H>(trie).union(nodes_of::<H>(trie.insert(key, value))).union(
        known.values(),
    ).union(proof_nodes.values())
}

/// The root hash that an insertion tells is the one that the whole trie has after the insertion.
///
/// It is told exactly if every node on the way to the key is known or in the proof. What is known
/// stays known, and the way to the key is known then. This is so unless two different nodes have
/// the same hash.
pub proof fn law_insertion_tells_root<H: StarkHash>(
    trie: Trie,
    known: Map<Felt, NodeView>,
    proof_nodes: Map<Felt, NodeView>,
    stored: Map<Felt, NodeView>,
    key: Seq<bool>,
    value: Felt,
)
    requires
        complete(trie, key.len()),
        well_filed::<H>(known),
        well_filed::<H>(proof_nodes),
        collision_free::<H>(involved::<H>(trie, known, proof_nodes, key, value)),
    ensures
        ({
            let (hash, after) = insertion::<H>(known, proof_nodes, trie.hash::<H>(), key, value);
            let new = trie.insert(key, value);
            &&& hash is Some <==> reachable::<H>(known, proof_nodes, trie.way::<H>(key, 0))
            &&& hash is Some ==> hash == Some(new.hash::<H>())
            &&& hash is Some ==> holds_way::<H>(after, new.way::<H>(key, 0))
            &&& known.submap_of(after)
            &&& well_filed::<H>(after)
            &&& value != Felt::of(0) ==> set_value::<H>(Some(trie), stored, key, value) == (
                Some(new),
                None::<PartialTrieErrorView>,
            )
        }),
{
    let (hash, after) = insertion::<H>(known, proof_nodes, trie.hash::<H>(), key, value);
    lemma_root_insertion::<H>(trie, known, proof_nodes, key, value);
    lemma_complete(trie, key.len(), key);
    assert(key.skip(0) =~= key);
    lemma_load_way_idle::<H>(trie, stored, key, 0);
    if hash is Some {
        let part = skeleton::<H>(trie, key);
        let new = trie.insert(key, value);
        let way = new.way::<H>(key, 0);
        lemma_skeleton::<H>(trie, key);
        lemma_insert_prunes::<H>(part, trie, key, value);
        lemma_insert_complete(trie, key, value);
        lemma_insert_lookup(part, key, value, key);
        lemma_prunes_way::<H>(part.insert(key, value), new, key, 0);
        assert forall|i: int| 0 <= i < way.len() implies after.contains_pair(
            node_hash::<H>((#[trigger] way[i]).1),
            way[i].1,
        ) by {
            lemma_way_nodes::<H>(part.insert(key, value), key, 0, i);
        }
    }
}

/// What an insertion from the root on comes to.
proof fn lemma_root_insertion<H: StarkHash>(
    trie: Trie,
    known: Map<Felt, NodeView>,
    proof_nodes: Map<Felt, NodeView>,
    key: Seq<bool>,
    value: Felt,
)
    requires
        complete(trie, key.len()),
        well_filed::<H>(known),
        well_filed::<H>(proof_nodes),
        collision_free::<H>(involved::<H>(trie, known, proof_nodes, key, value)),
    ensures
        ({
            let result = insertion::<H>(known, proof_nodes, trie.hash::<H>(), key, value);
            &&& result.0 is Some <==> reachable::<H>(known, proof_nodes, trie.way::<H>(key, 0))
            &&& inserts::<H>(
                trie,
                known,
                involved::<H>(trie, known, proof_nodes, key, value),
                key,
                value,
                result,
            )
        }),
{
    let upper = nodes_of::<H>(trie).union(nodes_of::<H>(trie.insert(key, value)));
    let all = involved::<H>(trie, known, proof_nodes, key, value);
    lemma_within_values(known, upper);
    lemma_within_values(proof_nodes, upper.union(known.values()));
    assert(key.skip(0) =~= key);
    lemma_insertion::<H>(trie, known, proof_nodes, all, key, 0, value);
}

/// What is known after an insertion are nodes that were involved in it.
pub proof fn lemma_insertion_within<H: StarkHash>(
    trie: Trie,
    known: Map<Felt, NodeView>,
    proof_nodes: Map<Felt, NodeView>,
    key: Seq<bool>,
    value: Felt,
)
    requires
        complete(trie, key.len()),
        well_filed::<H>(known),
        well_filed::<H>(proof_nodes),
        collision_free::<H>(involved::<H>(trie, known, proof_nodes, key, value)),
    ensures
        within(
            insertion::<H>(known, proof_nodes, trie.hash::<H>(), key, value).1,
            involved::<H>(trie, known, proof_nodes, key, value),
        ),
{
    lemma_root_insertion::<H>(trie, known, proof_nodes, key, value);
}

/// Every node on a way through `trie` is known, or on the way to the same key through `base`.
pub open spec fn stocked<H: StarkHash>(
    trie: Trie,
    known: Map<Felt, NodeView>,
    base: Trie,
    n: nat,
) -> bool {
    forall|key: Seq<bool>, i: int|
        key.len() == n && 0 <= i < trie.way::<H>(key, 0).len() ==> known.contains_pair(
            node_hash::<H>((#[trigger] trie.way::<H>(key, 0)[i]).1),
            trie.way::<H>(key, 0)[i].1,
        ) || base.way::<H>(key, 0).contains(trie.way::<H>(key, 0)[i])
}

/// At first, when nothing is known, every node on a way is on the way through the trie itself.
pub proof fn law_insertions_start<H: StarkHash>(base: Trie, n: nat)
    ensures
        stocked::<H>(base, Map::empty(), base, n),
{
    assert forall|key: Seq<bool>, i: int|
        key.len() == n && 0 <= i < base.way::<H>(key, 0).len() implies base.way::<H>(
        key,
        0,
    ).contains(#[trigger] base.way::<H>(key, 0)[i]) by {}
}

/// Insertions go on from each other: with proofs that hold the way to the key in the trie of the
/// beginning, each one succeeds, tells the root hash that the whole trie has then, and leaves
/// known what the next one needs. This is so unless two different nodes have the same hash.
pub proof fn law_insertions_go_on<H: StarkHash>(
    trie: Trie,
    known: Map<Felt, NodeView>,
    base: Trie,
    proof_nodes: Map<Felt, NodeView>,
    key: Seq<bool>,
    value: Felt,
)
    requires
        complete(trie, key.len()),
        stocked::<H>(trie, known, base, key.len()),
        well_filed::<H>(known),
        well_filed::<H>(proof_nodes),
        holds_way::<H>(proof_nodes, base.way::<H>(key, 0)),
        collision_free::<H>(involved::<H>(trie, known, proof_nodes, key, value)),
    ensures
        ({
            let (hash, after) = insertion::<H>(known, proof_nodes, trie.hash::<H>(), key, value);
            let new = trie.insert(key, value);
            &&& hash == Some(new.hash::<H>())
            &&& complete(new, key.len())
            &&& well_filed::<H>(after)
            &&& stocked::<H>(new, after, base, key.len())
        }),
{
    let n = key.len();
    let (hash, after) = insertion::<H>(known, proof_nodes, trie.hash::<H>(), key, value);
    let new = trie.insert(key, value);
    let way = trie.way::<H>(key, 0);
    lemma_root_insertion::<H>(trie, known, proof_nodes, key, value);
    assert forall|i: int| 0 <= i < way.len() implies known.contains_key(
        node_hash::<H>((#[trigger] way[i]).1),
    ) || proof_nodes.contains_key(node_hash::<H>(way[i].1)) by {
        if !known.contains_pair(node_hash::<H>(way[i].1), way[i].1) {
            let base_way = base.way::<H>(key, 0);
            assert(base_way.contains(way[i]));
            let j = choose|j: int| 0 <= j < base_way.len() && base_way[j] == way[i];
            assert(proof_nodes.contains_pair(node_hash::<H>(base_way[j].1), base_way[j].1));
        }
    }
    let part = skeleton::<H>(trie, key);
    let new_part = part.insert(key, value);
    lemma_skeleton::<H>(trie, key);
    lemma_insert_prunes::<H>(part, trie, key, value);
    lemma_insert_complete(trie, key, value);
    assert forall|other: Seq<bool>, i: int|
        other.len() == n && 0 <= i < new.way::<H>(other, 0).len() implies after.contains_pair(
        node_hash::<H>((#[trigger] new.way::<H>(other, 0)[i]).1),
        new.way::<H>(other, 0)[i].1,
    ) || base.way::<H>(other, 0).contains(new.way::<H>(other, 0)[i]) by {
        let entry = new.way::<H>(other, 0)[i];
        lemma_way_splits::<H>(new_part, new, other, 0, i);
        if !nodes_of::<H>(new_part).contains(entry.1) {
            assert(key.skip(0) =~= key);
            lemma_insert_missing::<H>(part, trie, key, 0, value, other);
            lemma_missing_on_way::<H>(part, trie, other, 0, entry);
            let old_way = trie.way::<H>(other, 0);
            let j = choose|j: int| 0 <= j < old_way.len() && old_way[j] == entry;
            assert(trie.way::<H>(other, 0)[j] == entry);
            if known.contains_pair(node_hash::<H>(entry.1), entry.1) {
                assert(known.dom().contains(node_hash::<H>(entry.1)));
            }
        }
    }
}

/// No hash is lost from `known` to `after`, nor does a node come to stand under a hash that is not
/// its own where one stood under its own before.
pub open spec fn keeps_hashes<H: StarkHash>(
    known: Map<Felt, NodeView>,
    after: Map<Felt, NodeView>,
) -> bool {
    &&& forall|hash: Felt| #[trigger] known.contains_key(hash) ==> after.contains_key(hash)
    &&& forall|hash: Felt| #[trigger]
        known.contains_key(hash) && node_hash::<H>(known[hash]) == hash ==> node_hash::<H>(
            after[hash],
        ) == hash
}

/// What holds of the known nodes after an insertion, whatever was known and whatever the proof
/// holds.
spec fn files<H: StarkHash>(
    known: Map<Felt, NodeView>,
    proof_nodes: Map<Felt, NodeView>,
    result: (Option<Felt>, Map<Felt, NodeView>),
) -> bool {
    &&& keeps_hashes::<H>(known, result.1)
    &&& well_filed::<H>(known) && well_filed::<H>(proof_nodes) ==> well_filed::<H>(result.1)
}

/// The told hash is known, and a node stands under it that has it.
spec fn told_is_known<H: StarkHash>(result: (Option<Felt>, Map<Felt, NodeView>)) -> bool {
    result.0 matches Some(hash) ==> result.1.contains_key(hash) && node_hash::<H>(result.1[hash])
        == hash
}

proof fn lemma_insertion_files<H: StarkHash>(
    known: Map<Felt, NodeView>,
    proof_nodes: Map<Felt, NodeView>,
    at: Felt,
    key: Seq<bool>,
    value: Felt,
)
    ensures
        ({
            let result = insertion::<H>(known, proof_nodes, at, key, value);
            files::<H>(known, proof_nodes, result) && (key.len() > 0 ==> told_is_known::<H>(
                result,
            ))
        }),
    decreases key.len(), hops(at_hand(known, proof_nodes), at), 1int,
{
    if key.len() > 0 {
        let now = take_node(known, proof_nodes, at);
        lemma_take_node(known, proof_nodes, at);
        lemma_insertion_at_files::<H>(now, proof_nodes, at, key, value);
        assert(keeps_hashes::<H>(known, now));
    }
}

proof fn lemma_insertion_at_files<H: StarkHash>(
    known: Map<Felt, NodeView>,
    proof_nodes: Map<Felt, NodeView>,
    at: Felt,
    key: Seq<bool>,
    value: Felt,
)
    ensures
        ({
            let result = insertion_at::<H>(known, proof_nodes, at, key, value);
            files::<H>(known, proof_nodes, result) && told_is_known::<H>(result)
        }),
    decreases key.len(), hops(at_hand(known, proof_nodes), at), 0int,
{
    if key.len() > 0 && known.contains_key(at) {
        match known[at] {
            NodeView::Binary { left, right } => {
                let child = if key[0] {
                    right
                } else {
                    left
                };
                lemma_insertion_files::<H>(known, proof_nodes, child, key.skip(1), value);
            },
            NodeView::Edge { child, path } => {
                if path.len() == 0 {
                    if lands(at_hand(known, proof_nodes), at) {
                        lemma_empty_edge(at_hand(known, proof_nodes), at);
                        lemma_insertion_files::<H>(known, proof_nodes, child, key, value);
                    } else {
                        lemma_store_filed::<H>(beside(path, value, child), known);
                        lemma_node_hash::<H>(beside(path, value, child));
                    }
                } else if key.is_prefix_of(path) && key != path {
                    lemma_store_filed::<H>(beside(key, value, child), known);
                    lemma_node_hash::<H>(beside(key, value, child));
                } else if path.is_prefix_of(key) {
                    let below = key.skip(path.len() as int);
                    lemma_insertion_files::<H>(known, proof_nodes, child, below, value);
                } else {
                    let forked = fork(path, Trie::Digest(child), key, value);
                    lemma_store_filed::<H>(forked, known);
                    lemma_node_hash::<H>(forked);
                }
            },
        }
    }
}

/// Whatever is known and whatever the proof holds, an insertion loses no known hash, and the root
/// hash that it tells is known then, with a node that has it.
pub proof fn law_insertion_loses_nothing<H: StarkHash>(
    known: Map<Felt, NodeView>,
    proof_nodes: Map<Felt, NodeView>,
    at: Felt,
    key: Seq<bool>,
    value: Felt,
)
    ensures
        ({
            let (hash, after) = insertion::<H>(known, proof_nodes, at, key, value);
            &&& keeps_hashes::<H>(known, after)
            &&& key.len() > 0 && hash is Some ==> after.contains_key(hash->0) && node_hash::<H>(
                after[hash->0],
            ) == hash->0
        }),
{
    lemma_insertion_files::<H>(known, proof_nodes, at, key, value);
}

/// An insertion keeps every node under its own hash, whether it succeeds or not.
pub proof fn law_insertion_keeps_own_hashes<H: StarkHash>(
    known: Map<Felt, NodeView>,
    proof_nodes: Map<Felt, NodeView>,
    at: Felt,
    key: Seq<bool>,
    value: Felt,
)
    requires
        well_filed::<H>(known),
        well_filed::<H>(proof_nodes),
    ensures
        well_filed::<H>(insertion::<H>(known, proof_nodes, at, key, value).1),
{
    lemma_insertion_files::<H>(known, proof_nodes, at, key, value);
}

/// What a trie knows after an insertion: every node stands under its own hash, whatever the proof
/// holds, no known hash is lost, and the told root hash is known.
pub proof fn law_known_nodes_stay<H: StarkHash>(
    known: Map<Felt, NodeView>,
    proof_nodes: Map<Felt, NodeView>,
    at: Felt,
    key: Seq<bool>,
    value: Felt,
)
    requires
        well_filed::<H>(known),
    ensures
        ({
            let (hash, after) = insertion::<H>(known, proof_nodes, at, key, value);
            let kept = own_hashed::<H>(after);
            &&& well_filed::<H>(kept)
            &&& known.dom().subset_of(kept.dom())
            &&& key.len() > 0 && hash is Some ==> kept.contains_key(hash->0)
            &&& well_filed::<H>(proof_nodes) ==> kept == after
        }),
{
    let (hash, after) = insertion::<H>(known, proof_nodes, at, key, value);
    law_insertion_loses_nothing::<H>(known, proof_nodes, at, key, value);
    assert forall|h: Felt| known.dom().contains(h) implies #[trigger] own_hashed::<H>(
        after,
    ).dom().contains(h) by {
        assert(known.contains_key(h));
    }
    if well_filed::<H>(proof_nodes) {
        law_insertion_keeps_own_hashes::<H>(known, proof_nodes, at, key, value);
        assert(own_hashed::<H>(after) =~= after);
    }
}

/// The nodes that a proof is verified by lead to a node of another kind than an edge without bits.
proof fn lemma_walk_lands<H: StarkHash>(
    nodes: Map<Felt, NodeView>,
    proof_nodes: Map<Felt, NodeView>,
    limit: nat,
    at: Felt,
    key: Seq<bool>,
    depth: nat,
    spare: nat,
)
    requires
        depth < key.len(),
        walk::<H>(proof_nodes, limit, key, at, depth, spare) is Ok,
        forall|hash: Felt| #[trigger]
            proof_nodes.contains_key(hash) && node_hash::<H>(proof_nodes[hash]) == hash
                ==> nodes.contains_pair(hash, proof_nodes[hash]),
    ensures
        lands(nodes, at),
    decreases spare,
{
    assert(proof_nodes.contains_key(at));
    assert(hop(nodes, at, 0) == Some(at));
    lemma_empty_edge(nodes, at);
    match nodes[at] {
        NodeView::Edge { child, path } if path.len() == 0 => {
            assert(path =~= key.skip(depth as int).take(0));
            lemma_walk_lands::<H>(
                nodes,
                proof_nodes,
                limit,
                child,
                key,
                depth,
                (spare - 1) as nat,
            );
        },
        _ => {
            assert(lands_after(nodes, at, 0));
        },
    }
}

/// Going down the nodes that a proof is verified by leads an insertion to the same value.
proof fn lemma_insertion_leaves<H: StarkHash>(
    known: Map<Felt, NodeView>,
    proof_nodes: Map<Felt, NodeView>,
    all: Set<NodeView>,
    limit: nat,
    at: Felt,
    key: Seq<bool>,
    depth: nat,
    value: Felt,
    spare: nat,
)
    requires
        depth <= key.len(),
        walk::<H>(proof_nodes, limit, key, at, depth, spare) == Ok::<
            Felt,
            VerificationErrorView,
        >(value),
        value != Felt::of(0),
        well_filed::<H>(known),
        within(known, all),
        within(proof_nodes, all),
        collision_free::<H>(all),
    ensures
        insertion::<H>(known, proof_nodes, at, key.skip(depth as int), value).0 == Some(at),
    decreases key.len() - depth, spare,
{
    let rest = key.skip(depth as int);
    if depth < key.len() {
        let node = proof_nodes[at];
        let nodes = at_hand(known, proof_nodes);
        assert(all.contains(node));
        if known.contains_key(at) {
            assert(all.contains(known[at]));
        }
        let now = take_node(known, proof_nodes, at);
        lemma_take_node(known, proof_nodes, at);
        assert forall|hash: Felt| #[trigger]
            proof_nodes.contains_key(hash) && node_hash::<H>(proof_nodes[hash])
                == hash implies nodes.contains_pair(hash, proof_nodes[hash]) by {
            assert(all.contains(proof_nodes[hash]));
            if known.contains_key(hash) {
                assert(all.contains(known[hash]));
            }
        }
        lemma_walk_lands::<H>(nodes, proof_nodes, limit, at, key, depth, spare);
        let (child, step, left) = match node {
            NodeView::Binary { left, right } => (
                if rest[0] {
                    right
                } else {
                    left
                },
                1nat,
                limit,
            ),
            NodeView::Edge { child, path } => if path.len() > 0 {
                (child, path.len(), limit)
            } else {
                (child, 0nat, (spare - 1) as nat)
            },
        };
        if let NodeView::Edge { child, path } = node {
            if rest.is_prefix_of(path) {
                assert(rest =~= path);
            }
        }
        assert(rest.skip(step as int) =~= key.skip((depth + step) as int));
        lemma_insertion_leaves::<H>(
            now,
            proof_nodes,
            all,
            limit,
            child,
            key,
            depth + step,
            value,
            left,
        );
        assert(with_child(node, rest[0], child) == node);
    }
}

/// Setting the value that a proof shows leaves the root hash as it is, unless two different nodes
/// have the same hash.
pub proof fn law_proved_value_leaves_root<H: StarkHash>(
    known: Map<Felt, NodeView>,
    multi_proof: MultiProof,
    root: Felt,
    key: Seq<bool>,
    height: u8,
    value: Felt,
)
    requires
        multi_proof.finding::<H>(root, key, height) == Ok::<Felt, VerificationErrorView>(value),
        value != Felt::of(0),
        well_filed::<H>(known),
        collision_free::<H>(known.values().union(multi_proof@.values())),
    ensures
        insertion::<H>(known, multi_proof@, root, key, value).0 == Some(root),
{
    let all = known.values().union(multi_proof@.values());
    let limit = multi_proof@.len();
    lemma_within_values(multi_proof@, known.values());
    lemma_within_values(known, multi_proof@.values());
    assert(all =~= multi_proof@.values().union(known.values()));
    assert(key.skip(0) =~= key);
    lemma_insertion_leaves::<H>(known, multi_proof@, all, limit, root, key, 0, value, limit);
}

/// With the proof that a tree gives for a key, an insertion tells the root hash that the tree has
/// once the value is set, whatever was told and refused before. This is so unless two different
/// nodes have the same hash.
pub proof fn law_tree_proof_tells_next_root<H: StarkHash>(
    trie: Trie,
    stored: Map<Felt, NodeView>,
    known: Map<Felt, NodeView>,
    key: Seq<bool>,
    value: Felt,
)
    requires
        complete(trie, key.len()),
        well_filed::<H>(known),
        value != Felt::of(0),
        collision_free::<H>(
            involved::<H>(
                trie,
                known,
                prove_keys::<H>(Some(trie), stored, seq![key], key.len()).1,
                key,
                value,
            ),
        ),
    ensures
        ({
            let (root, proof_nodes, error) = prove_keys::<H>(
                Some(trie),
                stored,
                seq![key],
                key.len(),
            );
            let after = set_value::<H>(Some(trie), stored, key, value);
            &&& error is None
            &&& after.1 is None
            &&& insertion::<H>(known, proof_nodes, trie.hash::<H>(), key, value).0 == Some(
                root_digest::<H>(after.0),
            )
        }),
{
    let proof_nodes = prove_keys::<H>(Some(trie), stored, seq![key], key.len()).1;
    lemma_collision_free_part::<H>(
        nodes_of::<H>(trie),
        involved::<H>(trie, known, proof_nodes, key, value),
    );
    law_whole_tree_proves::<H>(trie, stored, seq![key], key.len());
    assert(seq![key][0] == key);
    let way = trie.way::<H>(key, 0);
    assert forall|i: int| 0 <= i < way.len() implies known.contains_key(
        node_hash::<H>((#[trigger] way[i]).1),
    ) || proof_nodes.contains_key(node_hash::<H>(way[i].1)) by {
        assert(proof_nodes.contains_pair(node_hash::<H>(way[i].1), way[i].1));
    }
    law_insertion_tells_root::<H>(trie, known, proof_nodes, stored, key, value);
}

} // verus!
