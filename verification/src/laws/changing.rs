//! Changing a tree of which only some nodes are loaded.

use crate::felt::{Felt, StarkHash};
use crate::laws::contents::{
    canonical, canonical_root, law_set_is_map_update, lemma_canonical_complete,
    lemma_load_beside_idle, root_lookup,
};
use crate::laws::forking::{
    complete, lemma_complete, lemma_insert_prunes, lemma_load_way_prunes, lemma_prunes_hash,
    lemma_prunes_lookup, missing, prunes,
};
use crate::laws::loading::lemma_load_way_fits;
use crate::laws::nodes::{collision_free, lemma_within_values, nodes_of};
use crate::laws::reading::{lemma_missing_nodes, provable};
use crate::laws::storing::holds_nodes;
use crate::trie::loading::{
    lemma_load_way_hash, lemma_load_way_idle, lemma_load_way_known, load_beside, load_top,
    load_way,
};
use crate::trie::merkle_node::{node_hash, NodeView};
use crate::trie::model::{absorb, lemma_node_hash, Trie};
use crate::trie::tree::{root_digest, set_value, touches};
use vstd::prelude::*;

verus! {

/// A node of a trie can be loaded in the place of its hash, if it is at hand.
proof fn lemma_load_top_prunes<H: StarkHash>(
    part: Trie,
    whole: Trie,
    nodes: Map<Felt, NodeView>,
    key: Seq<bool>,
    depth: nat,
)
    requires
        depth < key.len(),
        prunes::<H>(part, whole),
        complete(whole, (key.len() - depth) as nat),
        nodes.contains_pair(whole.hash::<H>(), whole.node::<H>()),
    ensures
        load_top::<H>(part, nodes, key, depth) matches Ok(loaded) && prunes::<H>(loaded, whole)
            && !(loaded is Digest),
{
    lemma_node_hash::<H>(whole);
    reveal_with_fuel(prunes, 2);
}

/// Where the way to a key is known, it is known whether a removal leaves an entry.
proof fn lemma_remove_leaves<H: StarkHash>(part: Trie, whole: Trie, key: Seq<bool>)
    requires
        prunes::<H>(part, whole),
        complete(whole, key.len()),
        part.fits(key.len()),
        part.lookup(key) is Some,
    ensures
        part.remove(key) is Some <==> whole.remove(key) is Some,
        part.remove(key) matches Some(left) ==> !(left is Digest),
    decreases part,
{
    match part {
        Trie::Digest(_) => {},
        Trie::Binary { .. } => {
            lemma_remove_leaves::<H>(part.side(key[0]), whole.side(key[0]), key.skip(1));
        },
        Trie::Edge { path, child } => {
            if path.is_prefix_of(key) {
                lemma_remove_leaves::<H>(*child, *whole->child, key.skip(path.len() as int));
            }
        },
    }
}

/// A part of a trie, put at the end of a path, is a part of the trie at the end of the path.
proof fn lemma_absorb_prunes<H: StarkHash>(path: Seq<bool>, part: Trie, whole: Trie)
    requires
        prunes::<H>(part, whole),
        part is Digest ==> whole is Digest,
    ensures
        prunes::<H>(absorb(path, part), absorb(path, whole)),
{
    reveal_with_fuel(prunes, 2);
}

/// With the node beside a key loaded, removal from a part of a trie gives a part of what removal
/// from the trie gives.
proof fn lemma_remove_prunes<H: StarkHash>(
    part: Trie,
    whole: Trie,
    nodes: Map<Felt, NodeView>,
    key: Seq<bool>,
    depth: nat,
)
    requires
        depth <= key.len(),
        prunes::<H>(part, whole),
        complete(whole, (key.len() - depth) as nat),
        part.fits((key.len() - depth) as nat),
        part.lookup(key.skip(depth as int)) is Some,
        holds_nodes::<H>(nodes, nodes_of::<H>(whole)),
    ensures
        ({
            let (prepared, error) = load_beside::<H>(part, nodes, key, depth);
            let rest = key.skip(depth as int);
            &&& error is None
            &&& prunes::<H>(prepared, whole)
            &&& match prepared.remove(rest) {
                None => whole.remove(rest) is None,
                Some(left) => !(left is Digest) && whole.remove(rest) is Some && prunes::<H>(
                    left,
                    whole.remove(rest)->0,
                ),
            }
        }),
    decreases part,
{
    let rest = key.skip(depth as int);
    match part {
        Trie::Digest(_) => {},
        Trie::Binary { .. } => {
            let bit = key[depth as int];
            let (near, far) = (part.side(bit), part.side(!bit));
            let (whole_near, whole_far) = (whole.side(bit), whole.side(!bit));
            let beside = key.update(depth as int, !bit);
            assert(rest.skip(1) =~= key.skip(depth as int + 1));
            assert forall|node: NodeView| #[trigger]
                nodes_of::<H>(whole_near).contains(node) implies nodes.contains_pair(
                node_hash::<H>(node),
                node,
            ) by {
                assert(nodes_of::<H>(whole).contains(node));
            }
            lemma_remove_leaves::<H>(near, whole_near, rest.skip(1));
            if near.remove(rest.skip(1)) is Some {
                lemma_remove_prunes::<H>(near, whole_near, nodes, key, depth + 1);
            } else {
                assert(complete(whole_far, (key.len() - depth - 1) as nat));
                if depth + 1 < key.len() {
                    lemma_node_hash::<H>(whole_far);
                    assert(nodes_of::<H>(whole_far).contains(whole_far.node::<H>()));
                    assert(nodes_of::<H>(whole).contains(whole_far.node::<H>()));
                    lemma_load_top_prunes::<H>(far, whole_far, nodes, beside, depth + 1);
                    let loaded = load_top::<H>(far, nodes, beside, depth + 1)->Ok_0;
                    lemma_absorb_prunes::<H>(seq![!bit], loaded, whole_far);
                } else {
                    lemma_absorb_prunes::<H>(seq![!bit], far, whole_far);
                }
            }
        },
        Trie::Edge { path, child } => {
            if path.is_prefix_of(rest) {
                let whole_child = *whole->child;
                let below = key.skip((depth + path.len()) as int);
                assert(rest.skip(path.len() as int) =~= below);
                assert forall|node: NodeView| #[trigger]
                    nodes_of::<H>(whole_child).contains(node) implies nodes.contains_pair(
                    node_hash::<H>(node),
                    node,
                ) by {
                    assert(nodes_of::<H>(whole).contains(node));
                }
                lemma_remove_prunes::<H>(*child, whole_child, nodes, key, depth + path.len());
                let prepared = load_beside::<H>(*child, nodes, key, depth + path.len()).0;
                if let Some(left) = prepared.remove(below) {
                    lemma_absorb_prunes::<H>(path, left, whole_child.remove(below)->0);
                }
            }
        },
    }
}

/// A tree of which only a part is loaded changes as the whole tree does, if the storage has the
/// nodes of the tree: setting a value succeeds, be it zero or not, and afterwards what is loaded is
/// a part of the whole tree after the change. The two have the same root hash.
///
/// This is so unless two different nodes have the same hash.
pub proof fn law_stored_tree_changes<H: StarkHash>(
    part: Trie,
    whole: Trie,
    stored: Map<Felt, NodeView>,
    whole_stored: Map<Felt, NodeView>,
    key: Seq<bool>,
    value: Felt,
)
    requires
        prunes::<H>(part, whole),
        complete(whole, key.len()),
        part.fits(key.len()),
        holds_nodes::<H>(stored, nodes_of::<H>(whole)),
        collision_free::<H>(nodes_of::<H>(whole).union(stored.values())),
    ensures
        ({
            let (after, error) = set_value::<H>(Some(part), stored, key, value);
            let (whole_after, whole_error) = set_value::<H>(
                Some(whole),
                whole_stored,
                key,
                value,
            );
            &&& error is None
            &&& whole_error is None
            &&& match after {
                None => whole_after is None,
                Some(left) => whole_after is Some && prunes::<H>(left, whole_after->0),
            }
            &&& root_digest::<H>(after) == root_digest::<H>(whole_after)
            &&& touches::<H>(Some(part), stored, key, value) == touches::<H>(
                Some(whole),
                whole_stored,
                key,
                value,
            )
        }),
{
    let n = key.len();
    let all = nodes_of::<H>(whole).union(stored.values());
    let (loaded, error) = load_way::<H>(part, stored, key, 0);
    let way = missing::<H>(part, whole, key, 0);
    assert(key.skip(0) =~= key);
    lemma_within_values(stored, nodes_of::<H>(whole));
    assert forall|i: int| 0 <= i < way.len() implies stored.contains_pair(
        node_hash::<H>((#[trigger] way[i]).1),
        way[i].1,
    ) by {
        lemma_missing_nodes::<H>(part, whole, key, 0, i);
    }
    lemma_load_way_prunes::<H>(part, whole, stored, all, key, 0);
    lemma_load_way_fits::<H>(part, stored, key, 0);
    lemma_load_way_known::<H>(part, stored, key, 0);
    lemma_complete(whole, n, key);
    lemma_load_way_idle::<H>(whole, whole_stored, key, 0);
    lemma_prunes_lookup::<H>(loaded, whole, key);
    if value != Felt::of(0) {
        lemma_insert_prunes::<H>(loaded, whole, key, value);
    } else if loaded.lookup(key) != Some(Felt::of(0)) {
        lemma_remove_prunes::<H>(loaded, whole, stored, key, 0);
        lemma_load_beside_idle::<H>(whole, whole_stored, key, 0);
    }
    let after = set_value::<H>(Some(part), stored, key, value).0;
    let whole_after = set_value::<H>(Some(whole), whole_stored, key, value).0;
    if let Some(left) = after {
        lemma_prunes_hash::<H>(left, whole_after->0);
    }
}

/// A tree that is read back by its root hash, or of which any other part is loaded, is a map. After
/// a value is set in it, its root hash is that of the tree with the value under the key and every
/// other value as it was. The storage has to have the nodes of the tree.
///
/// This is so unless two different nodes have the same hash.
pub proof fn law_stored_tree_is_map<H: StarkHash>(
    part: Trie,
    whole: Trie,
    stored: Map<Felt, NodeView>,
    key: Seq<bool>,
    value: Felt,
    other: Seq<bool>,
) -> (whole_after: Option<Trie>)
    requires
        prunes::<H>(part, whole),
        canonical(whole, key.len()),
        part.fits(key.len()),
        other.len() == key.len(),
        holds_nodes::<H>(stored, nodes_of::<H>(whole)),
        collision_free::<H>(nodes_of::<H>(whole).union(stored.values())),
    ensures
        set_value::<H>(Some(part), stored, key, value).1 is None,
        root_digest::<H>(set_value::<H>(Some(part), stored, key, value).0) == root_digest::<H>(
            whole_after,
        ),
        canonical_root(whole_after, key.len()),
        root_lookup(whole_after, other) == if other == key {
            Some(value)
        } else {
            whole.lookup(other)
        },
{
    lemma_canonical_complete(whole, key.len());
    law_stored_tree_changes::<H>(part, whole, stored, stored, key, value);
    law_set_is_map_update::<H>(Some(whole), stored, key, value, other);
    set_value::<H>(Some(whole), stored, key, value).0
}

/// What keeps a value from being set: the way to the key cannot be loaded. If it can, then only a
/// removal can still fail, and only where the key has an entry.
pub proof fn law_set_needs_the_way<H: StarkHash>(
    trie: Trie,
    stored: Map<Felt, NodeView>,
    key: Seq<bool>,
    value: Felt,
)
    requires
        trie.fits(key.len()),
    ensures
        ({
            let (after, error) = set_value::<H>(Some(trie), stored, key, value);
            let (loaded, why) = load_way::<H>(trie, stored, key, 0);
            &&& !provable::<H>(trie, stored, key, key.len()) ==> error is Some && error == why
                && after == Some(loaded)
            &&& provable::<H>(trie, stored, key, key.len()) && value != Felt::of(0) ==> error
                is None && after is Some
            &&& provable::<H>(trie, stored, key, key.len()) && value == Felt::of(0)
                && loaded.lookup(key) == Some(Felt::of(0)) ==> error is None && after == Some(
                loaded,
            )
        }),
{
}

/// A change touches the tree if it succeeds, and puts a value under the key or takes one away. A
/// change that does not touch the tree leaves its root hash.
pub proof fn law_touching<H: StarkHash>(
    root: Option<Trie>,
    stored: Map<Felt, NodeView>,
    key: Seq<bool>,
    value: Felt,
)
    requires
        root matches Some(trie) ==> trie.fits(key.len()),
    ensures
        ({
            let (after, error) = set_value::<H>(root, stored, key, value);
            let touched = touches::<H>(root, stored, key, value);
            &&& touched ==> error is None
            &&& error is None && value != Felt::of(0) ==> touched
            &&& error is None && !touched ==> root_lookup(after, key) == Some(Felt::of(0))
            &&& !touched && error is None ==> root_digest::<H>(after) == root_digest::<H>(root)
            &&& touched && value == Felt::of(0) ==> root is Some && load_way::<H>(
                root->0,
                stored,
                key,
                0,
            ).0.lookup(key) != Some(Felt::of(0))
        }),
{
    if let Some(trie) = root {
        assert(key.skip(0) =~= key);
        lemma_load_way_hash::<H>(trie, stored, key, 0);
        if load_way::<H>(trie, stored, key, 0).1 is None {
            lemma_load_way_known::<H>(trie, stored, key, 0);
        }
    }
}

/// A tree without entries gets its first entry, or stays without.
pub proof fn law_first_entry<H: StarkHash>(
    stored: Map<Felt, NodeView>,
    key: Seq<bool>,
    value: Felt,
    other: Seq<bool>,
)
    requires
        other.len() == key.len(),
    ensures
        ({
            let (after, error) = set_value::<H>(None, stored, key, value);
            &&& error is None
            &&& after is None <==> value == Felt::of(0)
            &&& canonical_root(after, key.len())
            &&& root_lookup(after, other) == if other == key {
                Some(value)
            } else {
                Some(Felt::of(0))
            }
        }),
{
    law_set_is_map_update::<H>(None, stored, key, value, other);
}

} // verus!
