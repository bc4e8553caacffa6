//! Hashing up the way from an entry to the root.

use crate::felt::{Felt, StarkHash};
use crate::laws::inserting::{binary_node, edge_node, hash_over};
use crate::trie::merkle_node::{node_hash, with_child, NodeView};
use crate::trie::model::Trie;
use crate::trie::proofs::{hash_up, unskipped};
use vstd::prelude::*;

verus! {

/// The way to the key ends at an entry: no edge leads away from it.
pub open spec fn reaches(trie: Trie, key: Seq<bool>) -> bool
    decreases trie,
{
    match trie {
        Trie::Digest(_) => key.len() == 0,
        Trie::Binary { left, right } => key.len() > 0 && if key[0] {
            reaches(*right, key.skip(1))
        } else {
            reaches(*left, key.skip(1))
        },
        Trie::Edge { path, child } => path.is_prefix_of(key) && reaches(
            *child,
            key.skip(path.len() as int),
        ),
    }
}

/// What stands where the way to the key ends: the entry, or the edge that leads away from the key.
pub open spec fn way_end(trie: Trie, key: Seq<bool>) -> Trie
    decreases trie,
{
    match trie {
        Trie::Digest(_) => trie,
        Trie::Binary { left, right } => if key[0] {
            way_end(*right, key.skip(1))
        } else {
            way_end(*left, key.skip(1))
        },
        Trie::Edge { path, child } => if path.is_prefix_of(key) {
            way_end(*child, key.skip(path.len() as int))
        } else {
            trie
        },
    }
}

/// The topmost node of a way is hashed last.
proof fn lemma_hash_up_step<H: StarkHash>(
    key: Seq<bool>,
    hash: Felt,
    here: (Seq<bool>, NodeView),
    lower: Seq<(Seq<bool>, NodeView)>,
)
    ensures
        hash_up::<H>(key, hash, seq![here] + lower) == node_hash::<H>(
            with_child(here.1, key[here.0.len() as int], hash_up::<H>(key, hash, lower)),
        ),
    decreases lower.len(),
{
    let way = seq![here] + lower;
    if lower.len() == 0 {
        assert(way =~= seq![here]);
        assert(way.drop_last() =~= Seq::<(Seq<bool>, NodeView)>::empty());
        reveal_with_fuel(hash_up, 2);
    } else {
        assert(way.drop_last() =~= seq![here] + lower.drop_last());
        assert(way.last() == lower.last());
        let (position, node) = lower.last();
        let next = node_hash::<H>(with_child(node, key[position.len() as int], hash));
        lemma_hash_up_step::<H>(key, next, here, lower.drop_last());
    }
}

/// Hashing up the way to an entry.
proof fn lemma_hash_up_entry<H: StarkHash>(trie: Trie, key: Seq<bool>, depth: nat, value: Felt)
    requires
        depth <= key.len(),
        trie.fits((key.len() - depth) as nat),
        reaches(trie, key.skip(depth as int)),
    ensures
        hash_up::<H>(key, value, trie.way::<H>(key, depth)) == trie.insert(
            key.skip(depth as int),
            value,
        ).hash::<H>(),
        trie.lookup(key.skip(depth as int)) == Some(value) ==> trie.insert(
            key.skip(depth as int),
            value,
        ) == trie,
    decreases trie,
{
    let rest = key.skip(depth as int);
    let here = (key.take(depth as int), trie.node::<H>());
    match trie {
        Trie::Digest(_) => {},
        Trie::Binary { left, right } => {
            let child = trie.side(key[depth as int]);
            assert(rest.skip(1) =~= key.skip(depth as int + 1));
            lemma_hash_up_entry::<H>(child, key, depth + 1, value);
            lemma_hash_up_step::<H>(key, value, here, child.way::<H>(key, depth + 1));
        },
        Trie::Edge { path, child } => {
            assert(rest.skip(path.len() as int) =~= key.skip((depth + path.len()) as int));
            lemma_hash_up_entry::<H>(*child, key, depth + path.len(), value);
            lemma_hash_up_step::<H>(key, value, here, child.way::<H>(key, depth + path.len()));
        },
    }
}

/// Hashing up the way to an edge that leads away from the key.
proof fn lemma_hash_up_edge<H: StarkHash>(trie: Trie, key: Seq<bool>, depth: nat, value: Felt)
    requires
        depth <= key.len(),
        trie.fits((key.len() - depth) as nat),
        trie.lookup(key.skip(depth as int)) is Some,
        !reaches(trie, key.skip(depth as int)),
    ensures
        ({
            let way = trie.way::<H>(key, depth);
            let end = way.last().0.len();
            &&& way.len() > 0
            &&& depth <= end <= key.len()
            &&& way.last() == (
                key.take(end as int),
                way_end(trie, key.skip(depth as int)).node::<H>(),
            )
            &&& hash_up::<H>(
                key,
                way_end(trie, key.skip(depth as int)).insert(
                    key.skip(end as int),
                    value,
                ).hash::<H>(),
                way.drop_last(),
            ) == trie.insert(key.skip(depth as int), value).hash::<H>()
        }),
    decreases trie,
{
    let rest = key.skip(depth as int);
    let here = (key.take(depth as int), trie.node::<H>());
    let way = trie.way::<H>(key, depth);
    match trie {
        Trie::Digest(_) => {},
        Trie::Binary { left, right } => {
            let child = trie.side(key[depth as int]);
            let lower = child.way::<H>(key, depth + 1);
            assert(rest.skip(1) =~= key.skip(depth as int + 1));
            lemma_hash_up_edge::<H>(child, key, depth + 1, value);
            assert(way.drop_last() =~= seq![here] + lower.drop_last());
            let hash = way_end(child, rest.skip(1)).insert(
                key.skip(lower.last().0.len() as int),
                value,
            ).hash::<H>();
            lemma_hash_up_step::<H>(key, hash, here, lower.drop_last());
        },
        Trie::Edge { path, child } => {
            if path.is_prefix_of(rest) {
                let lower = child.way::<H>(key, depth + path.len());
                assert(rest.skip(path.len() as int) =~= key.skip((depth + path.len()) as int));
                lemma_hash_up_edge::<H>(*child, key, depth + path.len(), value);
                assert(way.drop_last() =~= seq![here] + lower.drop_last());
                let hash = way_end(*child, rest.skip(path.len() as int)).insert(
                    key.skip(lower.last().0.len() as int),
                    value,
                ).hash::<H>();
                lemma_hash_up_step::<H>(key, hash, here, lower.drop_last());
            } else {
                assert(way =~= seq![here]);
                assert(way.drop_last() =~= Seq::<(Seq<bool>, NodeView)>::empty());
            }
        },
    }
}

/// Hashing up the way to an entry of a trie gives the root hash that the trie has once the entry
/// has the value. With the value that it has, this is the root hash of the trie.
pub proof fn law_hash_up_entry<H: StarkHash>(trie: Trie, key: Seq<bool>, value: Felt)
    requires
        trie.fits(key.len()),
        reaches(trie, key),
    ensures
        hash_up::<H>(key, value, unskipped(trie.way::<H>(key, 0), false)) == trie.insert(
            key,
            value,
        ).hash::<H>(),
        trie.lookup(key) == Some(value) ==> hash_up::<H>(
            key,
            value,
            unskipped(trie.way::<H>(key, 0), false),
        ) == trie.hash::<H>(),
{
    assert(key.skip(0) =~= key);
    lemma_hash_up_entry::<H>(trie, key, 0, value);
}

/// Where the way to a key ends at an edge that leads away from it, hashing up the way without
/// that edge, from the hash of what takes its place, gives the root hash that the trie has once
/// the value is under the key.
pub proof fn law_hash_up_fork<H: StarkHash>(trie: Trie, key: Seq<bool>, value: Felt)
    requires
        trie.fits(key.len()),
        trie.lookup(key) is Some,
        !reaches(trie, key),
    ensures
        hash_up::<H>(
            key,
            way_end(trie, key).insert(
                key.skip(trie.way::<H>(key, 0).last().0.len() as int),
                value,
            ).hash::<H>(),
            unskipped(trie.way::<H>(key, 0), true),
        ) == trie.insert(key, value).hash::<H>(),
{
    assert(key.skip(0) =~= key);
    lemma_hash_up_edge::<H>(trie, key, 0, value);
}

/// Hashing up a way goes from its end to its top, node by node. At a binary node the hash takes the
/// place of the child that the next bit of the key selects, and at an edge that of its child.
pub proof fn law_hash_up_node_by_node<H: StarkHash>(
    key: Seq<bool>,
    hash: Felt,
    upper: Seq<(Seq<bool>, NodeView)>,
    position: Seq<bool>,
    left: Felt,
    right: Felt,
    path: Seq<bool>,
    child: Felt,
)
    ensures
        hash_up::<H>(key, hash, Seq::empty()) == hash,
        hash_up::<H>(key, hash, upper.push((position, binary_node(left, right)))) == hash_up::<H>(
            key,
            if key[position.len() as int] {
                H::hash_of(left, hash)
            } else {
                H::hash_of(hash, right)
            },
            upper,
        ),
        hash_up::<H>(key, hash, upper.push((position, edge_node(path, child)))) == hash_up::<H>(
            key,
            hash_over::<H>(path, hash),
            upper,
        ),
{
    assert(upper.push((position, binary_node(left, right))).drop_last() =~= upper);
    assert(upper.push((position, edge_node(path, child))).drop_last() =~= upper);
}

/// The last node of a way is left out if it is to be skipped, and no other.
pub proof fn law_last_node_is_skipped<T>(way: Seq<T>, last: T)
    ensures
        unskipped(way, false) == way,
        unskipped(way.push(last), true) == way,
        unskipped(Seq::<T>::empty(), true) == Seq::<T>::empty(),
{
    assert(way.push(last).drop_last() =~= way);
}

} // verus!
