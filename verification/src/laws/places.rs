//! Where the nodes of a trie stand.

use crate::felt::{Felt, StarkHash};
use crate::laws::nodes::nodes_of;
use crate::trie::model::Trie;
use crate::trie::tree::{positions, positions_view, root_way, NodeKey};
use vstd::prelude::*;

verus! {

/// The part of a trie that stands at the end of a run of bits, unless no node and no entry stands
/// there.
pub open spec fn part_at(trie: Trie, bits: Seq<bool>) -> Option<Trie>
    decreases trie,
{
    if bits.len() == 0 {
        Some(trie)
    } else {
        match trie {
            Trie::Digest(_) => None,
            Trie::Binary { left, right } => if bits[0] {
                part_at(*right, bits.skip(1))
            } else {
                part_at(*left, bits.skip(1))
            },
            Trie::Edge { path, child } => if path.is_prefix_of(bits) {
                part_at(*child, bits.skip(path.len() as int))
            } else {
                None
            },
        }
    }
}

/// A node of the trie stands at the end of a run of bits.
pub open spec fn has_node_at(trie: Trie, bits: Seq<bool>) -> bool {
    part_at(trie, bits) matches Some(part) && !(part is Digest)
}

/// The value under a key is found by going down: a clear bit leads to the left of a binary node
/// and a set bit to the right, an edge leads on if the key follows it, and the value is what stands
/// at the end. A key that leaves an edge has the value zero.
pub proof fn law_lookup(trie: Trie, key: Seq<bool>)
    ensures
        match trie {
            Trie::Digest(value) => trie.lookup(Seq::empty()) == Some(value) && (key.len() > 0
                ==> trie.lookup(key) is None),
            Trie::Binary { left, right } => trie.lookup(seq![false] + key) == left.lookup(key)
                && trie.lookup(seq![true] + key) == right.lookup(key),
            Trie::Edge { path, child } => trie.lookup(path + key) == child.lookup(key) && (
            !path.is_prefix_of(key) ==> trie.lookup(key) == Some(Felt::of(0))),
        },
{
    assert((seq![false] + key).skip(1) =~= key);
    assert((seq![true] + key).skip(1) =~= key);
    if let Trie::Edge { path, child } = trie {
        assert((path + key).skip(path.len() as int) =~= key);
        assert(path =~= (path + key).take(path.len() as int));
    }
}

/// The value under a key is the entry that stands at the end of the key, or zero if the way to the
/// key is known and nothing stands there.
pub proof fn law_lookup_is_entry(trie: Trie, key: Seq<bool>)
    requires
        trie.fits(key.len()),
    ensures
        match part_at(trie, key) {
            Some(part) => part is Digest && trie.lookup(key) == Some(part->0),
            None => trie.lookup(key) is None || trie.lookup(key) == Some(Felt::of(0)),
        },
    decreases trie,
{
    match trie {
        Trie::Digest(_) => {},
        Trie::Binary { left, right } => {
            law_lookup_is_entry(*left, key.skip(1));
            law_lookup_is_entry(*right, key.skip(1));
        },
        Trie::Edge { path, child } => {
            if path.is_prefix_of(key) {
                law_lookup_is_entry(*child, key.skip(path.len() as int));
            }
        },
    }
}

/// An entry of a way, in its place.
proof fn lemma_way_entry<H: StarkHash>(trie: Trie, key: Seq<bool>, depth: nat, i: int)
    requires
        depth <= key.len(),
        trie.fits((key.len() - depth) as nat),
        0 <= i < trie.way::<H>(key, depth).len(),
    ensures
        ({
            let (position, node) = trie.way::<H>(key, depth)[i];
            let bits = key.subrange(depth as int, position.len() as int);
            &&& depth <= position.len() < key.len()
            &&& i == 0 <==> position.len() == depth
            &&& position == key.take(position.len() as int)
            &&& has_node_at(trie, bits)
            &&& node == part_at(trie, bits)->0.node::<H>()
        }),
    decreases trie,
{
    let way = trie.way::<H>(key, depth);
    let position = way[i].0;
    let bits = key.subrange(depth as int, position.len() as int);
    match trie {
        Trie::Digest(_) => {},
        Trie::Binary { .. } => {
            if i > 0 {
                let child = trie.side(key[depth as int]);
                lemma_way_entry::<H>(child, key, depth + 1, i - 1);
                assert(bits.skip(1) =~= key.subrange(depth as int + 1, position.len() as int));
            }
        },
        Trie::Edge { path, child } => {
            if i > 0 {
                let n = path.len() as int;
                lemma_way_entry::<H>(*child, key, depth + path.len(), i - 1);
                assert(bits.skip(n) =~= key.subrange(depth + n, position.len() as int));
                assert(path =~= bits.take(n)) by {
                    assert(path =~= key.skip(depth as int).take(n));
                }
            }
        },
    }
}

/// Later entries of a way stand lower.
proof fn lemma_way_increases<H: StarkHash>(trie: Trie, key: Seq<bool>, depth: nat, i: int, j: int)
    requires
        depth <= key.len(),
        trie.fits((key.len() - depth) as nat),
        0 <= i < j < trie.way::<H>(key, depth).len(),
    ensures
        trie.way::<H>(key, depth)[i].0.len() < trie.way::<H>(key, depth)[j].0.len(),
    decreases trie,
{
    lemma_way_entry::<H>(trie, key, depth, i);
    lemma_way_entry::<H>(trie, key, depth, j);
    if i > 0 {
        match trie {
            Trie::Digest(_) => {},
            Trie::Binary { .. } => {
                let child = trie.side(key[depth as int]);
                lemma_way_increases::<H>(child, key, depth + 1, i - 1, j - 1);
            },
            Trie::Edge { path, child } => {
                lemma_way_increases::<H>(*child, key, depth + path.len(), i - 1, j - 1);
            },
        }
    }
}

/// Every node over a key is on the way to it.
proof fn lemma_way_has<H: StarkHash>(
    trie: Trie,
    key: Seq<bool>,
    depth: nat,
    height: nat,
) -> (i: int)
    requires
        depth <= height <= key.len(),
        trie.fits((key.len() - depth) as nat),
        has_node_at(trie, key.subrange(depth as int, height as int)),
    ensures
        0 <= i < trie.way::<H>(key, depth).len(),
        trie.way::<H>(key, depth)[i].0.len() == height,
    decreases trie,
{
    let bits = key.subrange(depth as int, height as int);
    if height == depth {
        0
    } else {
        match trie {
            Trie::Digest(_) => 0,
            Trie::Binary { .. } => {
                let child = trie.side(key[depth as int]);
                assert(bits.skip(1) =~= key.subrange(depth as int + 1, height as int));
                lemma_way_has::<H>(child, key, depth + 1, height) + 1
            },
            Trie::Edge { path, child } => {
                let n = path.len() as int;
                assert(bits.skip(n) =~= key.subrange(depth + n, height as int));
                assert(path =~= key.skip(depth as int).take(n)) by {
                    assert(path =~= bits.take(n));
                }
                lemma_way_has::<H>(*child, key, depth + path.len(), height) + 1
            },
        }
    }
}

/// The way to a key has the nodes that stand over it, each once, from the top down, and each comes
/// with the bits of the key that lead to it.
pub proof fn law_way<H: StarkHash>(trie: Trie, key: Seq<bool>, i: int, j: int, height: nat)
    requires
        trie.fits(key.len()),
    ensures
        0 <= i < trie.way::<H>(key, 0).len() ==> {
            let (position, node) = trie.way::<H>(key, 0)[i];
            &&& position.len() < key.len()
            &&& position == key.take(position.len() as int)
            &&& has_node_at(trie, position)
            &&& node == part_at(trie, position)->0.node::<H>()
        },
        0 <= i < j < trie.way::<H>(key, 0).len() ==> trie.way::<H>(key, 0)[i].0.len()
            < trie.way::<H>(key, 0)[j].0.len(),
        height <= key.len() && has_node_at(trie, key.take(height as int)) ==> exists|k: int|
            0 <= k < trie.way::<H>(key, 0).len() && (#[trigger] trie.way::<H>(
                key,
                0,
            )[k]).0.len() == height,
{
    let way = trie.way::<H>(key, 0);
    if 0 <= i < way.len() {
        lemma_way_entry::<H>(trie, key, 0, i);
        assert(key.subrange(0, way[i].0.len() as int) =~= key.take(way[i].0.len() as int));
    }
    if 0 <= i < j < way.len() {
        lemma_way_increases::<H>(trie, key, 0, i, j);
    }
    if height <= key.len() && has_node_at(trie, key.take(height as int)) {
        assert(key.subrange(0, height as int) =~= key.take(height as int));
        let k = lemma_way_has::<H>(trie, key, 0, height);
        assert(way[k].0.len() == height);
    }
}

/// The list that seeking a key gives has the nodes that stand over the key and no others, each
/// once, from the top down. Each is listed with the bits of the key that lead to it and with their
/// number.
pub proof fn law_listed_nodes<H: StarkHash>(
    list: Seq<(NodeKey, usize)>,
    trie: Trie,
    key: Seq<bool>,
    i: int,
    j: int,
    height: nat,
)
    requires
        trie.fits(key.len()),
        positions_view(list) == positions(root_way::<H>(Some(trie), key)),
    ensures
        0 <= i < list.len() ==> {
            &&& list[i].1 < key.len()
            &&& list[i].0.0@ == key.take(list[i].1 as int)
            &&& has_node_at(trie, list[i].0.0@)
        },
        0 <= i < j < list.len() ==> list[i].1 < list[j].1,
        height <= key.len() && has_node_at(trie, key.take(height as int)) ==> exists|k: int|
            0 <= k < list.len() && (#[trigger] list[k]).1 == height,
        trie is Digest ==> list.len() == 0,
{
    let way = trie.way::<H>(key, 0);
    let seen = positions_view(list);
    assert(seen.len() == list.len() && positions(way).len() == way.len());
    assert forall|k: int| 0 <= k < list.len() implies (#[trigger] list[k]).0.0@ == way[k].0
        && list[k].1 == way[k].0.len() by {
        assert(seen[k] == positions(way)[k]);
        assert(seen[k] == (list[k].0@, list[k].1 as nat));
    }
    law_way::<H>(trie, key, i, j, height);
    if height <= key.len() && has_node_at(trie, key.take(height as int)) {
        let k = choose|k: int| 0 <= k < way.len() && (#[trigger] way[k]).0.len() == height;
        assert(list[k].1 == height);
    }
}

/// Seeking a key in a tree without entries gives an empty list.
pub proof fn law_nothing_listed<H: StarkHash>(list: Seq<(NodeKey, usize)>, key: Seq<bool>)
    requires
        positions_view(list) == positions(root_way::<H>(None, key)),
    ensures
        list.len() == 0,
{
    assert(positions_view(list).len() == list.len());
}

/// The nodes of a trie are those that stand somewhere in it.
pub proof fn law_nodes_stand_somewhere<H: StarkHash>(trie: Trie, bits: Seq<bool>)
    requires
        has_node_at(trie, bits),
    ensures
        nodes_of::<H>(trie).contains(part_at(trie, bits)->0.node::<H>()),
    decreases trie,
{
    if bits.len() > 0 {
        match trie {
            Trie::Digest(_) => {},
            Trie::Binary { .. } => {
                law_nodes_stand_somewhere::<H>(trie.side(bits[0]), bits.skip(1));
            },
            Trie::Edge { path, child } => {
                law_nodes_stand_somewhere::<H>(*child, bits.skip(path.len() as int));
            },
        }
    }
}

} // verus!
