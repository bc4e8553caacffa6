//! Entering and removing values, node by node.

use crate::felt::{Felt, StarkHash};
use crate::laws::forking::prunes;
use crate::laws::loading::lemma_load_way_fits;
use crate::laws::places::part_at;
use crate::laws::reading::{lemma_prunes_itself, refused};
use crate::trie::loading::{lemma_load_top_hash, load_beside, load_top, load_way};
use crate::trie::merkle_node::NodeView;
use crate::trie::model::Trie;
use crate::trie::path::lemma_common_len_unique;
use crate::trie::tree::set_value;
use vstd::prelude::*;

verus! {

/// A trie with a binary node at its top.
pub open spec fn branch(left: Trie, right: Trie) -> Trie {
    Trie::Binary { left: Box::new(left), right: Box::new(right) }
}

/// A trie below some bits: under an edge, or by itself if there are no bits.
pub open spec fn below(path: Seq<bool>, trie: Trie) -> Trie {
    if path.len() == 0 {
        trie
    } else {
        Trie::Edge { path, child: Box::new(trie) }
    }
}

/// A trie below some bits, under one edge also if it starts with an edge itself.
pub open spec fn joined(path: Seq<bool>, trie: Trie) -> Trie {
    match trie {
        Trie::Edge { path: rest, child } => Trie::Edge { path: path + rest, child },
        _ => Trie::Edge { path, child: Box::new(trie) },
    }
}

/// A value is put under a key by going down. It takes the place of an entry. Below a binary node
/// and below an edge that the key follows, everything else stays as it is.
pub proof fn law_insert_goes_down(trie: Trie, key: Seq<bool>, value: Felt)
    ensures
        match trie {
            Trie::Digest(_) => trie.insert(key, value) == Trie::Digest(value),
            Trie::Binary { left, right } => {
                &&& trie.insert(seq![false] + key, value) == branch(
                    left.insert(key, value),
                    *right,
                )
                &&& trie.insert(seq![true] + key, value) == branch(*left, right.insert(key, value))
            },
            Trie::Edge { path, child } => path.len() > 0 ==> trie.insert(path + key, value)
                == below(path, child.insert(key, value)),
        },
{
    assert((seq![false] + key).skip(1) =~= key);
    assert((seq![true] + key).skip(1) =~= key);
    if let Trie::Edge { path, child } = trie {
        assert((path + key).skip(path.len() as int) =~= key);
        assert(path =~= (path + key).take(path.len() as int));
    }
}

/// An edge that a key leaves is forked there: the bits before stay an edge, and below them a binary
/// node leads to what the edge led to and to the value, each below the bits that are left to it.
pub proof fn law_insert_forks(
    path: Seq<bool>,
    child: Trie,
    key: Seq<bool>,
    value: Felt,
    n: int,
)
    requires
        0 <= n < path.len(),
        n < key.len(),
        path.take(n) == key.take(n),
        path[n] != key[n],
    ensures
        below(path, child).insert(key, value) == below(
            key.take(n),
            if key[n] {
                branch(
                    below(path.skip(n + 1), child),
                    below(key.skip(n + 1), Trie::Digest(value)),
                )
            } else {
                branch(
                    below(key.skip(n + 1), Trie::Digest(value)),
                    below(path.skip(n + 1), child),
                )
            },
        ),
{
    lemma_common_len_unique(path, key, n as nat);
    assert(!path.is_prefix_of(key)) by {
        if path.is_prefix_of(key) {
            assert(path[n] == key[n]);
        }
    }
}

/// An entry is removed by going down. A binary node of which one side is left without entries gives
/// way to its other side, which comes below the bit that led to it. Edges that come to follow each
/// other are joined.
pub proof fn law_remove_goes_down(trie: Trie, key: Seq<bool>)
    ensures
        match trie {
            Trie::Digest(_) => trie.remove(key) is None,
            Trie::Binary { left, right } => {
                &&& trie.remove(seq![false] + key) == Some(
                    match left.remove(key) {
                        Some(rest) => branch(rest, *right),
                        None => joined(seq![true], *right),
                    },
                )
                &&& trie.remove(seq![true] + key) == Some(
                    match right.remove(key) {
                        Some(rest) => branch(*left, rest),
                        None => joined(seq![false], *left),
                    },
                )
            },
            Trie::Edge { path, child } => {
                &&& trie.remove(path + key) == match child.remove(key) {
                    Some(rest) => Some(joined(path, rest)),
                    None => None,
                }
                &&& !path.is_prefix_of(key) ==> trie.remove(key) == Some(trie)
            },
        },
{
    assert((seq![false] + key).skip(1) =~= key);
    assert((seq![true] + key).skip(1) =~= key);
    if let Trie::Edge { path, child } = trie {
        assert((path + key).skip(path.len() as int) =~= key);
        assert(path =~= (path + key).take(path.len() as int));
    }
}

/// Loading beside a key puts a node in the place of its hash.
proof fn lemma_load_beside_adds<H: StarkHash>(
    trie: Trie,
    nodes: Map<Felt, NodeView>,
    key: Seq<bool>,
    depth: nat,
)
    requires
        depth <= key.len(),
        trie.fits((key.len() - depth) as nat),
    ensures
        prunes::<H>(trie, load_beside::<H>(trie, nodes, key, depth).0),
    decreases trie,
{
    match trie {
        Trie::Digest(_) => {},
        Trie::Binary { left, right } => {
            let beside = key.update(depth as int, !key[depth as int]);
            lemma_prunes_itself::<H>(*left);
            lemma_prunes_itself::<H>(*right);
            lemma_load_beside_adds::<H>(trie.side(key[depth as int]), nodes, key, depth + 1);
            lemma_load_top_hash::<H>(*left, nodes, beside, depth + 1);
            lemma_load_top_hash::<H>(*right, nodes, beside, depth + 1);
            assert(load_top::<H>(*left, nodes, beside, depth + 1) matches Ok(loaded)
                ==> prunes::<H>(*left, loaded));
            assert(load_top::<H>(*right, nodes, beside, depth + 1) matches Ok(loaded)
                ==> prunes::<H>(*right, loaded));
        },
        Trie::Edge { path, child } => {
            lemma_prunes_itself::<H>(trie);
            if path.is_prefix_of(key.skip(depth as int)) {
                lemma_load_beside_adds::<H>(*child, nodes, key, depth + path.len());
            }
        },
    }
}

/// Where loading beside a key stops.
proof fn lemma_load_beside_stops<H: StarkHash>(
    trie: Trie,
    nodes: Map<Felt, NodeView>,
    key: Seq<bool>,
    depth: nat,
) -> (stop: nat)
    requires
        depth <= key.len(),
        trie.fits((key.len() - depth) as nat),
        load_beside::<H>(trie, nodes, key, depth).1 is Some,
    ensures
        depth < stop < key.len(),
        ({
            let beside = key.update(stop - 1, !key[stop - 1]);
            part_at(
                load_beside::<H>(trie, nodes, key, depth).0,
                beside.subrange(depth as int, stop as int),
            ) matches Some(part) && part is Digest && refused::<H>(
                nodes,
                beside,
                stop,
                part->0,
                load_beside::<H>(trie, nodes, key, depth).1->0,
            )
        }),
    decreases trie,
{
    match trie {
        Trie::Digest(_) => depth,
        Trie::Binary { left, right } => {
            let bit = key[depth as int];
            let near = trie.side(bit);
            if near.remove(key.skip(depth as int + 1)) is Some {
                let stop = lemma_load_beside_stops::<H>(near, nodes, key, depth + 1);
                let beside = key.update(stop - 1, !key[stop - 1]);
                let bits = beside.subrange(depth as int, stop as int);
                assert(bits[0] == bit);
                assert(bits.skip(1) =~= beside.subrange(depth as int + 1, stop as int));
                stop
            } else {
                let beside = key.update(depth as int, !bit);
                let bits = beside.subrange(depth as int, depth as int + 1);
                assert(bits[0] == !bit);
                assert(bits.skip(1).len() == 0);
                reveal_with_fuel(part_at, 2);
                depth + 1
            }
        },
        Trie::Edge { path, child } => {
            let n = path.len() as int;
            let stop = lemma_load_beside_stops::<H>(*child, nodes, key, depth + path.len());
            let beside = key.update(stop - 1, !key[stop - 1]);
            let bits = beside.subrange(depth as int, stop as int);
            assert(bits.skip(n) =~= beside.subrange(depth + n, stop as int));
            assert(path =~= bits.take(n)) by {
                assert(path =~= key.skip(depth as int).take(n));
            }
            stop
        },
    }
}

/// A removal whose way can be loaded fails only where the node that would take the place of its
/// parent cannot be loaded. This node stands beside the way: the bits that lead to it are those of
/// the key, but for the last. What is loaded up to then stays loaded.
pub proof fn law_removal_stops<H: StarkHash>(
    trie: Trie,
    stored: Map<Felt, NodeView>,
    key: Seq<bool>,
) -> (stop: nat)
    requires
        trie.fits(key.len()),
        load_way::<H>(trie, stored, key, 0).1 is None,
        set_value::<H>(Some(trie), stored, key, Felt::of(0)).1 is Some,
    ensures
        0 < stop < key.len(),
        ({
            let loaded = load_way::<H>(trie, stored, key, 0).0;
            let (after, error) = set_value::<H>(Some(trie), stored, key, Felt::of(0));
            let beside = key.update(stop - 1, !key[stop - 1]);
            &&& after is Some
            &&& prunes::<H>(loaded, after->0)
            &&& part_at(after->0, beside.take(stop as int)) matches Some(part) && part is Digest
                && refused::<H>(stored, beside, stop, part->0, error->0)
        }),
{
    let loaded = load_way::<H>(trie, stored, key, 0).0;
    lemma_load_way_fits::<H>(trie, stored, key, 0);
    lemma_load_beside_adds::<H>(loaded, stored, key, 0);
    let stop = lemma_load_beside_stops::<H>(loaded, stored, key, 0);
    let beside = key.update(stop - 1, !key[stop - 1]);
    assert(beside.subrange(0, stop as int) =~= beside.take(stop as int));
    stop
}

} // verus!
