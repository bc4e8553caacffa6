//! Reading a tree of which only some nodes are loaded: what gets loaded, and what goes wrong.

use crate::error::StorageErrorView;
use crate::felt::{Felt, StarkHash};
use crate::laws::forking::{
    complete, lemma_complete, lemma_load_way_prunes, lemma_prunes_hash, lemma_prunes_lookup,
    lemma_prunes_nodes, missing, prunes,
};
use crate::laws::loading::{lemma_load_top, lemma_load_way_fits};
use crate::laws::nodes::{
    collision_free, holds_way, lemma_collision_free_part, lemma_way_nodes, lemma_within_values,
    nodes_of, within,
};
use crate::laws::ordering::lemma_load_twice;
use crate::laws::places::{has_node_at, part_at};
use crate::laws::proving::{law_multi_proof_tells, lemma_prove_keys_root};
use crate::laws::storing::holds_nodes;
use crate::trie::loading::{lemma_load_way_hash, lemma_load_way_known, load_top, load_way};
use crate::trie::merkle_node::{node_hash, NodeView};
use crate::trie::model::Trie;
use crate::trie::partial_trie::PartialTrieErrorView;
use crate::trie::proofs::{MultiProof, VerificationErrorView};
use crate::trie::tree::{lemma_prove_keys_failed, prove_keys};
use vstd::prelude::*;

verus! {

/// A trie is a part of itself.
pub proof fn lemma_prunes_itself<H: StarkHash>(trie: Trie)
    ensures
        prunes::<H>(trie, trie),
    decreases trie,
{
    match trie {
        Trie::Digest(_) => {},
        Trie::Binary { left, right } => {
            lemma_prunes_itself::<H>(*left);
            lemma_prunes_itself::<H>(*right);
        },
        Trie::Edge { child, .. } => {
            lemma_prunes_itself::<H>(*child);
        },
    }
}

/// The node with the hash `hash`, which stands after the first `depth` bits of `key`, cannot be
/// loaded, and this is why.
pub open spec fn refused<H: StarkHash>(
    nodes: Map<Felt, NodeView>,
    key: Seq<bool>,
    depth: nat,
    hash: Felt,
    error: PartialTrieErrorView,
) -> bool {
    match error {
        PartialTrieErrorView::NodeNotFound => !nodes.contains_key(hash),
        PartialTrieErrorView::ProofVerificationError(
            VerificationErrorView::HashMismatch { path, expected, got },
        ) => {
            &&& nodes.contains_key(hash)
            &&& path == key.take(depth as int)
            &&& expected == hash
            &&& got == node_hash::<H>(nodes[hash])
            &&& got != hash
        },
        PartialTrieErrorView::ProofVerificationError(VerificationErrorView::InvalidProof) => {
            &&& nodes.contains_key(hash)
            &&& node_hash::<H>(nodes[hash]) == hash
            &&& nodes[hash] matches NodeView::Edge { path, .. } && path.len() == 0
        },
        PartialTrieErrorView::ProofVerificationError(
            VerificationErrorView::Overshot { path, expected_max_height },
        ) => {
            &&& nodes.contains_key(hash)
            &&& node_hash::<H>(nodes[hash]) == hash
            &&& nodes[hash] matches NodeView::Edge { path: edge, .. } && path == key.take(
                depth as int,
            ) + edge
            &&& path.len() > key.len()
            &&& expected_max_height == key.len()
        },
        _ => false,
    }
}

/// Loading puts nodes in the place of their hashes.
proof fn lemma_load_way_adds<H: StarkHash>(
    trie: Trie,
    nodes: Map<Felt, NodeView>,
    key: Seq<bool>,
    depth: nat,
)
    requires
        depth <= key.len(),
        trie.fits((key.len() - depth) as nat),
    ensures
        prunes::<H>(trie, load_way::<H>(trie, nodes, key, depth).0),
    decreases key.len() - depth,
{
    lemma_prunes_itself::<H>(trie);
    lemma_load_way_hash::<H>(trie, nodes, key, depth);
    if depth < key.len() {
        lemma_load_top::<H>(trie, nodes, key, depth);
        if !(trie is Digest) {
            match trie {
                Trie::Binary { left, right } => {
                    let child = trie.side(key[depth as int]);
                    lemma_load_way_adds::<H>(child, nodes, key, depth + 1);
                },
                Trie::Edge { path, child } => {
                    if path.is_prefix_of(key.skip(depth as int)) {
                        lemma_load_way_adds::<H>(*child, nodes, key, depth + path.len());
                    }
                },
                Trie::Digest(_) => {},
            }
        }
    }
}

/// Loading adds only nodes that stand over the key.
proof fn lemma_load_way_only<H: StarkHash>(
    trie: Trie,
    nodes: Map<Felt, NodeView>,
    key: Seq<bool>,
    depth: nat,
    bits: Seq<bool>,
)
    requires
        depth <= key.len(),
        trie.fits((key.len() - depth) as nat),
        has_node_at(load_way::<H>(trie, nodes, key, depth).0, bits),
    ensures
        has_node_at(trie, bits) || bits.is_prefix_of(key.skip(depth as int)),
    decreases key.len() - depth,
{
    let rest = key.skip(depth as int);
    if bits.len() == 0 {
        assert(bits =~= rest.take(0));
    } else if depth < key.len() {
        lemma_load_top::<H>(trie, nodes, key, depth);
        match load_top::<H>(trie, nodes, key, depth) {
            Ok(loaded) => {
                let after = load_way::<H>(trie, nodes, key, depth).0;
                match loaded {
                    Trie::Digest(_) => {},
                    Trie::Binary { left, right } => {
                        let bit = key[depth as int];
                        if bits[0] == bit {
                            lemma_load_way_only::<H>(
                                loaded.side(bit),
                                nodes,
                                key,
                                depth + 1,
                                bits.skip(1),
                            );
                            if bits.skip(1).is_prefix_of(key.skip(depth as int + 1)) {
                                assert(bits =~= rest.take(bits.len() as int)) by {
                                    assert(bits.skip(1) =~= key.skip(depth as int + 1).take(
                                        bits.len() - 1,
                                    ));
                                    assert forall|i: int| 0 <= i < bits.len() implies bits[i]
                                        == rest[i] by {
                                        if i > 0 {
                                            assert(bits.skip(1)[i - 1] == bits[i]);
                                            assert(key.skip(depth as int + 1)[i - 1] == rest[i]);
                                        }
                                    }
                                }
                            } else if trie is Digest {
                                reveal_with_fuel(part_at, 2);
                            }
                        } else {
                            reveal_with_fuel(part_at, 2);
                        }
                    },
                    Trie::Edge { path, child } => {
                        let n = path.len() as int;
                        if path.is_prefix_of(rest) {
                            lemma_load_way_only::<H>(
                                *child,
                                nodes,
                                key,
                                depth + path.len(),
                                bits.skip(n),
                            );
                            if bits.skip(n).is_prefix_of(key.skip(depth + n)) {
                                assert(bits =~= rest.take(bits.len() as int)) by {
                                    assert(bits.take(n) =~= path);
                                    assert(rest.take(n) =~= path);
                                    assert forall|i: int| 0 <= i < bits.len() implies bits[i]
                                        == rest[i] by {
                                        if i < n {
                                            assert(bits.take(n)[i] == rest.take(n)[i]);
                                        } else {
                                            assert(bits.skip(n)[i - n] == bits[i]);
                                            assert(key.skip(depth + n)[i - n] == rest[i]);
                                        }
                                    }
                                }
                            } else if trie is Digest {
                                reveal_with_fuel(part_at, 2);
                            }
                        } else {
                            reveal_with_fuel(part_at, 2);
                        }
                    },
                }
            },
            Err(_) => {},
        }
    }
}

/// Where loading stops.
proof fn lemma_load_way_stops<H: StarkHash>(
    trie: Trie,
    nodes: Map<Felt, NodeView>,
    key: Seq<bool>,
    depth: nat,
) -> (stop: nat)
    requires
        depth <= key.len(),
        trie.fits((key.len() - depth) as nat),
        load_way::<H>(trie, nodes, key, depth).1 is Some,
    ensures
        depth <= stop < key.len(),
        part_at(
            load_way::<H>(trie, nodes, key, depth).0,
            key.subrange(depth as int, stop as int),
        ) matches Some(part) && part is Digest && refused::<H>(
            nodes,
            key,
            stop,
            part->0,
            load_way::<H>(trie, nodes, key, depth).1->0,
        ),
    decreases key.len() - depth,
{
    lemma_load_top::<H>(trie, nodes, key, depth);
    match load_top::<H>(trie, nodes, key, depth) {
        Err(_) => {
            assert(key.subrange(depth as int, depth as int).len() == 0);
            depth
        },
        Ok(loaded) => {
            match loaded {
                Trie::Digest(_) => depth,
                Trie::Binary { left, right } => {
                    let child = loaded.side(key[depth as int]);
                    let stop = lemma_load_way_stops::<H>(child, nodes, key, depth + 1);
                    let bits = key.subrange(depth as int, stop as int);
                    assert(bits.skip(1) =~= key.subrange(depth as int + 1, stop as int));
                    stop
                },
                Trie::Edge { path, child } => {
                    let n = path.len() as int;
                    let stop = lemma_load_way_stops::<H>(*child, nodes, key, depth + path.len());
                    let bits = key.subrange(depth as int, stop as int);
                    assert(bits.skip(n) =~= key.subrange(depth + n, stop as int));
                    assert(path =~= bits.take(n)) by {
                        assert(path =~= key.skip(depth as int).take(n));
                    }
                    stop
                },
            }
        },
    }
}

/// Loading the way to a key puts nodes in the place of their hashes, and changes nothing else. It
/// adds only nodes that stand over the key. The height and the hash stay as they are.
pub proof fn law_loading_adds_the_way<H: StarkHash>(
    trie: Trie,
    nodes: Map<Felt, NodeView>,
    key: Seq<bool>,
    bits: Seq<bool>,
)
    requires
        trie.fits(key.len()),
    ensures
        ({
            let loaded = load_way::<H>(trie, nodes, key, 0).0;
            &&& prunes::<H>(trie, loaded)
            &&& loaded.fits(key.len())
            &&& loaded.hash::<H>() == trie.hash::<H>()
            &&& has_node_at(loaded, bits) ==> has_node_at(trie, bits) || bits.is_prefix_of(key)
        }),
{
    lemma_load_way_adds::<H>(trie, nodes, key, 0);
    lemma_load_way_fits::<H>(trie, nodes, key, 0);
    lemma_load_way_hash::<H>(trie, nodes, key, 0);
    assert(key.skip(0) =~= key);
    if has_node_at(load_way::<H>(trie, nodes, key, 0).0, bits) {
        lemma_load_way_only::<H>(trie, nodes, key, 0, bits);
    }
}

/// Loading the way to a key comes to its end, and then the value under the key is known, or stops
/// over the key at a hash whose node cannot be loaded. The error says why.
pub proof fn law_loading_stops<H: StarkHash>(
    trie: Trie,
    nodes: Map<Felt, NodeView>,
    key: Seq<bool>,
) -> (stop: nat)
    requires
        trie.fits(key.len()),
    ensures
        match load_way::<H>(trie, nodes, key, 0).1 {
            None => load_way::<H>(trie, nodes, key, 0).0.lookup(key) is Some,
            Some(error) => {
                &&& stop < key.len()
                &&& part_at(
                    load_way::<H>(trie, nodes, key, 0).0,
                    key.take(stop as int),
                ) matches Some(part) && part is Digest && refused::<H>(
                    nodes,
                    key,
                    stop,
                    part->0,
                    error,
                )
            },
        },
{
    assert(key.skip(0) =~= key);
    if load_way::<H>(trie, nodes, key, 0).1 is Some {
        let stop = lemma_load_way_stops::<H>(trie, nodes, key, 0);
        assert(key.subrange(0, stop as int) =~= key.take(stop as int));
        stop
    } else {
        lemma_load_way_known::<H>(trie, nodes, key, 0);
        0
    }
}

/// The key has the height of the tree, and the way to it can be loaded.
pub open spec fn provable<H: StarkHash>(
    trie: Trie,
    stored: Map<Felt, NodeView>,
    key: Seq<bool>,
    height: nat,
) -> bool {
    key.len() == height && load_way::<H>(trie, stored, key, 0).1 is None
}

/// Proving some keys does not change what loading the way to another comes to.
proof fn lemma_prove_keys_apart<H: StarkHash>(
    trie: Trie,
    stored: Map<Felt, NodeView>,
    keys: Seq<Seq<bool>>,
    height: nat,
    key: Seq<bool>,
)
    requires
        trie.fits(height),
        key.len() == height,
    ensures
        load_way::<H>(
            prove_keys::<H>(Some(trie), stored, keys, height).0->0,
            stored,
            key,
            0,
        ).1 == load_way::<H>(trie, stored, key, 0).1,
    decreases keys.len(),
{
    if keys.len() > 0 {
        let earlier = keys.drop_last();
        lemma_prove_keys_apart::<H>(trie, stored, earlier, height, key);
        lemma_prove_keys_root::<H>(trie, stored, earlier, height);
        let before = prove_keys::<H>(Some(trie), stored, earlier, height).0->0;
        if keys.last().len() == height {
            lemma_load_twice::<H>(before, stored, keys.last(), key, 0);
        }
    }
}

/// Keys are proved, however many there are, if and only if each of them has the height of the tree
/// and the way to it can be loaded.
pub proof fn law_keys_are_proved<H: StarkHash>(
    trie: Trie,
    stored: Map<Felt, NodeView>,
    keys: Seq<Seq<bool>>,
    height: nat,
)
    requires
        trie.fits(height),
    ensures
        prove_keys::<H>(Some(trie), stored, keys, height).2 is None <==> (forall|i: int|
            0 <= i < keys.len() ==> provable::<H>(trie, stored, #[trigger] keys[i], height)),
    decreases keys.len(),
{
    if keys.len() > 0 {
        let earlier = keys.drop_last();
        let key = keys.last();
        law_keys_are_proved::<H>(trie, stored, earlier, height);
        lemma_prove_keys_root::<H>(trie, stored, earlier, height);
        if key.len() == height {
            lemma_prove_keys_apart::<H>(trie, stored, earlier, height, key);
        }
        if prove_keys::<H>(Some(trie), stored, keys, height).2 is None {
            assert forall|i: int| 0 <= i < keys.len() implies provable::<H>(
                trie,
                stored,
                #[trigger] keys[i],
                height,
            ) by {
                if i < earlier.len() {
                    assert(earlier[i] == keys[i]);
                }
            }
        }
        if forall|i: int|
            0 <= i < keys.len() ==> provable::<H>(trie, stored, #[trigger] keys[i], height) {
            assert forall|i: int| 0 <= i < earlier.len() implies provable::<H>(
                trie,
                stored,
                #[trigger] earlier[i],
                height,
            ) by {
                assert(earlier[i] == keys[i]);
            }
            assert(key == keys[keys.len() - 1]);
        }
    }
}

/// The first key that cannot be proved decides what goes wrong: its length if it is not the height
/// of the tree, and else what keeps the way to it from being loaded.
pub proof fn law_first_failure_is_told<H: StarkHash>(
    trie: Trie,
    stored: Map<Felt, NodeView>,
    keys: Seq<Seq<bool>>,
    height: nat,
    i: int,
)
    requires
        trie.fits(height),
        0 <= i < keys.len(),
        forall|j: int| 0 <= j < i ==> provable::<H>(trie, stored, #[trigger] keys[j], height),
        !provable::<H>(trie, stored, keys[i], height),
    ensures
        match prove_keys::<H>(Some(trie), stored, keys, height).2 {
            None => false,
            Some(StorageErrorView::KeyLength { expected, got }) => {
                keys[i].len() != height && expected == height && got == keys[i].len()
            },
            Some(StorageErrorView::Trie(error)) => {
                keys[i].len() == height && load_way::<H>(trie, stored, keys[i], 0).1 == Some(error)
            },
        },
{
    let earlier = keys.take(i);
    let tried = keys.take(i + 1);
    assert forall|j: int| 0 <= j < earlier.len() implies provable::<H>(
        trie,
        stored,
        #[trigger] earlier[j],
        height,
    ) by {
        assert(earlier[j] == keys[j]);
    }
    law_keys_are_proved::<H>(trie, stored, earlier, height);
    assert(tried.drop_last() =~= earlier);
    assert(tried.last() == keys[i]);
    lemma_prove_keys_root::<H>(trie, stored, earlier, height);
    if keys[i].len() == height {
        lemma_prove_keys_apart::<H>(trie, stored, earlier, height, keys[i]);
    }
    lemma_prove_keys_failed::<H>(Some(trie), stored, keys, height, i + 1);
}

/// A tree without entries proves all keys of its height, and needs no nodes for it.
pub proof fn law_empty_tree_proves<H: StarkHash>(
    stored: Map<Felt, NodeView>,
    keys: Seq<Seq<bool>>,
    height: nat,
)
    ensures
        ({
            let (root, filed, error) = prove_keys::<H>(None, stored, keys, height);
            &&& root is None
            &&& filed == Map::<Felt, NodeView>::empty()
            &&& error is None <==> (forall|i: int|
                0 <= i < keys.len() ==> (#[trigger] keys[i]).len() == height)
            &&& error is Some ==> error->0 is KeyLength
        }),
    decreases keys.len(),
{
    if keys.len() > 0 {
        let earlier = keys.drop_last();
        law_empty_tree_proves::<H>(stored, earlier, height);
        assert(keys.last() == keys[keys.len() - 1]);
        if forall|i: int| 0 <= i < earlier.len() ==> (#[trigger] earlier[i]).len() == height {
            assert forall|i: int| 0 <= i < keys.len() - 1 implies (#[trigger] keys[i]).len()
                == height by {
                assert(earlier[i] == keys[i]);
            }
        } else {
            let i = choose|i: int| 0 <= i < earlier.len() && (#[trigger] earlier[i]).len()
                != height;
            assert(keys[i].len() != height);
        }
    }
}

/// What goes wrong in a tree without entries is the length of the first key that does not have its
/// height.
pub proof fn law_first_wrong_length_is_told<H: StarkHash>(
    stored: Map<Felt, NodeView>,
    keys: Seq<Seq<bool>>,
    height: nat,
    i: int,
)
    requires
        0 <= i < keys.len(),
        forall|j: int| 0 <= j < i ==> (#[trigger] keys[j]).len() == height,
        keys[i].len() != height,
    ensures
        match prove_keys::<H>(None, stored, keys, height).2 {
            Some(StorageErrorView::KeyLength { expected, got }) => expected == height && got
                == keys[i].len(),
            _ => false,
        },
{
    let earlier = keys.take(i);
    let tried = keys.take(i + 1);
    law_empty_tree_proves::<H>(stored, earlier, height);
    assert(tried.drop_last() =~= earlier);
    assert(tried.last() == keys[i]);
    lemma_prove_keys_failed::<H>(None, stored, keys, height, i + 1);
}

/// What loading one way adds, it adds also after another way was loaded.
proof fn lemma_load_way_after<H: StarkHash>(
    trie: Trie,
    stored: Map<Felt, NodeView>,
    first: Seq<bool>,
    second: Seq<bool>,
    depth: nat,
)
    requires
        depth <= second.len(),
        first.len() == second.len(),
        trie.fits((second.len() - depth) as nat),
    ensures
        prunes::<H>(
            load_way::<H>(trie, stored, second, depth).0,
            load_way::<H>(load_way::<H>(trie, stored, first, depth).0, stored, second, depth).0,
        ),
    decreases second.len() - depth,
{
    let once = load_way::<H>(trie, stored, second, depth).0;
    let before = load_way::<H>(trie, stored, first, depth).0;
    let twice = load_way::<H>(before, stored, second, depth).0;
    lemma_prunes_itself::<H>(once);
    lemma_load_way_hash::<H>(trie, stored, first, depth);
    lemma_load_way_hash::<H>(trie, stored, second, depth);
    lemma_load_way_hash::<H>(before, stored, second, depth);
    if depth < second.len() {
        lemma_load_top::<H>(trie, stored, first, depth);
        lemma_load_top::<H>(trie, stored, second, depth);
        match load_top::<H>(trie, stored, first, depth) {
            Err(_) => {},
            Ok(loaded) => {
                assert(load_top::<H>(trie, stored, second, depth) == load_top::<H>(
                    trie,
                    stored,
                    first,
                    depth,
                ));
                match loaded {
                    Trie::Digest(_) => {},
                    Trie::Binary { left, right } => {
                        let (a, b) = (first[depth as int], second[depth as int]);
                        lemma_prunes_itself::<H>(*left);
                        lemma_prunes_itself::<H>(*right);
                        lemma_load_way_adds::<H>(loaded.side(a), stored, first, depth + 1);
                        if a == b {
                            lemma_load_way_after::<H>(
                                loaded.side(a),
                                stored,
                                first,
                                second,
                                depth + 1,
                            );
                        } else {
                            lemma_prunes_itself::<H>(
                                load_way::<H>(loaded.side(b), stored, second, depth + 1).0,
                            );
                        }
                    },
                    Trie::Edge { path, child } => {
                        let lower = depth + path.len();
                        lemma_prunes_itself::<H>(*child);
                        if path.is_prefix_of(first.skip(depth as int)) {
                            lemma_load_way_adds::<H>(*child, stored, first, lower);
                            if path.is_prefix_of(second.skip(depth as int)) {
                                lemma_load_way_after::<H>(*child, stored, first, second, lower);
                            }
                        } else if path.is_prefix_of(second.skip(depth as int)) {
                            lemma_prunes_itself::<H>(
                                load_way::<H>(*child, stored, second, lower).0,
                            );
                        }
                    },
                }
            },
        }
    }
}

/// A part of a part is a part of the whole.
proof fn lemma_prunes_prunes<H: StarkHash>(a: Trie, b: Trie, c: Trie)
    requires
        prunes::<H>(a, b),
        prunes::<H>(b, c),
    ensures
        prunes::<H>(a, c),
    decreases a,
{
    lemma_prunes_hash::<H>(b, c);
    match a {
        Trie::Digest(_) => {},
        Trie::Binary { left, right } => {
            lemma_prunes_prunes::<H>(*left, b.side(false), c.side(false));
            lemma_prunes_prunes::<H>(*right, b.side(true), c.side(true));
        },
        Trie::Edge { child, .. } => {
            lemma_prunes_prunes::<H>(*child, *b->child, *c->child);
        },
    }
}

/// What proving some keys loads stays loaded while more keys are proved.
proof fn lemma_prove_keys_adds<H: StarkHash>(
    trie: Trie,
    stored: Map<Felt, NodeView>,
    keys: Seq<Seq<bool>>,
    height: nat,
    i: int,
)
    requires
        trie.fits(height),
        0 <= i <= keys.len(),
    ensures
        prunes::<H>(
            prove_keys::<H>(Some(trie), stored, keys.take(i), height).0->0,
            prove_keys::<H>(Some(trie), stored, keys, height).0->0,
        ),
    decreases keys.len(),
{
    let root = prove_keys::<H>(Some(trie), stored, keys, height).0->0;
    if i == keys.len() {
        assert(keys.take(i) =~= keys);
        lemma_prunes_itself::<H>(root);
    } else {
        let earlier = keys.drop_last();
        assert(earlier.take(i) =~= keys.take(i));
        lemma_prove_keys_adds::<H>(trie, stored, earlier, height, i);
        lemma_prove_keys_root::<H>(trie, stored, earlier, height);
        let before = prove_keys::<H>(Some(trie), stored, earlier, height).0->0;
        lemma_prunes_itself::<H>(before);
        if keys.last().len() == height {
            lemma_load_way_adds::<H>(before, stored, keys.last(), 0);
        }
        lemma_prunes_prunes::<H>(
            prove_keys::<H>(Some(trie), stored, keys.take(i), height).0->0,
            before,
            root,
        );
    }
}

/// Loading the way to a key after other keys were proved adds what it adds at first.
proof fn lemma_prove_keys_after<H: StarkHash>(
    trie: Trie,
    stored: Map<Felt, NodeView>,
    keys: Seq<Seq<bool>>,
    height: nat,
    key: Seq<bool>,
)
    requires
        trie.fits(height),
        key.len() == height,
    ensures
        prunes::<H>(
            load_way::<H>(trie, stored, key, 0).0,
            load_way::<H>(
                prove_keys::<H>(Some(trie), stored, keys, height).0->0,
                stored,
                key,
                0,
            ).0,
        ),
    decreases keys.len(),
{
    let once = load_way::<H>(trie, stored, key, 0).0;
    if keys.len() == 0 {
        lemma_prunes_itself::<H>(once);
    } else {
        let earlier = keys.drop_last();
        lemma_prove_keys_after::<H>(trie, stored, earlier, height, key);
        lemma_prove_keys_root::<H>(trie, stored, earlier, height);
        let before = prove_keys::<H>(Some(trie), stored, earlier, height).0->0;
        let root = prove_keys::<H>(Some(trie), stored, keys, height).0->0;
        let between = load_way::<H>(before, stored, key, 0).0;
        let after = load_way::<H>(root, stored, key, 0).0;
        if prove_keys::<H>(Some(trie), stored, earlier, height).2 is None && keys.last().len()
            == height {
            lemma_load_way_after::<H>(before, stored, keys.last(), key, 0);
        } else {
            lemma_prunes_itself::<H>(between);
        }
        lemma_prunes_prunes::<H>(once, between, after);
    }
}

/// Proving keys puts nodes over the keys in the place of their hashes, and changes nothing else,
/// also where it fails. It loads what loading the way to each key loads, up to the first key that
/// cannot be proved, and as much of that one as can be loaded.
pub proof fn law_proving_loads_the_ways<H: StarkHash>(
    trie: Trie,
    stored: Map<Felt, NodeView>,
    keys: Seq<Seq<bool>>,
    height: nat,
    i: int,
)
    requires
        trie.fits(height),
        0 <= i < keys.len(),
        keys[i].len() == height,
        forall|j: int| 0 <= j < i ==> provable::<H>(trie, stored, #[trigger] keys[j], height),
    ensures
        ({
            let root = prove_keys::<H>(Some(trie), stored, keys, height).0;
            &&& root is Some
            &&& root->0.fits(height)
            &&& prunes::<H>(trie, root->0)
            &&& prunes::<H>(load_way::<H>(trie, stored, keys[i], 0).0, root->0)
        }),
{
    let earlier = keys.take(i);
    let tried = keys.take(i + 1);
    let root = prove_keys::<H>(Some(trie), stored, keys, height).0->0;
    let now = prove_keys::<H>(Some(trie), stored, tried, height).0->0;
    lemma_prove_keys_root::<H>(trie, stored, keys, height);
    lemma_prove_keys_adds::<H>(trie, stored, keys, height, 0);
    assert(keys.take(0) =~= Seq::<Seq<bool>>::empty());
    assert forall|j: int| 0 <= j < earlier.len() implies provable::<H>(
        trie,
        stored,
        #[trigger] earlier[j],
        height,
    ) by {
        assert(earlier[j] == keys[j]);
    }
    law_keys_are_proved::<H>(trie, stored, earlier, height);
    assert(tried.drop_last() =~= earlier);
    assert(tried.last() == keys[i]);
    lemma_prove_keys_root::<H>(trie, stored, earlier, height);
    lemma_prove_keys_after::<H>(trie, stored, earlier, height, keys[i]);
    lemma_prove_keys_adds::<H>(trie, stored, keys, height, i + 1);
    lemma_prunes_prunes::<H>(load_way::<H>(trie, stored, keys[i], 0).0, now, root);
}

/// Proving keys adds only nodes that stand over some of the keys.
pub proof fn law_proving_loads_only_ways<H: StarkHash>(
    trie: Trie,
    stored: Map<Felt, NodeView>,
    keys: Seq<Seq<bool>>,
    height: nat,
    bits: Seq<bool>,
)
    requires
        trie.fits(height),
        has_node_at(prove_keys::<H>(Some(trie), stored, keys, height).0->0, bits),
    ensures
        has_node_at(trie, bits) || exists|k: int|
            0 <= k < keys.len() && bits.is_prefix_of(#[trigger] keys[k]),
    decreases keys.len(),
{
    if keys.len() > 0 {
        let earlier = keys.drop_last();
        let last = keys.len() - 1;
        lemma_prove_keys_root::<H>(trie, stored, earlier, height);
        let before = prove_keys::<H>(Some(trie), stored, earlier, height).0->0;
        if has_node_at(before, bits) {
            law_proving_loads_only_ways::<H>(trie, stored, earlier, height, bits);
            if !has_node_at(trie, bits) {
                let k = choose|k: int|
                    0 <= k < earlier.len() && bits.is_prefix_of(#[trigger] earlier[k]);
                assert(bits.is_prefix_of(keys[k]));
            }
        } else {
            assert(keys.last().skip(0) =~= keys[last]);
            lemma_load_way_only::<H>(before, stored, keys.last(), 0, bits);
            assert(bits.is_prefix_of(keys[last]));
        }
    }
}

/// Proving keys loads more of a tree, and what is loaded is part of the whole tree.
proof fn lemma_prove_keys_prunes<H: StarkHash>(
    part: Trie,
    whole: Trie,
    stored: Map<Felt, NodeView>,
    keys: Seq<Seq<bool>>,
    height: nat,
    all: Set<NodeView>,
)
    requires
        prunes::<H>(part, whole),
        complete(whole, height),
        part.fits(height),
        nodes_of::<H>(whole).subset_of(all),
        within(stored, all),
        collision_free::<H>(all),
    ensures
        prunes::<H>(prove_keys::<H>(Some(part), stored, keys, height).0->0, whole),
    decreases keys.len(),
{
    if keys.len() > 0 {
        let earlier = keys.drop_last();
        lemma_prove_keys_prunes::<H>(part, whole, stored, earlier, height, all);
        lemma_prove_keys_root::<H>(part, stored, earlier, height);
        let before = prove_keys::<H>(Some(part), stored, earlier, height).0->0;
        if keys.last().len() == height {
            lemma_load_way_prunes::<H>(before, whole, stored, all, keys.last(), 0);
        }
    }
}

/// A tree of which only a part is loaded proves any number of keys, if they have its height and
/// the storage has the nodes on the way to each of them that the part misses. What is loaded then
/// is a part of the whole tree, and the proof tells of each key the value in the whole tree.
///
/// This is so unless two different nodes have the same hash.
pub proof fn law_part_of_tree_proves<H: StarkHash>(
    part: Trie,
    whole: Trie,
    stored: Map<Felt, NodeView>,
    keys: Seq<Seq<bool>>,
    height: u8,
    multi_proof: MultiProof,
)
    requires
        prunes::<H>(part, whole),
        complete(whole, height as nat),
        part.fits(height as nat),
        forall|i: int|
            0 <= i < keys.len() ==> (#[trigger] keys[i]).len() == height && holds_way::<H>(
                stored,
                missing::<H>(part, whole, keys[i], 0),
            ),
        collision_free::<H>(nodes_of::<H>(whole).union(stored.values())),
        multi_proof@ == prove_keys::<H>(Some(part), stored, keys, height as nat).1,
    ensures
        ({
            let (root, filed, error) = prove_keys::<H>(Some(part), stored, keys, height as nat);
            &&& error is None
            &&& root is Some && prunes::<H>(root->0, whole) && root->0.fits(height as nat)
            &&& forall|i: int|
                0 <= i < keys.len() ==> whole.lookup(#[trigger] keys[i]) is Some
                    && multi_proof.finding::<H>(whole.hash::<H>(), keys[i], height) == Ok::<
                    Felt,
                    VerificationErrorView,
                >(whole.lookup(keys[i])->0)
        }),
{
    let n = height as nat;
    let all = nodes_of::<H>(whole).union(stored.values());
    lemma_within_values(stored, nodes_of::<H>(whole));
    assert forall|i: int| 0 <= i < keys.len() implies provable::<H>(
        part,
        stored,
        #[trigger] keys[i],
        n,
    ) by {
        lemma_load_way_prunes::<H>(part, whole, stored, all, keys[i], 0);
    }
    law_keys_are_proved::<H>(part, stored, keys, n);
    lemma_prove_keys_root::<H>(part, stored, keys, n);
    lemma_prove_keys_prunes::<H>(part, whole, stored, keys, n, all);
    lemma_prunes_hash::<H>(part, whole);
    let root = prove_keys::<H>(Some(part), stored, keys, n).0->0;
    lemma_prunes_nodes::<H>(root, whole);
    lemma_collision_free_part::<H>(nodes_of::<H>(root), all);
    assert forall|i: int| 0 <= i < keys.len() implies whole.lookup(#[trigger] keys[i]) is Some
        && multi_proof.finding::<H>(whole.hash::<H>(), keys[i], height) == Ok::<
        Felt,
        VerificationErrorView,
    >(whole.lookup(keys[i])->0) by {
        law_multi_proof_tells::<H>(part, stored, keys, height, multi_proof, i);
        lemma_complete(whole, n, keys[i]);
        lemma_prunes_lookup::<H>(root, whole, keys[i]);
    }
}

/// What is missing of a tree are nodes of the tree.
pub proof fn lemma_missing_nodes<H: StarkHash>(
    part: Trie,
    whole: Trie,
    key: Seq<bool>,
    depth: nat,
    i: int,
)
    requires
        prunes::<H>(part, whole),
        0 <= i < missing::<H>(part, whole, key, depth).len(),
    ensures
        nodes_of::<H>(whole).contains(missing::<H>(part, whole, key, depth)[i].1),
    decreases part,
{
    match part {
        Trie::Digest(_) => {
            lemma_way_nodes::<H>(whole, key, depth, i);
        },
        Trie::Binary { .. } => {
            let bit = key[depth as int];
            lemma_missing_nodes::<H>(part.side(bit), whole.side(bit), key, depth + 1, i);
        },
        Trie::Edge { path, child } => {
            if path.is_prefix_of(key.skip(depth as int)) {
                lemma_missing_nodes::<H>(*child, *whole->child, key, depth + path.len(), i);
            }
        },
    }
}

/// A tree whose nodes are all in the storage proves any number of keys of its height, whatever part
/// of it is loaded, none of it included. The proof tells of each key the value in the whole tree.
///
/// This is so unless two different nodes have the same hash.
pub proof fn law_stored_tree_proves<H: StarkHash>(
    part: Trie,
    whole: Trie,
    stored: Map<Felt, NodeView>,
    keys: Seq<Seq<bool>>,
    height: u8,
    multi_proof: MultiProof,
)
    requires
        prunes::<H>(part, whole),
        complete(whole, height as nat),
        part.fits(height as nat),
        forall|i: int| 0 <= i < keys.len() ==> (#[trigger] keys[i]).len() == height,
        holds_nodes::<H>(stored, nodes_of::<H>(whole)),
        collision_free::<H>(nodes_of::<H>(whole).union(stored.values())),
        multi_proof@ == prove_keys::<H>(Some(part), stored, keys, height as nat).1,
    ensures
        ({
            let (root, filed, error) = prove_keys::<H>(Some(part), stored, keys, height as nat);
            &&& error is None
            &&& root is Some && prunes::<H>(root->0, whole) && root->0.fits(height as nat)
            &&& forall|i: int|
                0 <= i < keys.len() ==> whole.lookup(#[trigger] keys[i]) is Some
                    && multi_proof.finding::<H>(whole.hash::<H>(), keys[i], height) == Ok::<
                    Felt,
                    VerificationErrorView,
                >(whole.lookup(keys[i])->0)
        }),
{
    assert forall|i: int| 0 <= i < keys.len() implies (#[trigger] keys[i]).len() == height
        && holds_way::<H>(stored, missing::<H>(part, whole, keys[i], 0)) by {
        let way = missing::<H>(part, whole, keys[i], 0);
        assert forall|j: int| 0 <= j < way.len() implies stored.contains_pair(
            node_hash::<H>((#[trigger] way[j]).1),
            way[j].1,
        ) by {
            lemma_missing_nodes::<H>(part, whole, keys[i], 0, j);
        }
    }
    law_part_of_tree_proves::<H>(part, whole, stored, keys, height, multi_proof);
}

} // verus!
