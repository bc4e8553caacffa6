//! The keys of a proof, in whatever order they come.

use crate::felt::{Felt, StarkHash};
use crate::laws::forking::root_nodes;
use crate::laws::loading::{lemma_load_top, lemma_load_way_fits};
use crate::laws::nodes::{collision_free, lemma_way_nodes, nodes_of};
use crate::laws::proving::lemma_prove_keys;
use crate::trie::loading::{lemma_load_way_hash, lemma_load_way_idle, load_top, load_way};
use crate::trie::merkle_node::{node_hash, NodeView};
use crate::trie::model::{file_order, file_way, Trie};
use crate::trie::tree::{proof_order, prove_keys};
use vstd::prelude::*;

verus! {

/// The way to a key that loading it shows.
pub open spec fn loaded_way<H: StarkHash>(
    trie: Trie,
    stored: Map<Felt, NodeView>,
    key: Seq<bool>,
) -> Seq<(Seq<bool>, NodeView)> {
    load_way::<H>(trie, stored, key, 0).0.way::<H>(key, 0)
}

/// Two tries show the same ways: one is the other with more of its nodes loaded.
spec fn same_ways<H: StarkHash>(a: Trie, b: Trie, stored: Map<Felt, NodeView>, n: nat) -> bool {
    forall|key: Seq<bool>|
        key.len() == n ==> {
            &&& (#[trigger] load_way::<H>(b, stored, key, 0)).1 is None <==> load_way::<H>(
                a,
                stored,
                key,
                0,
            ).1 is None
            &&& load_way::<H>(a, stored, key, 0).1 is None ==> loaded_way::<H>(b, stored, key)
                == loaded_way::<H>(a, stored, key)
        }
}

/// Loading one way does not change what loading another shows.
pub proof fn lemma_load_twice<H: StarkHash>(
    trie: Trie,
    stored: Map<Felt, NodeView>,
    first: Seq<bool>,
    second: Seq<bool>,
    depth: nat,
)
    requires
        depth <= second.len(),
        first.len() == second.len(),
        trie.fits((second.len() - depth) as nat),
    ensures
        ({
            let once = load_way::<H>(trie, stored, second, depth);
            let before = load_way::<H>(trie, stored, first, depth).0;
            let twice = load_way::<H>(before, stored, second, depth);
            &&& twice.1 == once.1
            &&& once.1 is None ==> twice.0.way::<H>(second, depth) == once.0.way::<H>(
                second,
                depth,
            )
        }),
    decreases second.len() - depth,
{
    if depth < second.len() {
        let before = load_way::<H>(trie, stored, first, depth).0;
        lemma_load_top::<H>(trie, stored, first, depth);
        lemma_load_top::<H>(trie, stored, second, depth);
        match load_top::<H>(trie, stored, first, depth) {
            Err(_) => {},
            Ok(Trie::Digest(_)) => {},
            Ok(loaded) => {
                assert(load_top::<H>(trie, stored, second, depth) == load_top::<H>(
                    trie,
                    stored,
                    first,
                    depth,
                ));
                match loaded {
                    Trie::Digest(_) => {},
                    Trie::Binary { .. } => {
                        let near = loaded.side(first[depth as int]);
                        lemma_load_way_hash::<H>(near, stored, first, depth + 1);
                        let side = loaded.side(second[depth as int]);
                        lemma_load_way_hash::<H>(side, stored, second, depth + 1);
                        lemma_load_way_hash::<H>(
                            before.side(second[depth as int]),
                            stored,
                            second,
                            depth + 1,
                        );
                        if first[depth as int] == second[depth as int] {
                            lemma_load_twice::<H>(near, stored, first, second, depth + 1);
                        }
                    },
                    Trie::Edge { path, child } => {
                        let below = depth + path.len();
                        if path.is_prefix_of(first.skip(depth as int)) {
                            lemma_load_way_hash::<H>(*child, stored, first, below);
                            if path.is_prefix_of(second.skip(depth as int)) {
                                lemma_load_way_hash::<H>(*child, stored, second, below);
                                lemma_load_way_hash::<H>(*before->child, stored, second, below);
                                lemma_load_twice::<H>(*child, stored, first, second, below);
                            }
                        }
                    },
                }
            },
        }
    }
}

/// What is filed comes from what was there or from the way, and nothing gets lost.
proof fn lemma_file_way_entries<H: StarkHash>(
    way: Seq<(Seq<bool>, NodeView)>,
    nodes: Map<Felt, NodeView>,
)
    ensures
        ({
            let filed = file_way::<H>(way, nodes);
            &&& forall|hash: Felt| #[trigger]
                filed.contains_key(hash) ==> (nodes.contains_key(hash) && nodes[hash]
                    == filed[hash]) || (node_hash::<H>(filed[hash]) == hash && exists|j: int|
                    0 <= j < way.len() && (#[trigger] way[j]).1 == filed[hash])
            &&& forall|hash: Felt| #[trigger]
                nodes.contains_key(hash) ==> filed.contains_key(hash)
            &&& forall|j: int|
                0 <= j < way.len() ==> filed.contains_key(node_hash::<H>((#[trigger] way[j]).1))
        }),
    decreases way.len(),
{
    if way.len() > 0 {
        let upper = way.drop_last();
        lemma_file_way_entries::<H>(upper, nodes);
        let before = file_way::<H>(upper, nodes);
        let filed = file_way::<H>(way, nodes);
        let last = way.len() - 1;
        assert forall|hash: Felt| #[trigger] filed.contains_key(hash) implies (nodes.contains_key(
            hash,
        ) && nodes[hash] == filed[hash]) || (node_hash::<H>(filed[hash]) == hash && exists|j: int|
            0 <= j < way.len() && (#[trigger] way[j]).1 == filed[hash]) by {
            if hash == node_hash::<H>(way[last].1) {
                assert(way[last].1 == filed[hash]);
            } else {
                assert(before.contains_key(hash));
                if !(nodes.contains_key(hash) && nodes[hash] == filed[hash]) {
                    let j = choose|j: int|
                        0 <= j < upper.len() && (#[trigger] upper[j]).1 == before[hash];
                    assert(way[j].1 == filed[hash]);
                }
            }
        }
        assert forall|j: int| 0 <= j < way.len() implies filed.contains_key(
            node_hash::<H>((#[trigger] way[j]).1),
        ) by {
            if j < last {
                assert(upper[j] == way[j]);
                assert(before.contains_key(node_hash::<H>(upper[j].1)));
            }
        }
    }
}

/// The node is on the way to one of the keys.
spec fn on_some_way<H: StarkHash>(
    trie: Trie,
    stored: Map<Felt, NodeView>,
    keys: Seq<Seq<bool>>,
    node: NodeView,
) -> bool {
    exists|i: int, j: int|
        0 <= i < keys.len() && 0 <= j < loaded_way::<H>(trie, stored, keys[i]).len() && (
        #[trigger] loaded_way::<H>(trie, stored, keys[i])[j]).1 == node
}

/// What a proof of some keys has: the nodes on the ways to the keys.
proof fn lemma_proof_entries<H: StarkHash>(
    trie: Trie,
    stored: Map<Felt, NodeView>,
    keys: Seq<Seq<bool>>,
    height: nat,
)
    requires
        trie.fits(height),
        prove_keys::<H>(Some(trie), stored, keys, height).2 is None,
    ensures
        ({
            let (root, filed, error) = prove_keys::<H>(Some(trie), stored, keys, height);
            &&& root matches Some(root) && root.fits(height) && same_ways::<H>(
                trie,
                root,
                stored,
                height,
            )
            &&& forall|i: int|
                0 <= i < keys.len() ==> (#[trigger] keys[i]).len() == height && load_way::<H>(
                    trie,
                    stored,
                    keys[i],
                    0,
                ).1 is None
            &&& forall|hash: Felt| #[trigger]
                filed.contains_key(hash) ==> node_hash::<H>(filed[hash]) == hash && on_some_way::<
                    H,
                >(trie, stored, keys, filed[hash])
            &&& forall|i: int, j: int|
                0 <= i < keys.len() && 0 <= j < loaded_way::<H>(trie, stored, keys[i]).len()
                    ==> filed.contains_key(
                    node_hash::<H>((#[trigger] loaded_way::<H>(trie, stored, keys[i])[j]).1),
                )
        }),
    decreases keys.len(),
{
    if keys.len() > 0 {
        let earlier = keys.drop_last();
        let key = keys.last();
        let last = keys.len() - 1;
        assert(key == keys[last]);
        lemma_proof_entries::<H>(trie, stored, earlier, height);
        let (root, filed, _) = prove_keys::<H>(Some(trie), stored, earlier, height);
        let root = root->0;
        let loaded = load_way::<H>(root, stored, key, 0).0;
        let way = loaded.way::<H>(key, 0);
        let after = file_way::<H>(way, filed);
        lemma_load_way_fits::<H>(root, stored, key, 0);
        assert(load_way::<H>(root, stored, key, 0).1 is None);
        assert(way == loaded_way::<H>(trie, stored, key));
        assert forall|other: Seq<bool>| other.len() == height implies {
            &&& (#[trigger] load_way::<H>(loaded, stored, other, 0)).1 is None <==> load_way::<H>(
                trie,
                stored,
                other,
                0,
            ).1 is None
            &&& load_way::<H>(trie, stored, other, 0).1 is None ==> loaded_way::<H>(
                loaded,
                stored,
                other,
            ) == loaded_way::<H>(trie, stored, other)
        } by {
            lemma_load_twice::<H>(root, stored, key, other, 0);
            assert(load_way::<H>(root, stored, other, 0).1 is None <==> load_way::<H>(
                trie,
                stored,
                other,
                0,
            ).1 is None);
        }
        lemma_file_way_entries::<H>(way, filed);
        assert forall|i: int| 0 <= i < keys.len() implies (#[trigger] keys[i]).len() == height
            && load_way::<H>(trie, stored, keys[i], 0).1 is None by {
            if i < last {
                assert(earlier[i] == keys[i]);
            }
        }
        assert forall|hash: Felt| #[trigger] after.contains_key(hash) implies node_hash::<H>(
            after[hash],
        ) == hash && on_some_way::<H>(trie, stored, keys, after[hash]) by {
            if filed.contains_key(hash) && filed[hash] == after[hash] {
                let (i, j) = choose|i: int, j: int|
                    0 <= i < earlier.len() && 0 <= j < loaded_way::<H>(
                        trie,
                        stored,
                        earlier[i],
                    ).len() && (#[trigger] loaded_way::<H>(trie, stored, earlier[i])[j]).1
                        == after[hash];
                assert(earlier[i] == keys[i]);
                assert(loaded_way::<H>(trie, stored, keys[i])[j].1 == after[hash]);
            } else {
                let j = choose|j: int|
                    0 <= j < way.len() && (#[trigger] way[j]).1 == after[hash];
                assert(loaded_way::<H>(trie, stored, keys[last])[j].1 == after[hash]);
            }
        }
        assert forall|i: int, j: int|
            0 <= i < keys.len() && 0 <= j < loaded_way::<H>(
                trie,
                stored,
                keys[i],
            ).len() implies after.contains_key(
            node_hash::<H>((#[trigger] loaded_way::<H>(trie, stored, keys[i])[j]).1),
        ) by {
            if i < last {
                assert(earlier[i] == keys[i]);
                assert(filed.contains_key(
                    node_hash::<H>(loaded_way::<H>(trie, stored, earlier[i])[j].1),
                ));
            } else {
                assert(way[j] == loaded_way::<H>(trie, stored, keys[i])[j]);
            }
        }
    } else {
        assert(same_ways::<H>(trie, trie, stored, height));
    }
}

/// The nodes on the ways to proved keys are nodes of the tree.
proof fn lemma_on_some_way<H: StarkHash>(
    trie: Trie,
    stored: Map<Felt, NodeView>,
    keys: Seq<Seq<bool>>,
    height: nat,
    node: NodeView,
)
    requires
        trie.fits(height),
        prove_keys::<H>(Some(trie), stored, keys, height).2 is None,
        collision_free::<H>(
            nodes_of::<H>(prove_keys::<H>(Some(trie), stored, keys, height).0->0),
        ),
        on_some_way::<H>(trie, stored, keys, node),
    ensures
        nodes_of::<H>(prove_keys::<H>(Some(trie), stored, keys, height).0->0).contains(node),
{
    let root = prove_keys::<H>(Some(trie), stored, keys, height).0->0;
    lemma_proof_entries::<H>(trie, stored, keys, height);
    lemma_prove_keys::<H>(trie, stored, keys, height, nodes_of::<H>(root));
    let (i, j) = choose|i: int, j: int|
        0 <= i < keys.len() && 0 <= j < loaded_way::<H>(trie, stored, keys[i]).len() && (
        #[trigger] loaded_way::<H>(trie, stored, keys[i])[j]).1 == node;
    let key = keys[i];
    assert(key.skip(0) =~= key);
    lemma_load_way_idle::<H>(root, stored, key, 0);
    assert(load_way::<H>(root, stored, key, 0).1 is None);
    assert(root.way::<H>(key, 0) == loaded_way::<H>(trie, stored, key));
    lemma_way_nodes::<H>(root, key, 0, j);
}

/// The nodes of a proof depend on the set of the keys alone: neither their order nor how often one
/// comes makes a difference. This is so unless two different nodes of the tree have the same hash.
pub proof fn law_order_of_keys_is_free<H: StarkHash>(
    root: Option<Trie>,
    stored: Map<Felt, NodeView>,
    keys: Seq<Seq<bool>>,
    others: Seq<Seq<bool>>,
    height: nat,
)
    requires
        root matches Some(trie) ==> trie.fits(height),
        forall|key: Seq<bool>| #[trigger] keys.contains(key) <==> others.contains(key),
        prove_keys::<H>(root, stored, keys, height).2 is None,
        prove_keys::<H>(root, stored, others, height).2 is None,
        collision_free::<H>(root_nodes::<H>(prove_keys::<H>(root, stored, keys, height).0)),
    ensures
        prove_keys::<H>(root, stored, keys, height).1 == prove_keys::<H>(
            root,
            stored,
            others,
            height,
        ).1,
{
    match root {
        None => {
            lemma_prove_nothing::<H>(stored, keys, height);
            lemma_prove_nothing::<H>(stored, others, height);
        },
        Some(trie) => {
            lemma_proof_entries::<H>(trie, stored, keys, height);
            lemma_proof_entries::<H>(trie, stored, others, height);
            let a = prove_keys::<H>(root, stored, keys, height).1;
            let b = prove_keys::<H>(root, stored, others, height).1;
            assert forall|hash: Felt| #[trigger] a.contains_key(hash) implies b.contains_key(hash)
                && a[hash] == b[hash] by {
                lemma_entry_carries::<H>(trie, stored, keys, others, height, hash);
                lemma_same_entry::<H>(trie, stored, keys, others, height, hash);
            }
            assert forall|hash: Felt| #[trigger] b.contains_key(hash) implies a.contains_key(
                hash,
            ) by {
                lemma_entry_carries::<H>(trie, stored, others, keys, height, hash);
            }
            assert(a =~= b);
        },
    }
}

/// What is on a way to one of some keys is so for other keys that have all of them.
proof fn lemma_way_carries<H: StarkHash>(
    trie: Trie,
    stored: Map<Felt, NodeView>,
    keys: Seq<Seq<bool>>,
    others: Seq<Seq<bool>>,
    node: NodeView,
) -> (at: (int, int))
    requires
        forall|key: Seq<bool>| #[trigger] keys.contains(key) ==> others.contains(key),
        on_some_way::<H>(trie, stored, keys, node),
    ensures
        0 <= at.0 < others.len(),
        0 <= at.1 < loaded_way::<H>(trie, stored, others[at.0]).len(),
        loaded_way::<H>(trie, stored, others[at.0])[at.1].1 == node,
        on_some_way::<H>(trie, stored, others, node),
{
    let (i, j) = choose|i: int, j: int|
        0 <= i < keys.len() && 0 <= j < loaded_way::<H>(trie, stored, keys[i]).len() && (
        #[trigger] loaded_way::<H>(trie, stored, keys[i])[j]).1 == node;
    assert(keys.contains(keys[i]));
    let k = choose|k: int| 0 <= k < others.len() && others[k] == keys[i];
    assert(loaded_way::<H>(trie, stored, others[k])[j].1 == node);
    (k, j)
}

/// A hash in the proof of some keys is in the proof of other keys that have all of them.
proof fn lemma_entry_carries<H: StarkHash>(
    trie: Trie,
    stored: Map<Felt, NodeView>,
    keys: Seq<Seq<bool>>,
    others: Seq<Seq<bool>>,
    height: nat,
    hash: Felt,
)
    requires
        trie.fits(height),
        forall|key: Seq<bool>| #[trigger] keys.contains(key) ==> others.contains(key),
        prove_keys::<H>(Some(trie), stored, keys, height).2 is None,
        prove_keys::<H>(Some(trie), stored, others, height).2 is None,
        prove_keys::<H>(Some(trie), stored, keys, height).1.contains_key(hash),
    ensures
        prove_keys::<H>(Some(trie), stored, others, height).1.contains_key(hash),
{
    lemma_proof_entries::<H>(trie, stored, keys, height);
    lemma_proof_entries::<H>(trie, stored, others, height);
    let node = prove_keys::<H>(Some(trie), stored, keys, height).1[hash];
    let (k, j) = lemma_way_carries::<H>(trie, stored, keys, others, node);
    assert(node_hash::<H>(loaded_way::<H>(trie, stored, others[k])[j].1) == hash);
}

/// Under a hash that is in the proofs of some keys and of some of these, the same node stands.
proof fn lemma_same_entry<H: StarkHash>(
    trie: Trie,
    stored: Map<Felt, NodeView>,
    keys: Seq<Seq<bool>>,
    some: Seq<Seq<bool>>,
    height: nat,
    hash: Felt,
)
    requires
        trie.fits(height),
        forall|key: Seq<bool>| #[trigger] some.contains(key) ==> keys.contains(key),
        prove_keys::<H>(Some(trie), stored, keys, height).2 is None,
        prove_keys::<H>(Some(trie), stored, some, height).2 is None,
        collision_free::<H>(
            nodes_of::<H>(prove_keys::<H>(Some(trie), stored, keys, height).0->0),
        ),
        prove_keys::<H>(Some(trie), stored, keys, height).1.contains_key(hash),
        prove_keys::<H>(Some(trie), stored, some, height).1.contains_key(hash),
    ensures
        prove_keys::<H>(Some(trie), stored, keys, height).1[hash] == prove_keys::<H>(
            Some(trie),
            stored,
            some,
            height,
        ).1[hash],
{
    let (root, filed, _) = prove_keys::<H>(Some(trie), stored, keys, height);
    let a = filed[hash];
    let b = prove_keys::<H>(Some(trie), stored, some, height).1[hash];
    lemma_proof_entries::<H>(trie, stored, keys, height);
    lemma_proof_entries::<H>(trie, stored, some, height);
    lemma_way_carries::<H>(trie, stored, some, keys, b);
    lemma_on_some_way::<H>(trie, stored, keys, height, a);
    lemma_on_some_way::<H>(trie, stored, keys, height, b);
    assert(nodes_of::<H>(root->0).contains(a) && nodes_of::<H>(root->0).contains(b));
}

/// A tree without entries has proofs without nodes.
proof fn lemma_prove_nothing<H: StarkHash>(
    stored: Map<Felt, NodeView>,
    keys: Seq<Seq<bool>>,
    height: nat,
)
    ensures
        prove_keys::<H>(None, stored, keys, height).0 is None,
        prove_keys::<H>(None, stored, keys, height).1 == Map::<Felt, NodeView>::empty(),
    decreases keys.len(),
{
    if keys.len() > 0 {
        lemma_prove_nothing::<H>(stored, keys.drop_last(), height);
    }
}

/// The nodes of a proof are those of the proofs of the single keys, taken together. This is so
/// unless two different nodes of the tree have the same hash.
pub proof fn law_proof_is_union<H: StarkHash>(
    trie: Trie,
    stored: Map<Felt, NodeView>,
    keys: Seq<Seq<bool>>,
    height: nat,
    hash: Felt,
    node: NodeView,
)
    requires
        trie.fits(height),
        prove_keys::<H>(Some(trie), stored, keys, height).2 is None,
        collision_free::<H>(
            nodes_of::<H>(prove_keys::<H>(Some(trie), stored, keys, height).0->0),
        ),
    ensures
        prove_keys::<H>(Some(trie), stored, keys, height).1.contains_pair(hash, node) <==> exists|
            i: int,
        |
            0 <= i < keys.len() && prove_keys::<H>(
                Some(trie),
                stored,
                seq![#[trigger] keys[i]],
                height,
            ).1.contains_pair(hash, node),
{
    let filed = prove_keys::<H>(Some(trie), stored, keys, height).1;
    lemma_proof_entries::<H>(trie, stored, keys, height);
    if filed.contains_pair(hash, node) {
        let (i, j) = choose|i: int, j: int|
            0 <= i < keys.len() && 0 <= j < loaded_way::<H>(trie, stored, keys[i]).len() && (
            #[trigger] loaded_way::<H>(trie, stored, keys[i])[j]).1 == node;
        let one = seq![keys[i]];
        lemma_single::<H>(trie, stored, keys, height, i);
        lemma_proof_entries::<H>(trie, stored, one, height);
        assert(one[0] == keys[i]);
        assert(node_hash::<H>(loaded_way::<H>(trie, stored, one[0])[j].1) == hash);
        lemma_same_entry::<H>(trie, stored, keys, one, height, hash);
    }
    if exists|i: int|
        0 <= i < keys.len() && prove_keys::<H>(
            Some(trie),
            stored,
            seq![#[trigger] keys[i]],
            height,
        ).1.contains_pair(hash, node) {
        let i = choose|i: int|
            0 <= i < keys.len() && prove_keys::<H>(
                Some(trie),
                stored,
                seq![#[trigger] keys[i]],
                height,
            ).1.contains_pair(hash, node);
        let one = seq![keys[i]];
        lemma_single::<H>(trie, stored, keys, height, i);
        lemma_entry_carries::<H>(trie, stored, one, keys, height, hash);
        lemma_same_entry::<H>(trie, stored, keys, one, height, hash);
    }
}

/// Each of some keys that can be proved can be proved alone.
proof fn lemma_single<H: StarkHash>(
    trie: Trie,
    stored: Map<Felt, NodeView>,
    keys: Seq<Seq<bool>>,
    height: nat,
    i: int,
)
    requires
        trie.fits(height),
        0 <= i < keys.len(),
        prove_keys::<H>(Some(trie), stored, keys, height).2 is None,
    ensures
        prove_keys::<H>(Some(trie), stored, seq![keys[i]], height).2 is None,
        forall|key: Seq<bool>| #[trigger] seq![keys[i]].contains(key) ==> keys.contains(key),
{
    let one = seq![keys[i]];
    lemma_proof_entries::<H>(trie, stored, keys, height);
    assert(one.drop_last() =~= Seq::<Seq<bool>>::empty());
    assert(keys[i].len() == height);
    reveal_with_fuel(prove_keys, 2);
}

/// A proof has the nodes on the ways to its keys, each under its own hash, and nothing else.
pub proof fn law_proof_has_the_ways<H: StarkHash>(
    trie: Trie,
    stored: Map<Felt, NodeView>,
    keys: Seq<Seq<bool>>,
    height: nat,
    hash: Felt,
    i: int,
    j: int,
)
    requires
        trie.fits(height),
        prove_keys::<H>(Some(trie), stored, keys, height).2 is None,
    ensures
        ({
            let filed = prove_keys::<H>(Some(trie), stored, keys, height).1;
            &&& filed.contains_key(hash) ==> node_hash::<H>(filed[hash]) == hash && exists|
                k: int,
                l: int,
            |
                0 <= k < keys.len() && 0 <= l < loaded_way::<H>(trie, stored, keys[k]).len() && (
                #[trigger] loaded_way::<H>(trie, stored, keys[k])[l]).1 == filed[hash]
            &&& 0 <= i < keys.len() && 0 <= j < loaded_way::<H>(trie, stored, keys[i]).len()
                ==> filed.contains_key(
                node_hash::<H>(loaded_way::<H>(trie, stored, keys[i])[j].1),
            )
        }),
{
    lemma_proof_entries::<H>(trie, stored, keys, height);
}

/// The order tells each hash of some nodes once.
pub open spec fn orders(order: Seq<Felt>, nodes: Map<Felt, NodeView>) -> bool {
    &&& order.no_duplicates()
    &&& forall|hash: Felt| #[trigger] order.contains(hash) <==> nodes.contains_key(hash)
}

/// The hashes that come after `before`, up to `after`, are those of nodes of the way at increasing
/// places.
pub open spec fn goes_down<H: StarkHash>(
    before: Seq<Felt>,
    after: Seq<Felt>,
    way: Seq<(Seq<bool>, NodeView)>,
    places: Seq<int>,
) -> bool {
    &&& before.is_prefix_of(after)
    &&& after.len() == before.len() + places.len()
    &&& forall|a: int|
        0 <= a < places.len() ==> 0 <= #[trigger] places[a] < way.len() && after[before.len() + a]
            == node_hash::<H>(way[places[a]].1)
    &&& forall|a: int, b: int| 0 <= a < b < places.len() ==> places[a] < places[b]
}

/// Filing a way adds its hashes from the top down.
proof fn lemma_file_order_goes_down<H: StarkHash>(
    way: Seq<(Seq<bool>, NodeView)>,
    nodes: Map<Felt, NodeView>,
    order: Seq<Felt>,
) -> (places: Seq<int>)
    requires
        orders(order, nodes),
    ensures
        orders(file_order::<H>(way, nodes, order), file_way::<H>(way, nodes)),
        goes_down::<H>(order, file_order::<H>(way, nodes, order), way, places),
    decreases way.len(),
{
    if way.len() == 0 {
        assert(order =~= order.take(order.len() as int));
        Seq::empty()
    } else {
        let upper = way.drop_last();
        let places = lemma_file_order_goes_down::<H>(upper, nodes, order);
        let before = file_order::<H>(upper, nodes, order);
        let filed = file_way::<H>(upper, nodes);
        let hash = node_hash::<H>(way.last().1);
        let after = file_order::<H>(way, nodes, order);
        assert forall|a: int| 0 <= a < places.len() implies upper[#[trigger] places[a]]
            == way[places[a]] by {}
        if filed.contains_key(hash) {
            places
        } else {
            let more = places.push(way.len() - 1);
            assert(!before.contains(hash));
            assert(order =~= after.take(order.len() as int)) by {
                assert(order =~= before.take(order.len() as int));
            }
            assert forall|other: Felt| #[trigger]
                after.contains(other) <==> file_way::<H>(way, nodes).contains_key(other) by {
                if before.contains(other) {
                    let k = choose|k: int| 0 <= k < before.len() && before[k] == other;
                    assert(after[k] == other);
                }
                assert(after[before.len() as int] == hash);
                if after.contains(other) && other != hash {
                    let k = choose|k: int| 0 <= k < after.len() && after[k] == other;
                    assert(before[k] == other);
                }
            }
            assert forall|a: int| 0 <= a < more.len() implies 0 <= #[trigger] more[a] < way.len()
                && after[order.len() + a] == node_hash::<H>(way[more[a]].1) by {
                if a < places.len() {
                    assert(more[a] == places[a]);
                }
            }
            more
        }
    }
}

/// The order of the nodes of a proof tells each hash once.
proof fn lemma_proof_order<H: StarkHash>(
    trie: Trie,
    stored: Map<Felt, NodeView>,
    keys: Seq<Seq<bool>>,
    height: nat,
)
    requires
        trie.fits(height),
        prove_keys::<H>(Some(trie), stored, keys, height).2 is None,
    ensures
        orders(
            proof_order::<H>(Some(trie), stored, keys, height),
            prove_keys::<H>(Some(trie), stored, keys, height).1,
        ),
    decreases keys.len(),
{
    if keys.len() > 0 {
        let earlier = keys.drop_last();
        lemma_proof_order::<H>(trie, stored, earlier, height);
        lemma_proof_entries::<H>(trie, stored, earlier, height);
        let (root, filed, _) = prove_keys::<H>(Some(trie), stored, earlier, height);
        let order = proof_order::<H>(Some(trie), stored, earlier, height);
        let way = load_way::<H>(root->0, stored, keys.last(), 0).0.way::<H>(keys.last(), 0);
        lemma_file_order_goes_down::<H>(way, filed, order);
    }
}

/// The nodes of a proof come key by key, and for each key from the top down. Each hash comes once,
/// with the first key that has its node on the way.
pub proof fn law_order_of_proof<H: StarkHash>(
    trie: Trie,
    stored: Map<Felt, NodeView>,
    keys: Seq<Seq<bool>>,
    key: Seq<bool>,
    height: nat,
) -> (places: Seq<int>)
    requires
        trie.fits(height),
        prove_keys::<H>(Some(trie), stored, keys.push(key), height).2 is None,
    ensures
        orders(
            proof_order::<H>(Some(trie), stored, keys.push(key), height),
            prove_keys::<H>(Some(trie), stored, keys.push(key), height).1,
        ),
        goes_down::<H>(
            proof_order::<H>(Some(trie), stored, keys, height),
            proof_order::<H>(Some(trie), stored, keys.push(key), height),
            loaded_way::<H>(trie, stored, key),
            places,
        ),
        proof_order::<H>(Some(trie), stored, Seq::empty(), height) == Seq::<Felt>::empty(),
{
    let all = keys.push(key);
    assert(all.drop_last() =~= keys);
    lemma_proof_order::<H>(trie, stored, all, height);
    lemma_proof_order::<H>(trie, stored, keys, height);
    lemma_proof_entries::<H>(trie, stored, keys, height);
    let (root, filed, _) = prove_keys::<H>(Some(trie), stored, keys, height);
    let order = proof_order::<H>(Some(trie), stored, keys, height);
    let loaded = load_way::<H>(root->0, stored, key, 0);
    assert(loaded.1 is None);
    assert(loaded.0.way::<H>(key, 0) == loaded_way::<H>(root->0, stored, key));
    assert(loaded_way::<H>(root->0, stored, key) == loaded_way::<H>(trie, stored, key));
    lemma_file_order_goes_down::<H>(loaded_way::<H>(trie, stored, key), filed, order)
}

} // verus!
