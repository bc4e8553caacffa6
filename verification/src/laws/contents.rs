//! A tree as a map from keys to values, and its root hash as a commitment to the map.

use crate::felt::{Felt, StarkHash};
use crate::laws::forking::{complete, lemma_complete};
use crate::laws::loading::{lemma_load_top, lemma_load_way_fits, lemma_load_way_keeps};
use crate::trie::merkle_node::NodeView;
use crate::trie::model::{
    lead, lemma_insert_fits, lemma_insert_lookup, lemma_lead_lookup, lemma_remove_lookup, Trie,
};
use crate::trie::partial_trie::PartialTrieErrorView;
use crate::trie::path::{common_len, lemma_common_len, lemma_prefix_common};
use crate::trie::loading::{
    lemma_load_beside, lemma_load_way_hash, lemma_load_way_idle, lemma_load_way_known, load_beside,
    load_way,
};
use crate::trie::tree::{root_digest, set_value};
use vstd::prelude::*;

verus! {

/// The value under a key, zero where there is no entry, or `None` where the way to it is not
/// known.
pub open spec fn root_lookup(root: Option<Trie>, key: Seq<bool>) -> Option<Felt> {
    match root {
        None => Some(Felt::of(0)),
        Some(trie) => trie.lookup(key),
    }
}

/// The whole of a trie of height `n` is known, no value is zero, and no edge follows an edge.
pub open spec fn canonical(trie: Trie, n: nat) -> bool
    decreases trie,
{
    match trie {
        Trie::Digest(value) => n == 0 && value != Felt::of(0),
        Trie::Binary { left, right } => n >= 1 && canonical(*left, (n - 1) as nat) && canonical(
            *right,
            (n - 1) as nat,
        ),
        Trie::Edge { path, child } => 1 <= path.len() <= n && !(*child is Edge) && canonical(
            *child,
            (n - path.len()) as nat,
        ),
    }
}

/// The trie of a tree of height `n`, if it has entries, is canonical.
pub open spec fn canonical_root(root: Option<Trie>, n: nat) -> bool {
    root matches Some(trie) ==> canonical(trie, n)
}

/// A canonical trie is known as a whole.
pub proof fn lemma_canonical_complete(trie: Trie, n: nat)
    requires
        canonical(trie, n),
    ensures
        complete(trie, n),
    decreases trie,
{
    match trie {
        Trie::Digest(_) => {},
        Trie::Binary { left, right } => {
            lemma_canonical_complete(*left, (n - 1) as nat);
            lemma_canonical_complete(*right, (n - 1) as nat);
        },
        Trie::Edge { path, child } => {
            lemma_canonical_complete(*child, (n - path.len()) as nat);
        },
    }
}

/// A canonical trie has its height, and every value is known.
pub proof fn lemma_canonical(trie: Trie, n: nat, key: Seq<bool>)
    requires
        canonical(trie, n),
        key.len() == n,
    ensures
        trie.fits(n),
        trie.lookup(key) is Some,
{
    lemma_canonical_complete(trie, n);
    lemma_complete(trie, n, key);
}

/// A key of the trie.
spec fn some_key(trie: Trie) -> Seq<bool>
    decreases trie,
{
    match trie {
        Trie::Digest(_) => Seq::empty(),
        Trie::Binary { left, right } => seq![false] + some_key(*left),
        Trie::Edge { path, child } => path + some_key(*child),
    }
}

/// A canonical trie has an entry.
proof fn lemma_some_key(trie: Trie, n: nat)
    requires
        canonical(trie, n),
    ensures
        some_key(trie).len() == n,
        trie.lookup(some_key(trie)) matches Some(value) && value != Felt::of(0),
    decreases trie,
{
    match trie {
        Trie::Digest(_) => {},
        Trie::Binary { left, right } => {
            lemma_some_key(*left, (n - 1) as nat);
            assert(some_key(trie).skip(1) =~= some_key(*left));
        },
        Trie::Edge { path, child } => {
            lemma_some_key(*child, (n - path.len()) as nat);
            assert(some_key(trie).skip(path.len() as int) =~= some_key(*child));
            assert(path =~= some_key(trie).take(path.len() as int));
        },
    }
}

/// The side of a binary node, as the node tells its values.
proof fn lemma_side_lookup(trie: Trie, bit: bool, key: Seq<bool>)
    requires
        trie is Binary,
    ensures
        trie.lookup(seq![bit] + key) == trie.side(bit).lookup(key),
{
    assert((seq![bit] + key).skip(1) =~= key);
}

/// The child of an edge, as the edge tells its values.
proof fn lemma_child_lookup(trie: Trie, key: Seq<bool>)
    requires
        trie is Edge,
    ensures
        trie.lookup(trie->path + key) == trie->child.lookup(key),
{
    let path = trie->path;
    assert((path + key).skip(path.len() as int) =~= key);
    assert(path =~= (path + key).take(path.len() as int));
}

/// A key under which an edge has a value other than zero follows the edge.
proof fn lemma_edge_key(trie: Trie, key: Seq<bool>)
    requires
        trie is Edge,
        trie.lookup(key) != Some(Felt::of(0)),
    ensures
        trie->path.is_prefix_of(key),
{
}

/// No edge tells the values of a binary node.
proof fn lemma_binary_is_no_edge(a: Trie, b: Trie, n: nat)
    requires
        canonical(a, n),
        canonical(b, n),
        a is Binary,
        b is Edge,
    ensures
        exists|key: Seq<bool>| key.len() == n && #[trigger] a.lookup(key) != b.lookup(key),
{
    let bit = !b->path[0];
    let side = a.side(bit);
    lemma_some_key(side, (n - 1) as nat);
    let key = seq![bit] + some_key(side);
    lemma_side_lookup(a, bit, some_key(side));
    if b.lookup(key) == a.lookup(key) {
        lemma_edge_key(b, key);
        assert(b->path[0] == key[0]);
    }
}

/// Of two edges that tell the same values, neither is longer.
proof fn lemma_edge_is_no_longer(a: Trie, b: Trie, n: nat)
    requires
        canonical(a, n),
        canonical(b, n),
        a is Edge,
        b is Edge,
        forall|key: Seq<bool>| key.len() == n ==> #[trigger] a.lookup(key) == b.lookup(key),
    ensures
        b->path.len() <= a->path.len(),
{
    let path = a->path;
    let child = *a->child;
    if path.len() < b->path.len() {
        reveal_with_fuel(canonical, 2);
        let bit = !b->path[path.len() as int];
        let side = child.side(bit);
        lemma_some_key(side, (n - path.len() - 1) as nat);
        let below = seq![bit] + some_key(side);
        let key = path + below;
        lemma_side_lookup(child, bit, some_key(side));
        lemma_child_lookup(a, below);
        assert(a.lookup(key) == b.lookup(key));
        lemma_edge_key(b, key);
        assert(b->path[path.len() as int] == key[path.len() as int]);
    }
}

/// A canonical trie is given by the values under its keys.
pub proof fn law_contents_determine_trie(a: Trie, b: Trie, n: nat)
    requires
        canonical(a, n),
        canonical(b, n),
        forall|key: Seq<bool>| key.len() == n ==> #[trigger] a.lookup(key) == b.lookup(key),
    ensures
        a == b,
    decreases a,
{
    match (a, b) {
        (Trie::Digest(_), _) => {
            assert(a.lookup(Seq::<bool>::empty()) == b.lookup(Seq::<bool>::empty()));
        },
        (_, Trie::Digest(_)) => {},
        (Trie::Binary { left, right }, Trie::Binary { left: b_left, right: b_right }) => {
            assert forall|key: Seq<bool>| key.len() == n - 1 implies #[trigger] left.lookup(key)
                == b_left.lookup(key) by {
                lemma_side_lookup(a, false, key);
                lemma_side_lookup(b, false, key);
                assert(a.lookup(seq![false] + key) == b.lookup(seq![false] + key));
            }
            assert forall|key: Seq<bool>| key.len() == n - 1 implies #[trigger] right.lookup(key)
                == b_right.lookup(key) by {
                lemma_side_lookup(a, true, key);
                lemma_side_lookup(b, true, key);
                assert(a.lookup(seq![true] + key) == b.lookup(seq![true] + key));
            }
            law_contents_determine_trie(*left, *b_left, (n - 1) as nat);
            law_contents_determine_trie(*right, *b_right, (n - 1) as nat);
        },
        (Trie::Binary { .. }, Trie::Edge { .. }) => {
            lemma_binary_is_no_edge(a, b, n);
        },
        (Trie::Edge { .. }, Trie::Binary { .. }) => {
            lemma_binary_is_no_edge(b, a, n);
            let key = choose|key: Seq<bool>|
                key.len() == n && #[trigger] b.lookup(key) != a.lookup(key);
            assert(a.lookup(key) == b.lookup(key));
        },
        (Trie::Edge { path, child }, Trie::Edge { path: b_path, child: b_child }) => {
            lemma_edge_is_no_longer(a, b, n);
            assert forall|key: Seq<bool>| key.len() == n implies #[trigger] b.lookup(key)
                == a.lookup(key) by {
                assert(a.lookup(key) == b.lookup(key));
            }
            lemma_edge_is_no_longer(b, a, n);
            lemma_some_key(a, n);
            let key = some_key(a);
            assert(a.lookup(key) == b.lookup(key));
            lemma_edge_key(a, key);
            lemma_edge_key(b, key);
            assert(path =~= key.take(path.len() as int));
            assert(b_path =~= key.take(path.len() as int));
            assert forall|key: Seq<bool>|
                key.len() == n - path.len() implies #[trigger] child.lookup(key)
                == b_child.lookup(key) by {
                lemma_child_lookup(a, key);
                lemma_child_lookup(b, key);
                assert(a.lookup(path + key) == b.lookup(path + key));
            }
            law_contents_determine_trie(*child, *b_child, (n - path.len()) as nat);
        },
    }
}

/// The root hash of a tree depends on its contents alone, not on how they came about.
pub proof fn law_contents_determine_root<H: StarkHash>(a: Option<Trie>, b: Option<Trie>, n: nat)
    requires
        canonical_root(a, n),
        canonical_root(b, n),
        forall|key: Seq<bool>|
            key.len() == n ==> #[trigger] root_lookup(a, key) == root_lookup(b, key),
    ensures
        a == b,
        root_digest::<H>(a) == root_digest::<H>(b),
{
    match (a, b) {
        (None, None) => {},
        (Some(trie), None) => {
            lemma_some_key(trie, n);
            assert(root_lookup(a, some_key(trie)) == root_lookup(b, some_key(trie)));
        },
        (None, Some(trie)) => {
            lemma_some_key(trie, n);
            assert(root_lookup(a, some_key(trie)) == root_lookup(b, some_key(trie)));
        },
        (Some(x), Some(y)) => {
            assert forall|key: Seq<bool>| key.len() == n implies #[trigger] x.lookup(key)
                == y.lookup(key) by {
                assert(root_lookup(a, key) == root_lookup(b, key));
            }
            law_contents_determine_trie(x, y, n);
        },
    }
}

/// An insertion keeps a trie canonical.
proof fn lemma_insert_canonical(trie: Trie, n: nat, key: Seq<bool>, value: Felt)
    requires
        canonical(trie, n),
        key.len() == n,
        value != Felt::of(0),
    ensures
        canonical(trie.insert(key, value), n),
        trie is Edge || !(trie.insert(key, value) is Edge),
    decreases trie,
{
    match trie {
        Trie::Digest(_) => {},
        Trie::Binary { left, right } => {
            lemma_insert_canonical(trie.side(key[0]), (n - 1) as nat, key.skip(1), value);
        },
        Trie::Edge { path, child } => {
            if path.is_prefix_of(key) {
                let below = key.skip(path.len() as int);
                lemma_insert_canonical(*child, (n - path.len()) as nat, below, value);
            } else {
                lemma_common_len(path, key);
                lemma_prefix_common(path, key);
                reveal_with_fuel(canonical, 3);
                let m = common_len(path, key) as int;
                let old_part = lead(path.skip(m + 1), *child);
                let new = lead(key.skip(m + 1), Trie::Digest(value));
                assert(canonical(old_part, (n - m - 1) as nat));
                assert(canonical(new, (n - m - 1) as nat));
            }
        },
    }
}

/// A removal keeps a trie canonical.
proof fn lemma_remove_canonical(trie: Trie, n: nat, key: Seq<bool>)
    requires
        canonical(trie, n),
        key.len() == n,
    ensures
        trie.remove(key) matches Some(left) ==> canonical(left, n),
    decreases trie,
{
    reveal_with_fuel(canonical, 2);
    match trie {
        Trie::Digest(_) => {},
        Trie::Binary { left, right } => {
            lemma_remove_canonical(trie.side(key[0]), (n - 1) as nat, key.skip(1));
        },
        Trie::Edge { path, child } => {
            if path.is_prefix_of(key) {
                let below = key.skip(path.len() as int);
                lemma_remove_canonical(*child, (n - path.len()) as nat, below);
            }
        },
    }
}

/// Where the whole of a trie is known, nothing is left to load beside a key.
pub proof fn lemma_load_beside_idle<H: StarkHash>(
    trie: Trie,
    nodes: Map<Felt, NodeView>,
    key: Seq<bool>,
    depth: nat,
)
    requires
        depth <= key.len(),
        complete(trie, (key.len() - depth) as nat),
    ensures
        load_beside::<H>(trie, nodes, key, depth) == (trie, None::<PartialTrieErrorView>),
    decreases trie,
{
    reveal_with_fuel(complete, 2);
    match trie {
        Trie::Digest(_) => {},
        Trie::Binary { left, right } => {
            lemma_load_beside_idle::<H>(*left, nodes, key, depth + 1);
            lemma_load_beside_idle::<H>(*right, nodes, key, depth + 1);
        },
        Trie::Edge { path, child } => {
            if path.is_prefix_of(key.skip(depth as int)) {
                lemma_load_beside_idle::<H>(*child, nodes, key, depth + path.len());
            }
        },
    }
}

/// A tree whose nodes are all in memory is a map: setting a value succeeds, puts the value under
/// the key, and leaves every other value as it was. The tree stays canonical.
pub proof fn law_set_is_map_update<H: StarkHash>(
    root: Option<Trie>,
    stored: Map<Felt, NodeView>,
    key: Seq<bool>,
    value: Felt,
    other: Seq<bool>,
)
    requires
        canonical_root(root, key.len()),
        other.len() == key.len(),
    ensures
        ({
            let (after, error) = set_value::<H>(root, stored, key, value);
            &&& error is None
            &&& canonical_root(after, key.len())
            &&& root_lookup(after, other) == if other == key {
                Some(value)
            } else {
                root_lookup(root, other)
            }
        }),
{
    let n = key.len();
    match root {
        None => {
            if value != Felt::of(0) {
                let leaf = Trie::Digest(value);
                lemma_lead_lookup(key, leaf, other);
                assert(key.is_prefix_of(other) <==> key == other) by {
                    assert(other.take(n as int) =~= other);
                }
                reveal_with_fuel(canonical, 2);
                assert(canonical(lead(key, leaf), n));
            }
        },
        Some(trie) => {
            lemma_canonical(trie, n, key);
            lemma_canonical(trie, n, other);
            assert(key.skip(0) =~= key);
            lemma_load_way_idle::<H>(trie, stored, key, 0);
            if value != Felt::of(0) {
                lemma_insert_canonical(trie, n, key, value);
                lemma_insert_lookup(trie, key, value, other);
            } else if trie.lookup(key) != Some(Felt::of(0)) {
                lemma_canonical_complete(trie, n);
                lemma_load_beside_idle::<H>(trie, stored, key, 0);
                lemma_remove_canonical(trie, n, key);
                lemma_remove_lookup(trie, key, other);
            }
        },
    }
}

/// Loading beside a key changes no value that is known.
proof fn lemma_load_beside_keeps<H: StarkHash>(
    trie: Trie,
    nodes: Map<Felt, NodeView>,
    key: Seq<bool>,
    depth: nat,
    other: Seq<bool>,
)
    requires
        depth <= key.len(),
        other.len() == key.len(),
        trie.fits((key.len() - depth) as nat),
    ensures
        load_beside::<H>(trie, nodes, key, depth).0.fits((key.len() - depth) as nat),
        trie.lookup(other.skip(depth as int)) is Some ==> load_beside::<H>(
            trie,
            nodes,
            key,
            depth,
        ).0.lookup(other.skip(depth as int)) == trie.lookup(other.skip(depth as int)),
    decreases trie,
{
    let rest = other.skip(depth as int);
    match trie {
        Trie::Digest(_) => {},
        Trie::Binary { left, right } => {
            let beside = key.update(depth as int, !key[depth as int]);
            assert(rest.skip(1) =~= other.skip(depth as int + 1));
            lemma_load_beside_keeps::<H>(*left, nodes, key, depth + 1, other);
            lemma_load_beside_keeps::<H>(*right, nodes, key, depth + 1, other);
            if depth + 1 < key.len() {
                lemma_load_top::<H>(*left, nodes, beside, depth + 1);
                lemma_load_top::<H>(*right, nodes, beside, depth + 1);
            }
        },
        Trie::Edge { path, child } => {
            if path.is_prefix_of(key.skip(depth as int)) {
                assert(rest.skip(path.len() as int) =~= other.skip((depth + path.len()) as int));
                lemma_load_beside_keeps::<H>(*child, nodes, key, depth + path.len(), other);
            }
        },
    }
}

/// Setting a value in a tree of which only a part is known: where it succeeds, the value is under
/// the key, and where it fails, the root hash stays. Either way every other value that is known
/// stays known as it was.
pub proof fn law_set_in_partial_tree<H: StarkHash>(
    root: Option<Trie>,
    stored: Map<Felt, NodeView>,
    key: Seq<bool>,
    value: Felt,
    other: Seq<bool>,
)
    requires
        root matches Some(trie) ==> trie.fits(key.len()),
        other.len() == key.len(),
        root_lookup(root, other) is Some,
    ensures
        ({
            let (after, error) = set_value::<H>(root, stored, key, value);
            &&& after matches Some(trie) ==> trie.fits(key.len())
            &&& error is None ==> root_lookup(after, key) == Some(value)
            &&& error is Some ==> root_digest::<H>(after) == root_digest::<H>(root)
            &&& error is Some || other != key ==> root_lookup(after, other) == root_lookup(
                root,
                other,
            )
        }),
{
    let n = key.len();
    match root {
        None => {
            if value != Felt::of(0) {
                let leaf = Trie::Digest(value);
                lemma_lead_lookup(key, leaf, other);
                lemma_lead_lookup(key, leaf, key);
                assert(key.is_prefix_of(other) <==> key == other) by {
                    assert(other.take(n as int) =~= other);
                }
                assert(key =~= key.take(n as int));
                reveal_with_fuel(Trie::fits, 2);
            }
        },
        Some(trie) => {
            assert(key.skip(0) =~= key);
            assert(other.skip(0) =~= other);
            let (loaded, error) = load_way::<H>(trie, stored, key, 0);
            lemma_load_way_fits::<H>(trie, stored, key, 0);
            lemma_load_way_hash::<H>(trie, stored, key, 0);
            lemma_load_way_keeps::<H>(trie, stored, key, 0, other);
            if error is None {
                lemma_load_way_known::<H>(trie, stored, key, 0);
                if value != Felt::of(0) {
                    lemma_insert_fits(loaded, key, value);
                    lemma_insert_lookup(loaded, key, value, key);
                    lemma_insert_lookup(loaded, key, value, other);
                } else if loaded.lookup(key) != Some(Felt::of(0)) {
                    let prepared = load_beside::<H>(loaded, stored, key, 0).0;
                    lemma_load_beside_keeps::<H>(loaded, stored, key, 0, key);
                    lemma_load_beside_keeps::<H>(loaded, stored, key, 0, other);
                    lemma_load_beside::<H>(loaded, stored, key, 0);
                    lemma_remove_lookup(prepared, key, key);
                    lemma_remove_lookup(prepared, key, other);
                }
            }
        },
    }
}

} // verus!
