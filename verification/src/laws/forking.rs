//! Trees of which only some parts are known, next to the whole trees that they stand for.

use crate::felt::{Felt, StarkHash};
use crate::laws::contents::root_lookup;
use crate::laws::loading::{lemma_load_top, lemma_load_way_fits};
use crate::laws::nodes::{
    collision_free, holds_way, lemma_holds_way_step, lemma_within_values, nodes_of, within,
};
use crate::trie::merkle_node::{node_hash, NodeView};
use crate::trie::model::{
    lead, lemma_insert_fits, lemma_node_hash, lemma_prefix_split, well_filed, Trie,
};
use crate::trie::partial_trie::{insert_at_root, PartialTrieErrorView};
use crate::trie::path::{common_len, lemma_common_len, lemma_prefix_common};
use crate::trie::loading::{at_hand, lemma_load_way_idle, lemma_load_way_known, load_top, load_way};
use crate::trie::tree::{root_digest, root_way, seek_key, set_value, starting_point};
use vstd::prelude::*;

verus! {

/// `part` is `whole` with some of its parts replaced by their hashes.
pub open spec fn prunes<H: StarkHash>(part: Trie, whole: Trie) -> bool
    decreases part,
{
    match part {
        Trie::Digest(digest) => digest == whole.hash::<H>(),
        Trie::Binary { left, right } => match whole {
            Trie::Binary { left: whole_left, right: whole_right } => prunes::<H>(
                *left,
                *whole_left,
            ) && prunes::<H>(*right, *whole_right),
            _ => false,
        },
        Trie::Edge { path, child } => match whole {
            Trie::Edge { path: whole_path, child: whole_child } => path == whole_path
                && prunes::<H>(*child, *whole_child),
            _ => false,
        },
    }
}

/// The whole of a trie of height `n` is known.
pub open spec fn complete(trie: Trie, n: nat) -> bool
    decreases trie,
{
    match trie {
        Trie::Digest(_) => n == 0,
        Trie::Binary { left, right } => n >= 1 && complete(*left, (n - 1) as nat) && complete(
            *right,
            (n - 1) as nat,
        ),
        Trie::Edge { path, child } => 1 <= path.len() <= n && complete(
            *child,
            (n - path.len()) as nat,
        ),
    }
}

/// The nodes on the way to `key` through `whole` that `part` does not know. Both stand after the
/// first `depth` bits of the key.
pub open spec fn missing<H: StarkHash>(
    part: Trie,
    whole: Trie,
    key: Seq<bool>,
    depth: nat,
) -> Seq<(Seq<bool>, NodeView)>
    decreases part,
{
    match part {
        Trie::Digest(_) => whole.way::<H>(key, depth),
        Trie::Binary { left, right } => if key[depth as int] {
            missing::<H>(*right, whole.side(true), key, depth + 1)
        } else {
            missing::<H>(*left, whole.side(false), key, depth + 1)
        },
        Trie::Edge { path, child } => if path.is_prefix_of(key.skip(depth as int)) {
            missing::<H>(*child, *whole->child, key, depth + path.len())
        } else {
            Seq::empty()
        },
    }
}

/// A complete trie has its height, and every value is known.
pub proof fn lemma_complete(trie: Trie, n: nat, key: Seq<bool>)
    requires
        complete(trie, n),
        key.len() == n,
    ensures
        trie.fits(n),
        trie.lookup(key) is Some,
    decreases trie,
{
    match trie {
        Trie::Digest(_) => {},
        Trie::Binary { left, right } => {
            lemma_complete(*left, (n - 1) as nat, key.skip(1));
            lemma_complete(*right, (n - 1) as nat, key.skip(1));
        },
        Trie::Edge { path, child } => {
            lemma_complete(*child, (n - path.len()) as nat, key.skip(path.len() as int));
        },
    }
}

/// A part of a trie has the hash of the trie.
pub proof fn lemma_prunes_hash<H: StarkHash>(part: Trie, whole: Trie)
    requires
        prunes::<H>(part, whole),
    ensures
        part.hash::<H>() == whole.hash::<H>(),
    decreases part,
{
    match (part, whole) {
        (Trie::Binary { left, right }, Trie::Binary { left: l, right: r }) => {
            lemma_prunes_hash::<H>(*left, *l);
            lemma_prunes_hash::<H>(*right, *r);
        },
        (Trie::Edge { child, .. }, Trie::Edge { child: c, .. }) => {
            lemma_prunes_hash::<H>(*child, *c);
        },
        _ => {},
    }
}

/// A value that a part of a trie knows is the value in the trie.
pub proof fn lemma_prunes_lookup<H: StarkHash>(part: Trie, whole: Trie, key: Seq<bool>)
    requires
        prunes::<H>(part, whole),
        complete(whole, key.len()),
        part.lookup(key) is Some,
    ensures
        whole.lookup(key) == part.lookup(key),
    decreases part,
{
    match part {
        Trie::Digest(_) => {},
        Trie::Binary { .. } => {
            lemma_prunes_lookup::<H>(part.side(key[0]), whole.side(key[0]), key.skip(1));
        },
        Trie::Edge { path, child } => {
            if path.is_prefix_of(key) {
                lemma_prunes_lookup::<H>(*child, *whole->child, key.skip(path.len() as int));
            }
        },
    }
}

/// A part of a trie at the end of a path is a part of the trie at the end of the path.
proof fn lemma_lead_prunes<H: StarkHash>(path: Seq<bool>, part: Trie, whole: Trie)
    requires
        prunes::<H>(part, whole),
    ensures
        prunes::<H>(lead(path, part), lead(path, whole)),
{
}

/// A trie that is complete is so at the end of a path.
proof fn lemma_lead_complete(path: Seq<bool>, trie: Trie, n: nat)
    requires
        path.len() <= n,
        complete(trie, (n - path.len()) as nat),
    ensures
        complete(lead(path, trie), n),
{
}

/// Insertion into a part of a trie gives a part of what insertion into the trie gives.
pub proof fn lemma_insert_prunes<H: StarkHash>(
    part: Trie,
    whole: Trie,
    key: Seq<bool>,
    value: Felt,
)
    requires
        prunes::<H>(part, whole),
        complete(whole, key.len()),
        part.fits(key.len()),
        part.lookup(key) is Some,
    ensures
        prunes::<H>(part.insert(key, value), whole.insert(key, value)),
    decreases part,
{
    match part {
        Trie::Digest(_) => {},
        Trie::Binary { .. } => {
            lemma_insert_prunes::<H>(part.side(key[0]), whole.side(key[0]), key.skip(1), value);
        },
        Trie::Edge { path, child } => {
            let whole_child = *whole->child;
            if path.is_prefix_of(key) {
                lemma_insert_prunes::<H>(
                    *child,
                    whole_child,
                    key.skip(path.len() as int),
                    value,
                );
            } else {
                let n = common_len(path, key) as int;
                let leaf = Trie::Digest(value);
                lemma_lead_prunes::<H>(path.skip(n + 1), *child, whole_child);
                lemma_lead_prunes::<H>(key.skip(n + 1), leaf, leaf);
                let old_part = Box::new(lead(path.skip(n + 1), *child));
                let old_whole = Box::new(lead(path.skip(n + 1), whole_child));
                let new = Box::new(lead(key.skip(n + 1), leaf));
                if key[n] {
                    lemma_lead_prunes::<H>(
                        path.take(n),
                        Trie::Binary { left: old_part, right: new },
                        Trie::Binary { left: old_whole, right: new },
                    );
                } else {
                    lemma_lead_prunes::<H>(
                        path.take(n),
                        Trie::Binary { left: new, right: old_part },
                        Trie::Binary { left: new, right: old_whole },
                    );
                }
            }
        },
    }
}

/// Insertion into a complete trie gives a complete trie.
pub proof fn lemma_insert_complete(trie: Trie, key: Seq<bool>, value: Felt)
    requires
        complete(trie, key.len()),
    ensures
        complete(trie.insert(key, value), key.len()),
    decreases trie,
{
    match trie {
        Trie::Digest(_) => {},
        Trie::Binary { .. } => {
            lemma_insert_complete(trie.side(key[0]), key.skip(1), value);
        },
        Trie::Edge { path, child } => {
            if path.is_prefix_of(key) {
                lemma_insert_complete(*child, key.skip(path.len() as int), value);
            } else {
                lemma_common_len(path, key);
                lemma_prefix_common(path, key);
                let n = common_len(path, key) as int;
                let left = (key.len() - n - 1) as nat;
                lemma_lead_complete(path.skip(n + 1), *child, left);
                lemma_lead_complete(key.skip(n + 1), Trie::Digest(value), left);
                let old_part = Box::new(lead(path.skip(n + 1), *child));
                let new = Box::new(lead(key.skip(n + 1), Trie::Digest(value)));
                let branch = if key[n] {
                    Trie::Binary { left: old_part, right: new }
                } else {
                    Trie::Binary { left: new, right: old_part }
                };
                lemma_lead_complete(path.take(n), branch, key.len());
            }
        },
    }
}

/// What is missing below a path.
proof fn lemma_missing_lead<H: StarkHash>(
    path: Seq<bool>,
    part: Trie,
    whole: Trie,
    key: Seq<bool>,
    depth: nat,
)
    ensures
        missing::<H>(lead(path, part), lead(path, whole), key, depth) == if path.is_prefix_of(
            key.skip(depth as int),
        ) {
            missing::<H>(part, whole, key, depth + path.len())
        } else {
            Seq::empty()
        },
{
    if path.len() == 0 {
        assert(path =~= key.skip(depth as int).take(0));
    }
}

/// After an insertion into a part of a trie and into the trie, as much is missing as before.
pub proof fn lemma_insert_missing<H: StarkHash>(
    part: Trie,
    whole: Trie,
    key: Seq<bool>,
    depth: nat,
    value: Felt,
    other: Seq<bool>,
)
    requires
        depth <= key.len(),
        other.len() == key.len(),
        prunes::<H>(part, whole),
        complete(whole, (key.len() - depth) as nat),
        part.fits((key.len() - depth) as nat),
        part.lookup(key.skip(depth as int)) is Some,
    ensures
        missing::<H>(
            part.insert(key.skip(depth as int), value),
            whole.insert(key.skip(depth as int), value),
            other,
            depth,
        ) == missing::<H>(part, whole, other, depth),
    decreases part,
{
    let rest = key.skip(depth as int);
    match part {
        Trie::Digest(_) => {},
        Trie::Binary { .. } => {
            let bit = key[depth as int];
            assert(rest.skip(1) =~= key.skip(depth as int + 1));
            lemma_insert_missing::<H>(
                part.side(bit),
                whole.side(bit),
                key,
                depth + 1,
                value,
                other,
            );
        },
        Trie::Edge { path, child } => {
            let whole_child = *whole->child;
            if path.is_prefix_of(rest) {
                assert(rest.skip(path.len() as int) =~= key.skip((depth + path.len()) as int));
                lemma_insert_missing::<H>(
                    *child,
                    whole_child,
                    key,
                    depth + path.len(),
                    value,
                    other,
                );
            } else {
                lemma_common_len(path, rest);
                lemma_prefix_common(path, rest);
                let n = common_len(path, rest) as int;
                let leaf = Trie::Digest(value);
                let other_rest = other.skip(depth as int);
                let below = (depth + n + 1) as nat;
                let old_part = Box::new(lead(path.skip(n + 1), *child));
                let old_whole = Box::new(lead(path.skip(n + 1), whole_child));
                let new = Box::new(lead(rest.skip(n + 1), leaf));
                let (branch, whole_branch) = if rest[n] {
                    (
                        Trie::Binary { left: old_part, right: new },
                        Trie::Binary { left: old_whole, right: new },
                    )
                } else {
                    (
                        Trie::Binary { left: new, right: old_part },
                        Trie::Binary { left: new, right: old_whole },
                    )
                };
                lemma_missing_lead::<H>(path.take(n), branch, whole_branch, other, depth);
                lemma_missing_lead::<H>(path.skip(n + 1), *child, whole_child, other, below);
                lemma_missing_lead::<H>(rest.skip(n + 1), leaf, leaf, other, below);
                lemma_prefix_split(path, other_rest, n);
                assert(other_rest.skip(n + 1) =~= other.skip(below as int));
                assert(other_rest[n] == other[depth + n]);
                assert(below + path.skip(n + 1).len() == depth + path.len());
            }
        },
    }
}

/// Loading into a part of a trie gives a part of the trie, of which no more is missing, and
/// succeeds if what is missing is at hand.
pub proof fn lemma_load_way_prunes<H: StarkHash>(
    part: Trie,
    whole: Trie,
    nodes: Map<Felt, NodeView>,
    all: Set<NodeView>,
    key: Seq<bool>,
    depth: nat,
)
    requires
        depth <= key.len(),
        prunes::<H>(part, whole),
        complete(whole, (key.len() - depth) as nat),
        part.fits((key.len() - depth) as nat),
        nodes_of::<H>(whole).subset_of(all),
        within(nodes, all),
        collision_free::<H>(all),
    ensures
        prunes::<H>(load_way::<H>(part, nodes, key, depth).0, whole),
        holds_way::<H>(nodes, missing::<H>(part, whole, key, depth)) ==> load_way::<H>(
            part,
            nodes,
            key,
            depth,
        ).1 is None,
    decreases key.len() - depth,
{
    if depth < key.len() {
        let hash = whole.hash::<H>();
        let here = (key.take(depth as int), whole.node::<H>());
        lemma_load_top::<H>(part, nodes, key, depth);
        lemma_prunes_hash::<H>(part, whole);
        lemma_node_hash::<H>(whole);
        assert(all.contains(whole.node::<H>()));
        if part is Digest {
            assert(nodes.contains_key(hash) ==> all.contains(nodes[hash]));
            match whole {
                Trie::Binary { left, right } => {
                    let child = whole.side(key[depth as int]);
                    let lower = child.way::<H>(key, depth + 1);
                    lemma_holds_way_step::<H>(nodes, here, lower);
                },
                Trie::Edge { path, child } => {
                    if path.is_prefix_of(key.skip(depth as int)) {
                        let lower = child.way::<H>(key, depth + path.len());
                        lemma_holds_way_step::<H>(nodes, here, lower);
                    } else {
                        assert(whole.way::<H>(key, depth)[0] == here);
                    }
                },
                Trie::Digest(_) => {},
            }
        }
        reveal_with_fuel(prunes, 2);
        reveal_with_fuel(missing, 2);
        reveal_with_fuel(Trie::fits, 2);
        match load_top::<H>(part, nodes, key, depth) {
            Ok(loaded) => {
                assert(loaded.node::<H>() == whole.node::<H>()) by {
                    if part is Digest {
                        lemma_node_hash::<H>(loaded);
                    } else {
                        lemma_prunes_node::<H>(part, whole);
                    }
                }
                assert(prunes::<H>(loaded, whole));
                match loaded {
                    Trie::Binary { left, right } => {
                        let bit = key[depth as int];
                        lemma_load_way_prunes::<H>(
                            loaded.side(bit),
                            whole.side(bit),
                            nodes,
                            all,
                            key,
                            depth + 1,
                        );
                    },
                    Trie::Edge { path, child } => {
                        if path.is_prefix_of(key.skip(depth as int)) {
                            lemma_load_way_prunes::<H>(
                                *child,
                                *whole->child,
                                nodes,
                                all,
                                key,
                                depth + path.len(),
                            );
                        }
                    },
                    Trie::Digest(_) => {},
                }
            },
            Err(_) => {},
        }
    }
}

/// A part of a trie that knows the topmost node knows what it says.
pub proof fn lemma_prunes_node<H: StarkHash>(part: Trie, whole: Trie)
    requires
        prunes::<H>(part, whole),
        !(part is Digest),
    ensures
        part.node::<H>() == whole.node::<H>(),
{
    match (part, whole) {
        (Trie::Binary { left, right }, Trie::Binary { left: l, right: r }) => {
            lemma_prunes_hash::<H>(*left, *l);
            lemma_prunes_hash::<H>(*right, *r);
        },
        (Trie::Edge { child, .. }, Trie::Edge { child: c, .. }) => {
            lemma_prunes_hash::<H>(*child, *c);
        },
        _ => {},
    }
}

/// The nodes of a part of a trie are nodes of the trie.
pub proof fn lemma_prunes_nodes<H: StarkHash>(part: Trie, whole: Trie)
    requires
        prunes::<H>(part, whole),
    ensures
        nodes_of::<H>(part).subset_of(nodes_of::<H>(whole)),
    decreases part,
{
    match (part, whole) {
        (Trie::Binary { left, right }, Trie::Binary { left: l, right: r }) => {
            lemma_prunes_nodes::<H>(*left, *l);
            lemma_prunes_nodes::<H>(*right, *r);
            lemma_prunes_node::<H>(part, whole);
        },
        (Trie::Edge { child, .. }, Trie::Edge { child: c, .. }) => {
            lemma_prunes_nodes::<H>(*child, *c);
            lemma_prunes_node::<H>(part, whole);
        },
        _ => {},
    }
}

/// After loading into a part of a trie no more is missing than before.
pub proof fn lemma_load_way_missing<H: StarkHash>(
    part: Trie,
    whole: Trie,
    nodes: Map<Felt, NodeView>,
    all: Set<NodeView>,
    key: Seq<bool>,
    depth: nat,
    other: Seq<bool>,
    source: Map<Felt, NodeView>,
)
    requires
        depth <= key.len(),
        other.len() == key.len(),
        prunes::<H>(part, whole),
        complete(whole, (key.len() - depth) as nat),
        part.fits((key.len() - depth) as nat),
        nodes_of::<H>(whole).subset_of(all),
        within(nodes, all),
        collision_free::<H>(all),
        holds_way::<H>(source, missing::<H>(part, whole, other, depth)),
    ensures
        holds_way::<H>(
            source,
            missing::<H>(load_way::<H>(part, nodes, key, depth).0, whole, other, depth),
        ),
    decreases key.len() - depth,
{
    if depth < key.len() {
        let hash = whole.hash::<H>();
        let here = (other.take(depth as int), whole.node::<H>());
        lemma_load_top::<H>(part, nodes, key, depth);
        lemma_prunes_hash::<H>(part, whole);
        lemma_node_hash::<H>(whole);
        assert(all.contains(whole.node::<H>()));
        if part is Digest {
            assert(nodes.contains_key(hash) ==> all.contains(nodes[hash]));
            match whole {
                Trie::Binary { left, right } => {
                    let child = whole.side(other[depth as int]);
                    let lower = child.way::<H>(other, depth + 1);
                    lemma_holds_way_step::<H>(source, here, lower);
                },
                Trie::Edge { path, child } => {
                    if path.is_prefix_of(other.skip(depth as int)) {
                        let lower = child.way::<H>(other, depth + path.len());
                        lemma_holds_way_step::<H>(source, here, lower);
                    }
                },
                Trie::Digest(_) => {},
            }
        }
        reveal_with_fuel(prunes, 2);
        reveal_with_fuel(missing, 2);
        reveal_with_fuel(Trie::fits, 2);
        match load_top::<H>(part, nodes, key, depth) {
            Ok(loaded) => {
                assert(loaded.node::<H>() == whole.node::<H>()) by {
                    if part is Digest {
                        lemma_node_hash::<H>(loaded);
                    } else {
                        lemma_prunes_node::<H>(part, whole);
                    }
                }
                assert(prunes::<H>(loaded, whole));
                assert(holds_way::<H>(source, missing::<H>(loaded, whole, other, depth)));
                match loaded {
                    Trie::Binary { left, right } => {
                        let bit = key[depth as int];
                        if other[depth as int] == bit {
                            lemma_load_way_missing::<H>(
                                loaded.side(bit),
                                whole.side(bit),
                                nodes,
                                all,
                                key,
                                depth + 1,
                                other,
                                source,
                            );
                        }
                    },
                    Trie::Edge { path, child } => {
                        if path.is_prefix_of(key.skip(depth as int)) && path.is_prefix_of(
                            other.skip(depth as int),
                        ) {
                            lemma_load_way_missing::<H>(
                                *child,
                                *whole->child,
                                nodes,
                                all,
                                key,
                                depth + path.len(),
                                other,
                                source,
                            );
                        }
                    },
                    Trie::Digest(_) => {},
                }
            },
            Err(_) => {},
        }
    }
}

/// Whatever `part` does not know of a way through `whole`, the way through `base` has.
pub open spec fn sourced<H: StarkHash>(
    part: Trie,
    whole: Trie,
    base: Option<Trie>,
    n: nat,
) -> bool {
    forall|source: Map<Felt, NodeView>, key: Seq<bool>|
        key.len() == n && holds_way::<H>(source, root_way::<H>(base, key)) ==> #[trigger]
            holds_way::<H>(source, missing::<H>(part, whole, key, 0))
}

/// A tree of which only some parts are known, with the trie `root`, stands for the tree with the
/// trie `whole`, which came out of the tree with the trie `base`. As long as no node is known, the
/// root hash `original_root` stands for the tree.
pub open spec fn follows<H: StarkHash>(
    root: Option<Trie>,
    original_root: Felt,
    whole: Option<Trie>,
    base: Option<Trie>,
    n: nat,
) -> bool {
    match starting_point(root, original_root) {
        None => whole is None,
        Some(part) => match whole {
            None => false,
            Some(whole) => {
                &&& prunes::<H>(part, whole)
                &&& complete(whole, n)
                &&& part.fits(n)
                &&& sourced::<H>(part, whole, base, n)
            },
        },
    }
}

/// The nodes of a tree.
pub open spec fn root_nodes<H: StarkHash>(root: Option<Trie>) -> Set<NodeView> {
    match root {
        None => Set::empty(),
        Some(trie) => nodes_of::<H>(trie),
    }
}

/// What a proof holds is at hand, also where some of it is stored.
pub proof fn lemma_at_hand<H: StarkHash>(
    stored: Map<Felt, NodeView>,
    proof_nodes: Map<Felt, NodeView>,
    way: Seq<(Seq<bool>, NodeView)>,
    all: Set<NodeView>,
)
    requires
        collision_free::<H>(all),
        well_filed::<H>(stored),
        within(stored, all),
        within(proof_nodes, all),
    ensures
        holds_way::<H>(proof_nodes, way) ==> holds_way::<H>(at_hand(stored, proof_nodes), way),
        within(at_hand(stored, proof_nodes), all),
{
    let nodes = at_hand(stored, proof_nodes);
    assert forall|i: int|
        holds_way::<H>(proof_nodes, way) && 0 <= i < way.len() implies nodes.contains_pair(
        node_hash::<H>((#[trigger] way[i]).1),
        way[i].1,
    ) by {
        let hash = node_hash::<H>(way[i].1);
        assert(proof_nodes.contains_key(hash));
        if stored.contains_key(hash) {
            assert(all.contains(stored[hash]));
            assert(all.contains(proof_nodes[hash]));
        }
    }
}

/// A tree of which no node is known stands for the tree with its root hash.
pub proof fn law_fork_starts<H: StarkHash>(base: Option<Trie>, n: nat)
    requires
        base matches Some(trie) ==> complete(trie, n) && trie.hash::<H>() != Felt::of(0),
    ensures
        follows::<H>(None, root_digest::<H>(base), base, base, n),
{
}

/// A tree of which only some parts are known keeps up with the whole tree.
///
/// Where the proof holds the way to the key in the tree that the whole tree came out of, seeking
/// the key succeeds. Whatever the proof holds, the tree stands for the whole tree after it, and
/// where it succeeds it does so after the value is set in both trees. The two have the same root
/// hash. This is so unless two different nodes have the same hash.
pub proof fn law_fork_follows<H: StarkHash>(
    root: Option<Trie>,
    original_root: Felt,
    whole: Option<Trie>,
    base: Option<Trie>,
    stored: Map<Felt, NodeView>,
    proof_nodes: Map<Felt, NodeView>,
    whole_stored: Map<Felt, NodeView>,
    key: Seq<bool>,
    value: Felt,
)
    requires
        value != Felt::of(0),
        follows::<H>(root, original_root, whole, base, key.len()),
        well_filed::<H>(stored),
        collision_free::<H>(
            root_nodes::<H>(whole).union(stored.values()).union(proof_nodes.values()),
        ),
    ensures
        ({
            let (found, error) = seek_key::<H>(
                root,
                original_root,
                at_hand(stored, proof_nodes),
                key,
            );
            let after = insert_at_root(found, key, value);
            let whole_after = insert_at_root(whole, key, value);
            &&& holds_way::<H>(proof_nodes, root_way::<H>(base, key)) ==> error is None
            &&& follows::<H>(found, original_root, whole, base, key.len())
            &&& error is None ==> follows::<H>(
                Some(after),
                original_root,
                Some(whole_after),
                base,
                key.len(),
            ) && after.hash::<H>() == whole_after.hash::<H>()
            &&& set_value::<H>(whole, whole_stored, key, value) == (
                Some(whole_after),
                None::<PartialTrieErrorView>,
            )
        }),
{
    let n = key.len();
    let all = root_nodes::<H>(whole).union(stored.values()).union(proof_nodes.values());
    let nodes = at_hand(stored, proof_nodes);
    assert(key.skip(0) =~= key);
    lemma_within_values(stored, root_nodes::<H>(whole));
    lemma_within_values(proof_nodes, root_nodes::<H>(whole).union(stored.values()));
    lemma_at_hand::<H>(stored, proof_nodes, root_way::<H>(base, key), all);
    match starting_point(root, original_root) {
        None => {
            let leaf = lead(key, Trie::Digest(value));
            reveal_with_fuel(prunes, 2);
            reveal_with_fuel(complete, 2);
            reveal_with_fuel(Trie::fits, 2);
            assert forall|source: Map<Felt, NodeView>, other: Seq<bool>|
                other.len() == n && holds_way::<H>(source, root_way::<H>(base, other)) implies
                #[trigger] holds_way::<H>(source, missing::<H>(leaf, leaf, other, 0)) by {
                lemma_missing_lead::<H>(key, Trie::Digest(value), Trie::Digest(value), other, 0);
            }
        },
        Some(part) => {
            let trie = whole->0;
            lemma_complete(trie, n, key);
            lemma_load_way_idle::<H>(trie, whole_stored, key, 0);
            if holds_way::<H>(nodes, root_way::<H>(base, key)) {
                assert(holds_way::<H>(nodes, missing::<H>(part, trie, key, 0)));
            }
            let (loaded, error) = load_way::<H>(part, nodes, key, 0);
            lemma_load_way_prunes::<H>(part, trie, nodes, all, key, 0);
            lemma_load_way_fits::<H>(part, nodes, key, 0);
            assert forall|source: Map<Felt, NodeView>, other: Seq<bool>|
                other.len() == n && holds_way::<H>(source, root_way::<H>(base, other)) implies
                #[trigger] holds_way::<H>(source, missing::<H>(loaded, trie, other, 0)) by {
                assert(holds_way::<H>(source, missing::<H>(part, trie, other, 0)));
                lemma_load_way_missing::<H>(part, trie, nodes, all, key, 0, other, source);
            }
            if error is None {
                lemma_load_way_known::<H>(part, nodes, key, 0);
                lemma_insert_prunes::<H>(loaded, trie, key, value);
                lemma_insert_complete(trie, key, value);
                lemma_insert_fits(loaded, key, value);
                lemma_prunes_hash::<H>(loaded.insert(key, value), trie.insert(key, value));
                assert forall|source: Map<Felt, NodeView>, other: Seq<bool>|
                    other.len() == n && holds_way::<H>(source, root_way::<H>(base, other)) implies
                    #[trigger] holds_way::<H>(
                    source,
                    missing::<H>(loaded.insert(key, value), trie.insert(key, value), other, 0),
                ) by {
                    lemma_insert_missing::<H>(loaded, trie, key, 0, value, other);
                    assert(holds_way::<H>(source, missing::<H>(loaded, trie, other, 0)));
                }
            }
        },
    }
}

/// What a tree of which only some parts are known tells of a key is true of the whole tree.
pub proof fn law_fork_tells<H: StarkHash>(
    root: Option<Trie>,
    original_root: Felt,
    whole: Option<Trie>,
    base: Option<Trie>,
    key: Seq<bool>,
)
    requires
        follows::<H>(root, original_root, whole, base, key.len()),
        root is Some,
        root_lookup(root, key) is Some,
    ensures
        root_digest::<H>(root) == root_digest::<H>(whole),
        root_lookup(whole, key) == root_lookup(root, key),
{
    lemma_prunes_hash::<H>(root->0, whole->0);
    lemma_prunes_lookup::<H>(root->0, whole->0, key);
}

} // verus!
