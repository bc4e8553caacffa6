//! What proofs tell, and that they tell the truth.

use crate::felt::{Felt, StarkHash};
use crate::laws::forking::{complete, lemma_complete};
use crate::trie::hops::{hop, lemma_hops_circle, lemma_last_hop};
use crate::laws::loading::{lemma_load_way_fits, lemma_load_way_keeps, lemma_load_way_nodes};
use crate::laws::nodes::{
    collision_free, holds_way, lemma_file_way, lemma_holds_more, lemma_holds_way_step,
    lemma_way_nodes, lemma_within_values, nodes_of, within,
};
use crate::trie::merkle_node::{node_hash, NodeView};
use crate::trie::model::{
    file_order, file_way, lemma_node_hash, own_hashed, well_filed, Trie,
};
use crate::trie::proofs::{walk, MultiProof, VerificationErrorView};
use crate::trie::loading::{
    lemma_load_way_hash, lemma_load_way_idle, lemma_load_way_known, load_way,
};
use crate::trie::tree::{proof_order, prove_keys};
use vstd::prelude::*;

verus! {

/// Nodes that hold the way to a key tell the value under it.
pub proof fn lemma_walk_tells<H: StarkHash>(
    trie: Trie,
    nodes: Map<Felt, NodeView>,
    limit: nat,
    key: Seq<bool>,
    depth: nat,
    spare: nat,
)
    requires
        depth <= key.len(),
        trie.fits((key.len() - depth) as nat),
        trie.lookup(key.skip(depth as int)) is Some,
        holds_way::<H>(nodes, trie.way::<H>(key, depth)),
    ensures
        walk::<H>(nodes, limit, key, trie.hash::<H>(), depth, spare) == Ok::<
            Felt,
            VerificationErrorView,
        >(trie.lookup(key.skip(depth as int))->0),
    decreases trie,
{
    let rest = key.skip(depth as int);
    match trie {
        Trie::Digest(_) => {},
        Trie::Binary { left, right } => {
            let child = trie.side(key[depth as int]);
            lemma_node_hash::<H>(trie);
            lemma_holds_way_step::<H>(
                nodes,
                (key.take(depth as int), trie.node::<H>()),
                child.way::<H>(key, depth + 1),
            );
            assert(rest.skip(1) =~= key.skip(depth as int + 1));
            lemma_walk_tells::<H>(child, nodes, limit, key, depth + 1, limit);
        },
        Trie::Edge { path, child } => {
            lemma_node_hash::<H>(trie);
            if path.is_prefix_of(rest) {
                lemma_holds_way_step::<H>(
                    nodes,
                    (key.take(depth as int), trie.node::<H>()),
                    child.way::<H>(key, depth + path.len()),
                );
                assert(rest.skip(path.len() as int) =~= key.skip((depth + path.len()) as int));
                lemma_walk_tells::<H>(*child, nodes, limit, key, depth + path.len(), limit);
            } else {
                assert(trie.way::<H>(key, depth)[0] == (
                    key.take(depth as int),
                    trie.node::<H>(),
                ));
            }
        },
    }
}

/// What the nodes of a proof tell of a key of a trie, if they tell anything, is the value under
/// it.
pub proof fn lemma_walk_binds<H: StarkHash>(
    trie: Trie,
    nodes: Map<Felt, NodeView>,
    all: Set<NodeView>,
    limit: nat,
    key: Seq<bool>,
    depth: nat,
    spare: nat,
)
    requires
        depth <= key.len(),
        trie.fits((key.len() - depth) as nat),
        trie.lookup(key.skip(depth as int)) is Some,
        nodes_of::<H>(trie).subset_of(all),
        within(nodes, all),
        collision_free::<H>(all),
    ensures
        walk::<H>(nodes, limit, key, trie.hash::<H>(), depth, spare) matches Ok(value)
            ==> trie.lookup(key.skip(depth as int)) == Some(value),
    decreases trie,
{
    let rest = key.skip(depth as int);
    let hash = trie.hash::<H>();
    match trie {
        Trie::Digest(_) => {},
        Trie::Binary { left, right } => {
            let child = trie.side(key[depth as int]);
            lemma_node_hash::<H>(trie);
            assert(all.contains(trie.node::<H>()));
            assert(nodes.contains_key(hash) ==> all.contains(nodes[hash]));
            assert(rest.skip(1) =~= key.skip(depth as int + 1));
            lemma_walk_binds::<H>(child, nodes, all, limit, key, depth + 1, limit);
        },
        Trie::Edge { path, child } => {
            lemma_node_hash::<H>(trie);
            assert(all.contains(trie.node::<H>()));
            assert(nodes.contains_key(hash) ==> all.contains(nodes[hash]));
            if path.is_prefix_of(rest) {
                assert(rest.skip(path.len() as int) =~= key.skip((depth + path.len()) as int));
                lemma_walk_binds::<H>(*child, nodes, all, limit, key, depth + path.len(), limit);
            }
        },
    }
}

/// What nodes tell, more nodes tell too.
pub proof fn lemma_walk_more<H: StarkHash>(
    nodes: Map<Felt, NodeView>,
    more: Map<Felt, NodeView>,
    limit: nat,
    more_limit: nat,
    key: Seq<bool>,
    at: Felt,
    depth: nat,
    spare: nat,
    more_spare: nat,
)
    requires
        nodes.submap_of(more),
        limit <= more_limit,
        spare <= more_spare,
    ensures
        walk::<H>(nodes, limit, key, at, depth, spare) matches Ok(value) ==> walk::<H>(
            more,
            more_limit,
            key,
            at,
            depth,
            more_spare,
        ) == Ok::<Felt, VerificationErrorView>(value),
    decreases key.len() - depth, spare,
{
    if depth < key.len() && nodes.contains_key(at) {
        assert(more.dom().contains(at));
        match nodes[at] {
            NodeView::Binary { left, right } => {
                let child = if key[depth as int] {
                    right
                } else {
                    left
                };
                lemma_walk_more::<H>(
                    nodes,
                    more,
                    limit,
                    more_limit,
                    key,
                    child,
                    depth + 1,
                    limit,
                    more_limit,
                );
            },
            NodeView::Edge { child, path } => {
                if !path.is_prefix_of(key.skip(depth as int)) {
                } else if path.len() > 0 {
                    lemma_walk_more::<H>(
                        nodes,
                        more,
                        limit,
                        more_limit,
                        key,
                        child,
                        depth + path.len(),
                        limit,
                        more_limit,
                    );
                } else if spare > 0 {
                    lemma_walk_more::<H>(
                        nodes,
                        more,
                        limit,
                        more_limit,
                        key,
                        child,
                        depth,
                        (spare - 1) as nat,
                        (more_spare - 1) as nat,
                    );
                }
            },
        }
    }
}

/// Two sets of nodes that tell a value under a key of the same root tell the same value.
pub proof fn lemma_walk_agrees<H: StarkHash>(
    a: Map<Felt, NodeView>,
    b: Map<Felt, NodeView>,
    all: Set<NodeView>,
    a_limit: nat,
    b_limit: nat,
    key: Seq<bool>,
    at: Felt,
    depth: nat,
    a_spare: nat,
    b_spare: nat,
)
    requires
        within(a, all),
        within(b, all),
        collision_free::<H>(all),
    ensures
        walk::<H>(a, a_limit, key, at, depth, a_spare) matches Ok(value) ==> (walk::<H>(
            b,
            b_limit,
            key,
            at,
            depth,
            b_spare,
        ) matches Ok(other) ==> value == other),
    decreases key.len() - depth, a_spare,
{
    if depth < key.len() && a.contains_key(at) && b.contains_key(at) {
        assert(all.contains(a[at]) && all.contains(b[at]));
        match a[at] {
            NodeView::Binary { left, right } => {
                let child = if key[depth as int] {
                    right
                } else {
                    left
                };
                lemma_walk_agrees::<H>(
                    a,
                    b,
                    all,
                    a_limit,
                    b_limit,
                    key,
                    child,
                    depth + 1,
                    a_limit,
                    b_limit,
                );
            },
            NodeView::Edge { child, path } => {
                if !path.is_prefix_of(key.skip(depth as int)) {
                } else if path.len() > 0 {
                    lemma_walk_agrees::<H>(
                        a,
                        b,
                        all,
                        a_limit,
                        b_limit,
                        key,
                        child,
                        depth + path.len(),
                        a_limit,
                        b_limit,
                    );
                } else if a_spare > 0 && b_spare > 0 {
                    lemma_walk_agrees::<H>(
                        a,
                        b,
                        all,
                        a_limit,
                        b_limit,
                        key,
                        child,
                        depth,
                        (a_spare - 1) as nat,
                        (b_spare - 1) as nat,
                    );
                }
            },
        }
    }
}

/// A walk follows the edges without bits.
proof fn lemma_walk_hops<H: StarkHash>(
    nodes: Map<Felt, NodeView>,
    limit: nat,
    key: Seq<bool>,
    at: Felt,
    depth: nat,
    spare: nat,
    n: nat,
)
    requires
        depth < key.len(),
        n <= spare,
        hop(own_hashed::<H>(nodes), at, n) is Some,
    ensures
        walk::<H>(nodes, limit, key, at, depth, spare) == walk::<H>(
            nodes,
            limit,
            key,
            hop(own_hashed::<H>(nodes), at, n)->0,
            depth,
            (spare - n) as nat,
        ),
    decreases n,
{
    if n > 0 {
        lemma_walk_hops::<H>(nodes, limit, key, at, depth, spare, (n - 1) as nat);
        let before = hop(own_hashed::<H>(nodes), at, (n - 1) as nat)->0;
        if let NodeView::Edge { child, path } = nodes[before] {
            assert(path =~= key.skip(depth as int).take(0));
        }
    }
}

/// It makes no difference how many edges without bits a walk may follow in a row, if these are as
/// many as there are nodes: a walk that is cut short would never end.
pub proof fn lemma_walk_limit<H: StarkHash>(
    nodes: Map<Felt, NodeView>,
    limit: nat,
    other: nat,
    key: Seq<bool>,
    at: Felt,
    depth: nat,
)
    requires
        nodes.dom().finite(),
        nodes.len() <= limit,
        nodes.len() <= other,
    ensures
        walk::<H>(nodes, limit, key, at, depth, limit) == walk::<H>(
            nodes,
            other,
            key,
            at,
            depth,
            other,
        ),
    decreases key.len() - depth,
{
    if depth < key.len() {
        let own = own_hashed::<H>(nodes);
        assert(own.dom().subset_of(nodes.dom()));
        vstd::set_lib::lemma_len_subset(own.dom(), nodes.dom());
        if hop(own, at, own.len() + 1) is Some {
            lemma_hops_circle(own, at, limit);
            lemma_hops_circle(own, at, limit + 1);
            lemma_hops_circle(own, at, other);
            lemma_hops_circle(own, at, other + 1);
            lemma_walk_hops::<H>(nodes, limit, key, at, depth, limit, limit);
            lemma_walk_hops::<H>(nodes, other, key, at, depth, other, other);
            let none = Seq::<bool>::empty();
            assert(none =~= key.skip(depth as int).take(0));
            let hash = hop(own, at, limit)->0;
            if let NodeView::Edge { child, path } = nodes[hash] {
                assert(path =~= none);
            }
            let hash = hop(own, at, other)->0;
            if let NodeView::Edge { child, path } = nodes[hash] {
                assert(path =~= none);
            }
        } else {
            let last = lemma_last_hop(own, at, own.len() + 1);
            lemma_walk_hops::<H>(nodes, limit, key, at, depth, limit, last);
            lemma_walk_hops::<H>(nodes, other, key, at, depth, other, last);
            let hash = hop(own, at, last)->0;
            if nodes.contains_key(hash) {
                match nodes[hash] {
                    NodeView::Binary { left, right } => {
                        lemma_walk_limit::<H>(nodes, limit, other, key, left, depth + 1);
                        lemma_walk_limit::<H>(nodes, limit, other, key, right, depth + 1);
                    },
                    NodeView::Edge { child, path } => {
                        if path.len() > 0 && path.is_prefix_of(key.skip(depth as int)) {
                            lemma_walk_limit::<H>(
                                nodes,
                                limit,
                                other,
                                key,
                                child,
                                depth + path.len(),
                            );
                        }
                    },
                }
            }
        }
    }
}

/// A proof that holds the way to a key tells the value under it.
pub proof fn law_proof_tells<H: StarkHash>(
    trie: Trie,
    proof_nodes: MultiProof,
    key: Seq<bool>,
    height: u8,
)
    requires
        key.len() == height,
        trie.fits(height as nat),
        trie.lookup(key) is Some,
        holds_way::<H>(proof_nodes@, trie.way::<H>(key, 0)),
    ensures
        proof_nodes.finding::<H>(trie.hash::<H>(), key, height) == Ok::<
            Felt,
            VerificationErrorView,
        >(trie.lookup(key)->0),
{
    let limit = proof_nodes@.len();
    assert(key.skip(0) =~= key);
    lemma_walk_tells::<H>(trie, proof_nodes@, limit, key, 0, limit);
}

/// A proof cannot tell a wrong value: what it tells of a key of a trie is the value under the
/// key, unless two different nodes of the trie and of the proof have the same hash.
pub proof fn law_proof_binds<H: StarkHash>(
    trie: Trie,
    proof_nodes: MultiProof,
    key: Seq<bool>,
    height: u8,
)
    requires
        key.len() == height,
        trie.fits(height as nat),
        trie.lookup(key) is Some,
        collision_free::<H>(nodes_of::<H>(trie).union(proof_nodes@.values())),
    ensures
        proof_nodes.finding::<H>(trie.hash::<H>(), key, height) matches Ok(value)
            ==> trie.lookup(key) == Some(value),
{
    let all = nodes_of::<H>(trie).union(proof_nodes@.values());
    let limit = proof_nodes@.len();
    assert(key.skip(0) =~= key);
    lemma_within_values(proof_nodes@, nodes_of::<H>(trie));
    lemma_walk_binds::<H>(trie, proof_nodes@, all, limit, key, 0, limit);
}

/// Two proofs do not contradict each other, unless two of their nodes have the same hash.
pub proof fn law_proofs_agree<H: StarkHash>(
    a: MultiProof,
    b: MultiProof,
    root: Felt,
    key: Seq<bool>,
    height: u8,
)
    requires
        collision_free::<H>(a@.values().union(b@.values())),
    ensures
        a.finding::<H>(root, key, height) matches Ok(value) ==> (b.finding::<H>(
            root,
            key,
            height,
        ) matches Ok(other) ==> value == other),
{
    let all = a@.values().union(b@.values());
    lemma_within_values(b@, a@.values());
    lemma_within_values(a@, b@.values());
    assert(all =~= b@.values().union(a@.values()));
    lemma_walk_agrees::<H>(a@, b@, all, a@.len(), b@.len(), key, root, 0, a@.len(), b@.len());
}

/// A proof may prove more than it is asked for: what some of its nodes tell, all of them tell.
pub proof fn law_proof_may_have_more<H: StarkHash>(
    some: MultiProof,
    all: MultiProof,
    root: Felt,
    key: Seq<bool>,
    height: u8,
)
    requires
        some@.submap_of(all@),
        all@.dom().finite(),
    ensures
        some.finding::<H>(root, key, height) matches Ok(value) ==> all.finding::<H>(
            root,
            key,
            height,
        ) == Ok::<Felt, VerificationErrorView>(value),
{
    vstd::set_lib::lemma_len_subset(some@.dom(), all@.dom());
    let (limit, more_limit) = (some@.len(), all@.len());
    lemma_walk_more::<H>(some@, all@, limit, more_limit, key, root, 0, limit, more_limit);
}

/// How a verification fails: only a key of another length is reported as such, no way overshoots,
/// and the nodes are reported to form no trie only if the way to the key never ends.
pub proof fn law_failures<H: StarkHash>(
    proof_nodes: MultiProof,
    root: Felt,
    key: Seq<bool>,
    height: u8,
    limit: nat,
)
    requires
        proof_nodes@.dom().finite(),
        proof_nodes@.len() <= limit,
    ensures
        proof_nodes.finding::<H>(root, key, height) matches Err(error) ==> {
            &&& error is KeyLengthMismatch <==> key.len() != height
            &&& !(error is Overshot)
            &&& error is InvalidProof ==> walk::<H>(proof_nodes@, limit, key, root, 0, limit)
                == Err::<Felt, VerificationErrorView>(VerificationErrorView::InvalidProof)
        },
{
    let own = proof_nodes@.len();
    lemma_walk_limit::<H>(proof_nodes@, own, limit, key, root, 0);
    lemma_walk_failures::<H>(proof_nodes@, own, key, root, 0, own);
}

/// A walk fails in three ways.
pub proof fn lemma_walk_failures<H: StarkHash>(
    nodes: Map<Felt, NodeView>,
    limit: nat,
    key: Seq<bool>,
    at: Felt,
    depth: nat,
    spare: nat,
)
    ensures
        walk::<H>(nodes, limit, key, at, depth, spare) matches Err(error) ==> error is MissingNode
            || error is HashMismatch || error is InvalidProof,
    decreases key.len() - depth, spare,
{
    if depth < key.len() && nodes.contains_key(at) {
        match nodes[at] {
            NodeView::Binary { left, right } => {
                lemma_walk_failures::<H>(nodes, limit, key, left, depth + 1, limit);
                lemma_walk_failures::<H>(nodes, limit, key, right, depth + 1, limit);
            },
            NodeView::Edge { child, path } => {
                if !path.is_prefix_of(key.skip(depth as int)) {
                } else if path.len() > 0 {
                    lemma_walk_failures::<H>(nodes, limit, key, child, depth + path.len(), limit);
                } else if spare > 0 {
                    lemma_walk_failures::<H>(nodes, limit, key, child, depth, (spare - 1) as nat);
                }
            },
        }
    }
}

/// The trie, after keys were proved, and the proof, in which the way to each of them is filed.
pub proof fn lemma_prove_keys<H: StarkHash>(
    trie: Trie,
    stored: Map<Felt, NodeView>,
    keys: Seq<Seq<bool>>,
    height: nat,
    all: Set<NodeView>,
)
    requires
        trie.fits(height),
        prove_keys::<H>(Some(trie), stored, keys, height).2 is None,
        nodes_of::<H>(prove_keys::<H>(Some(trie), stored, keys, height).0->0).subset_of(all),
        collision_free::<H>(all),
    ensures
        ({
            let (root, filed, error) = prove_keys::<H>(Some(trie), stored, keys, height);
            &&& root is Some
            &&& root->0.fits(height)
            &&& root->0.hash::<H>() == trie.hash::<H>()
            &&& well_filed::<H>(filed)
            &&& within(filed, all)
            &&& nodes_of::<H>(trie).subset_of(nodes_of::<H>(root->0))
            &&& forall|i: int|
                0 <= i < keys.len() ==> {
                    &&& (#[trigger] keys[i]).len() == height
                    &&& root->0.lookup(keys[i]) is Some
                    &&& holds_way::<H>(filed, root->0.way::<H>(keys[i], 0))
                }
            &&& forall|key: Seq<bool>|
                key.len() == height && #[trigger] trie.lookup(key) is Some ==> root->0.lookup(key)
                    == trie.lookup(key)
        }),
    decreases keys.len(),
{
    if keys.len() > 0 {
        let earlier = keys.drop_last();
        let key = keys.last();
        let (before, filed, _) = prove_keys::<H>(Some(trie), stored, earlier, height);
        lemma_prove_keys_root::<H>(trie, stored, earlier, height);
        let before = before->0;
        let loaded = load_way::<H>(before, stored, key, 0).0;
        lemma_load_way_nodes::<H>(before, stored, key, 0);
        lemma_load_way_fits::<H>(before, stored, key, 0);
        lemma_load_way_hash::<H>(before, stored, key, 0);
        lemma_prove_keys::<H>(trie, stored, earlier, height, all);
        assert(key.skip(0) =~= key);
        lemma_load_way_known::<H>(before, stored, key, 0);
        let way = loaded.way::<H>(key, 0);
        assert forall|i: int| 0 <= i < way.len() implies all.contains((#[trigger] way[i]).1) by {
            lemma_way_nodes::<H>(loaded, key, 0, i);
        }
        lemma_file_way::<H>(way, filed, all);
        let after = file_way::<H>(way, filed);
        assert forall|i: int| 0 <= i < keys.len() implies (#[trigger] keys[i]).len() == height
            && loaded.lookup(keys[i]) is Some && holds_way::<H>(
            after,
            loaded.way::<H>(keys[i], 0),
        ) by {
            if i < earlier.len() {
                assert(earlier[i] == keys[i]);
                assert(keys[i].skip(0) =~= keys[i]);
                lemma_load_way_keeps::<H>(before, stored, key, 0, keys[i]);
                lemma_holds_more::<H>(filed, after, before.way::<H>(keys[i], 0));
            }
        }
        assert forall|other: Seq<bool>|
            other.len() == height && #[trigger] trie.lookup(other) is Some implies loaded.lookup(
            other,
        ) == trie.lookup(other) by {
            assert(other.skip(0) =~= other);
            lemma_load_way_keeps::<H>(before, stored, key, 0, other);
        }
    }
}

/// Proving keys keeps the height and the hash of a trie.
pub proof fn lemma_prove_keys_root<H: StarkHash>(
    trie: Trie,
    stored: Map<Felt, NodeView>,
    keys: Seq<Seq<bool>>,
    height: nat,
)
    requires
        trie.fits(height),
    ensures
        prove_keys::<H>(Some(trie), stored, keys, height).0 matches Some(root) && root.fits(
            height,
        ) && root.hash::<H>() == trie.hash::<H>(),
    decreases keys.len(),
{
    if keys.len() > 0 {
        lemma_prove_keys_root::<H>(trie, stored, keys.drop_last(), height);
        let before = prove_keys::<H>(Some(trie), stored, keys.drop_last(), height).0->0;
        if keys.last().len() == height {
            lemma_load_way_fits::<H>(before, stored, keys.last(), 0);
            lemma_load_way_hash::<H>(before, stored, keys.last(), 0);
        }
    }
}

/// A tree whose nodes are all in memory can prove all keys of its height, and stays as it is. The
/// proof holds the way to each key, and has no nodes but those of the tree.
pub proof fn law_whole_tree_proves<H: StarkHash>(
    trie: Trie,
    stored: Map<Felt, NodeView>,
    keys: Seq<Seq<bool>>,
    height: nat,
)
    requires
        complete(trie, height),
        forall|i: int| 0 <= i < keys.len() ==> (#[trigger] keys[i]).len() == height,
        collision_free::<H>(nodes_of::<H>(trie)),
    ensures
        ({
            let (root, filed, error) = prove_keys::<H>(Some(trie), stored, keys, height);
            &&& error is None
            &&& root == Some(trie)
            &&& well_filed::<H>(filed)
            &&& within(filed, nodes_of::<H>(trie))
            &&& forall|i: int|
                0 <= i < keys.len() ==> holds_way::<H>(
                    filed,
                    trie.way::<H>(#[trigger] keys[i], 0),
                )
        }),
{
    lemma_prove_keys_idle::<H>(trie, stored, keys, height);
    lemma_complete(trie, height, Seq::new(height, |i: int| false));
    lemma_prove_keys::<H>(trie, stored, keys, height, nodes_of::<H>(trie));
}

/// A tree whose nodes are all in memory gives a proof for any keys of its height, and the proof
/// tells the value under each of them. This is so unless two different nodes of the tree have the
/// same hash.
pub proof fn law_whole_tree_proof_tells<H: StarkHash>(
    trie: Trie,
    stored: Map<Felt, NodeView>,
    keys: Seq<Seq<bool>>,
    height: u8,
    multi_proof: MultiProof,
    i: int,
)
    requires
        complete(trie, height as nat),
        forall|i: int| 0 <= i < keys.len() ==> (#[trigger] keys[i]).len() == height,
        0 <= i < keys.len(),
        multi_proof@ == prove_keys::<H>(Some(trie), stored, keys, height as nat).1,
        collision_free::<H>(nodes_of::<H>(trie)),
    ensures
        prove_keys::<H>(Some(trie), stored, keys, height as nat).2 is None,
        trie.lookup(keys[i]) is Some,
        multi_proof.finding::<H>(trie.hash::<H>(), keys[i], height) == Ok::<
            Felt,
            VerificationErrorView,
        >(trie.lookup(keys[i])->0),
{
    law_whole_tree_proves::<H>(trie, stored, keys, height as nat);
    lemma_complete(trie, height as nat, keys[i]);
    law_proof_tells::<H>(trie, multi_proof, keys[i], height);
}

/// Proving keys of a trie that is known as a whole loads nothing.
proof fn lemma_prove_keys_idle<H: StarkHash>(
    trie: Trie,
    stored: Map<Felt, NodeView>,
    keys: Seq<Seq<bool>>,
    height: nat,
)
    requires
        complete(trie, height),
        forall|i: int| 0 <= i < keys.len() ==> (#[trigger] keys[i]).len() == height,
    ensures
        prove_keys::<H>(Some(trie), stored, keys, height).0 == Some(trie),
        prove_keys::<H>(Some(trie), stored, keys, height).2 is None,
    decreases keys.len(),
{
    if keys.len() > 0 {
        let key = keys.last();
        assert(key == keys[keys.len() - 1]);
        lemma_prove_keys_idle::<H>(trie, stored, keys.drop_last(), height);
        lemma_complete(trie, height, key);
        assert(key.skip(0) =~= key);
        lemma_load_way_idle::<H>(trie, stored, key, 0);
    }
}

/// Filing a way keeps the order of the hashes that came before, and the first node of the way
/// comes first if none was there.
proof fn lemma_file_order<H: StarkHash>(
    way: Seq<(Seq<bool>, NodeView)>,
    nodes: Map<Felt, NodeView>,
    order: Seq<Felt>,
)
    ensures
        order.is_prefix_of(file_order::<H>(way, nodes, order)),
        way.len() > 0 && order.len() == 0 && nodes =~= Map::empty() ==> {
            let filed = file_order::<H>(way, nodes, order);
            filed.len() > 0 && filed[0] == node_hash::<H>(way[0].1)
        },
    decreases way.len(),
{
    assert(order =~= order.take(order.len() as int));
    if way.len() > 0 {
        lemma_file_order::<H>(way.drop_last(), nodes, order);
        let before = file_order::<H>(way.drop_last(), nodes, order);
        let filed = file_order::<H>(way, nodes, order);
        assert(order =~= filed.take(order.len() as int)) by {
            assert(order =~= before.take(order.len() as int));
        }
        if way.len() > 1 {
            assert(way.drop_last()[0] == way[0]);
        } else {
            assert(way.drop_last().len() == 0);
        }
    }
}

/// The first node of a proof is the root.
pub proof fn law_proof_starts_at_root<H: StarkHash>(
    trie: Trie,
    stored: Map<Felt, NodeView>,
    keys: Seq<Seq<bool>>,
    height: nat,
)
    requires
        trie.fits(height),
        height > 0,
        keys.len() > 0,
        prove_keys::<H>(Some(trie), stored, keys, height).2 is None,
    ensures
        proof_order::<H>(Some(trie), stored, keys, height).len() > 0,
        proof_order::<H>(Some(trie), stored, keys, height)[0] == trie.hash::<H>(),
    decreases keys.len(),
{
    let earlier = keys.drop_last();
    let key = keys.last();
    let (before, filed, _) = prove_keys::<H>(Some(trie), stored, earlier, height);
    let order = proof_order::<H>(Some(trie), stored, earlier, height);
    lemma_prove_keys_root::<H>(trie, stored, earlier, height);
    let before = before->0;
    let loaded = load_way::<H>(before, stored, key, 0).0;
    let way = loaded.way::<H>(key, 0);
    lemma_load_way_hash::<H>(before, stored, key, 0);
    assert(key.skip(0) =~= key);
    lemma_load_way_known::<H>(before, stored, key, 0);
    assert(!(loaded is Digest));
    lemma_node_hash::<H>(loaded);
    assert(way[0].1 == loaded.node::<H>());
    lemma_file_order::<H>(way, filed, order);
    if earlier.len() > 0 {
        law_proof_starts_at_root::<H>(trie, stored, earlier, height);
        let whole = file_order::<H>(way, filed, order);
        assert(order[0] == whole.take(order.len() as int)[0]);
    }
}

/// The proof that a tree gives for some keys tells the value under each of them, zero for a key
/// that it does not hold, to one who knows the root hash.
///
/// This is so unless two different nodes of the tree have the same hash. The root hash of a tree
/// without entries has no proof.
pub proof fn law_multi_proof_tells<H: StarkHash>(
    trie: Trie,
    stored: Map<Felt, NodeView>,
    keys: Seq<Seq<bool>>,
    height: u8,
    multi_proof: MultiProof,
    i: int,
)
    requires
        trie.fits(height as nat),
        0 <= i < keys.len(),
        ({
            let (root, filed, error) = prove_keys::<H>(Some(trie), stored, keys, height as nat);
            &&& error is None
            &&& multi_proof@ == filed
            &&& collision_free::<H>(nodes_of::<H>(root->0))
        }),
    ensures
        ({
            let (root, filed, error) = prove_keys::<H>(Some(trie), stored, keys, height as nat);
            &&& root is Some && root->0.lookup(keys[i]) is Some
            &&& trie.lookup(keys[i]) is Some ==> root->0.lookup(keys[i]) == trie.lookup(keys[i])
            &&& multi_proof.finding::<H>(trie.hash::<H>(), keys[i], height) == Ok::<
                Felt,
                VerificationErrorView,
            >(root->0.lookup(keys[i])->0)
        }),
{
    let root = prove_keys::<H>(Some(trie), stored, keys, height as nat).0->0;
    lemma_prove_keys::<H>(trie, stored, keys, height as nat, nodes_of::<H>(root));
    law_proof_tells::<H>(root, multi_proof, keys[i], height);
}

} // verus!
