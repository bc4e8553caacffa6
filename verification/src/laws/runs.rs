//! Many changes in a row.

use crate::felt::{Felt, StarkHash};
use crate::laws::forking::{
    complete, follows, law_fork_follows, law_fork_starts, lemma_prunes_hash, lemma_prunes_nodes,
    root_nodes,
};
use crate::laws::insertion::{
    involved, law_insertions_go_on, law_insertions_start, law_known_nodes_stay,
    lemma_insertion_within, stocked,
};
use crate::laws::nodes::{
    collision_free, holds_way, lemma_collision_free_part, nodes_of, within,
};
use crate::laws::proving::law_whole_tree_proves;
use crate::laws::storing::lemma_store;
use crate::trie::loading::at_hand;
use crate::trie::merkle_node::NodeView;
use crate::trie::model::{own_hashed, well_filed, Trie};
use crate::trie::partial::insertion;
use crate::trie::partial_trie::{insert_at_root, PartialTrieErrorView};
use crate::trie::tree::{prove_keys, root_digest, root_way, seek_key};
use vstd::prelude::*;

verus! {

/// A tree with some entries set, one after the other.
pub open spec fn insert_all(root: Option<Trie>, entries: Seq<(Seq<bool>, Felt)>) -> Option<Trie>
    decreases entries.len(),
{
    if entries.len() == 0 {
        root
    } else {
        let (key, value) = entries.last();
        Some(insert_at_root(insert_all(root, entries.drop_last()), key, value))
    }
}

/// The entries can be set in a tree of height `n`.
pub open spec fn settable(entries: Seq<(Seq<bool>, Felt)>, n: nat) -> bool {
    forall|i: int|
        0 <= i < entries.len() ==> (#[trigger] entries[i]).0.len() == n && entries[i].1
            != Felt::of(0)
}

/// Every node of the tree at the beginning, and after each of the entries, is in the set.
pub open spec fn encompassed<H: StarkHash>(
    base: Option<Trie>,
    entries: Seq<(Seq<bool>, Felt)>,
    all: Set<NodeView>,
) -> bool {
    forall|i: int|
        0 <= i <= entries.len() ==> root_nodes::<H>(
            #[trigger] insert_all(base, entries.take(i)),
        ).subset_of(all)
}

/// A fork of a tree, in which some entries are set one after the other, each with the proof that
/// the tree gives for the key, and committed: the trie that it holds, the nodes that it stored,
/// and what kept it from going on.
pub open spec fn fork_run<H: StarkHash>(
    base: Option<Trie>,
    base_stored: Map<Felt, NodeView>,
    entries: Seq<(Seq<bool>, Felt)>,
    n: nat,
) -> (Option<Trie>, Map<Felt, NodeView>, Option<PartialTrieErrorView>)
    decreases entries.len(),
{
    if entries.len() == 0 {
        (None, Map::empty(), None)
    } else {
        let (root, stored, error) = fork_run::<H>(base, base_stored, entries.drop_last(), n);
        let (key, value) = entries.last();
        if error is Some {
            (root, stored, error)
        } else {
            let proof_nodes = prove_keys::<H>(base, base_stored, seq![key], n).1;
            let (found, error) = seek_key::<H>(
                root,
                root_digest::<H>(base),
                at_hand(stored, proof_nodes),
                key,
            );
            if error is Some {
                (found, stored, error)
            } else {
                let after = insert_at_root(found, key, value);
                (Some(after), after.store::<H>(stored), None)
            }
        }
    }
}

/// Parts of a run.
proof fn lemma_run_parts<H: StarkHash>(
    base: Option<Trie>,
    entries: Seq<(Seq<bool>, Felt)>,
    n: nat,
    all: Set<NodeView>,
)
    requires
        entries.len() > 0,
        settable(entries, n),
        encompassed::<H>(base, entries, all),
    ensures
        settable(entries.drop_last(), n),
        encompassed::<H>(base, entries.drop_last(), all),
        entries.last().0.len() == n,
        entries.last().1 != Felt::of(0),
        root_nodes::<H>(base).subset_of(all),
        root_nodes::<H>(insert_all(base, entries.drop_last())).subset_of(all),
        root_nodes::<H>(insert_all(base, entries)).subset_of(all),
{
    let earlier = entries.drop_last();
    let count = entries.len() as int;
    assert forall|i: int| 0 <= i < earlier.len() implies (#[trigger] earlier[i]).0.len() == n
        && earlier[i].1 != Felt::of(0) by {
        assert(earlier[i] == entries[i]);
    }
    assert(entries.last() == entries[count - 1]);
    assert forall|i: int| 0 <= i <= earlier.len() implies root_nodes::<H>(
        #[trigger] insert_all(base, earlier.take(i)),
    ).subset_of(all) by {
        assert(earlier.take(i) =~= entries.take(i));
        assert(root_nodes::<H>(insert_all(base, entries.take(i))).subset_of(all));
    }
    assert(entries.take(0) =~= Seq::<(Seq<bool>, Felt)>::empty());
    assert(entries.take(count) =~= entries);
    assert(entries.take(count - 1) =~= earlier);
    assert(root_nodes::<H>(insert_all(base, entries.take(0))).subset_of(all));
    assert(root_nodes::<H>(insert_all(base, entries.take(count))).subset_of(all));
    assert(root_nodes::<H>(insert_all(base, entries.take(count - 1))).subset_of(all));
}

/// The proof of one key of a tree holds the way to it, and has no nodes but those of the tree.
proof fn lemma_one_proof<H: StarkHash>(
    base: Option<Trie>,
    base_stored: Map<Felt, NodeView>,
    key: Seq<bool>,
    all: Set<NodeView>,
)
    requires
        base matches Some(trie) ==> complete(trie, key.len()),
        root_nodes::<H>(base).subset_of(all),
        collision_free::<H>(all),
    ensures
        ({
            let (root, proof_nodes, error) = prove_keys::<H>(
                base,
                base_stored,
                seq![key],
                key.len(),
            );
            &&& error is None
            &&& holds_way::<H>(proof_nodes, root_way::<H>(base, key))
            &&& well_filed::<H>(proof_nodes)
            &&& within(proof_nodes, all)
        }),
{
    let keys = seq![key];
    assert(keys[0] == key);
    match base {
        None => {
            assert(keys.drop_last() =~= Seq::<Seq<bool>>::empty());
            reveal_with_fuel(prove_keys, 2);
        },
        Some(trie) => {
            lemma_collision_free_part::<H>(nodes_of::<H>(trie), all);
            law_whole_tree_proves::<H>(trie, base_stored, keys, key.len());
            let proof_nodes = prove_keys::<H>(base, base_stored, keys, key.len()).1;
            assert forall|hash: Felt| #[trigger]
                proof_nodes.contains_key(hash) implies all.contains(proof_nodes[hash]) by {
                assert(nodes_of::<H>(trie).contains(proof_nodes[hash]));
            }
        },
    }
}

/// What holds of a fork after any number of entries.
proof fn lemma_fork_run<H: StarkHash>(
    base: Option<Trie>,
    base_stored: Map<Felt, NodeView>,
    entries: Seq<(Seq<bool>, Felt)>,
    n: nat,
    all: Set<NodeView>,
)
    requires
        base matches Some(trie) ==> complete(trie, n) && trie.hash::<H>() != Felt::of(0),
        settable(entries, n),
        encompassed::<H>(base, entries, all),
        collision_free::<H>(all),
    ensures
        ({
            let (root, stored, error) = fork_run::<H>(base, base_stored, entries, n);
            &&& error is None
            &&& entries.len() > 0 ==> root is Some
            &&& follows::<H>(root, root_digest::<H>(base), insert_all(base, entries), base, n)
            &&& well_filed::<H>(stored)
            &&& within(stored, all)
        }),
    decreases entries.len(),
{
    let original_root = root_digest::<H>(base);
    if entries.len() == 0 {
        law_fork_starts::<H>(base, n);
    } else {
        let earlier = entries.drop_last();
        let (key, value) = entries.last();
        lemma_run_parts::<H>(base, entries, n, all);
        lemma_fork_run::<H>(base, base_stored, earlier, n, all);
        lemma_one_proof::<H>(base, base_stored, key, all);
        let (root, stored, _) = fork_run::<H>(base, base_stored, earlier, n);
        let proof_nodes = prove_keys::<H>(base, base_stored, seq![key], n).1;
        let whole = insert_all(base, earlier);
        let used = root_nodes::<H>(whole).union(stored.values()).union(proof_nodes.values());
        assert(used.subset_of(all));
        lemma_collision_free_part::<H>(used, all);
        law_fork_follows::<H>(
            root,
            original_root,
            whole,
            base,
            stored,
            proof_nodes,
            base_stored,
            key,
            value,
        );
        let found = seek_key::<H>(root, original_root, at_hand(stored, proof_nodes), key).0;
        let after = insert_at_root(found, key, value);
        lemma_prunes_nodes::<H>(after, insert_all(base, entries)->0);
        lemma_store::<H>(after, stored, all);
    }
}

/// A fork of a tree keeps up with the tree through any number of changes, though each comes with
/// the proof of the tree as it was at first: every change succeeds, and after it both have the same
/// root hash. This is so unless two different nodes have the same hash.
pub proof fn law_fork_keeps_up<H: StarkHash>(
    base: Option<Trie>,
    base_stored: Map<Felt, NodeView>,
    entries: Seq<(Seq<bool>, Felt)>,
    n: nat,
    all: Set<NodeView>,
)
    requires
        base matches Some(trie) ==> complete(trie, n) && trie.hash::<H>() != Felt::of(0),
        entries.len() > 0,
        settable(entries, n),
        encompassed::<H>(base, entries, all),
        collision_free::<H>(all),
    ensures
        ({
            let (root, stored, error) = fork_run::<H>(base, base_stored, entries, n);
            &&& error is None
            &&& root_digest::<H>(root) == root_digest::<H>(insert_all(base, entries))
        }),
{
    lemma_fork_run::<H>(base, base_stored, entries, n, all);
    let root = fork_run::<H>(base, base_stored, entries, n).0;
    lemma_prunes_hash::<H>(root->0, insert_all(base, entries)->0);
}

/// The root hashes that insertions tell, one after the other, each with the proof that the tree of
/// the beginning gives for the key: the last root hash that was told, and the nodes that are known
/// then.
pub open spec fn insertion_run<H: StarkHash>(
    base: Trie,
    base_stored: Map<Felt, NodeView>,
    entries: Seq<(Seq<bool>, Felt)>,
    n: nat,
) -> (Option<Felt>, Map<Felt, NodeView>)
    decreases entries.len(),
{
    if entries.len() == 0 {
        (Some(base.hash::<H>()), Map::empty())
    } else {
        let (root, known) = insertion_run::<H>(base, base_stored, entries.drop_last(), n);
        let (key, value) = entries.last();
        match root {
            None => (None, known),
            Some(root) => {
                let proof_nodes = prove_keys::<H>(Some(base), base_stored, seq![key], n).1;
                let (told, after) = insertion::<H>(known, proof_nodes, root, key, value);
                (told, own_hashed::<H>(after))
            },
        }
    }
}

/// What holds after any number of insertions.
proof fn lemma_insertion_run<H: StarkHash>(
    base: Trie,
    base_stored: Map<Felt, NodeView>,
    entries: Seq<(Seq<bool>, Felt)>,
    n: nat,
    all: Set<NodeView>,
)
    requires
        complete(base, n),
        settable(entries, n),
        encompassed::<H>(Some(base), entries, all),
        collision_free::<H>(all),
    ensures
        ({
            let (root, known) = insertion_run::<H>(base, base_stored, entries, n);
            let trie = insert_all(Some(base), entries)->0;
            &&& insert_all(Some(base), entries) is Some
            &&& complete(trie, n)
            &&& root == Some(trie.hash::<H>())
            &&& well_filed::<H>(known)
            &&& within(known, all)
            &&& stocked::<H>(trie, known, base, n)
        }),
    decreases entries.len(),
{
    if entries.len() == 0 {
        law_insertions_start::<H>(base, n);
    } else {
        let earlier = entries.drop_last();
        let (key, value) = entries.last();
        lemma_run_parts::<H>(Some(base), entries, n, all);
        lemma_insertion_run::<H>(base, base_stored, earlier, n, all);
        lemma_one_proof::<H>(Some(base), base_stored, key, all);
        let (root, known) = insertion_run::<H>(base, base_stored, earlier, n);
        let proof_nodes = prove_keys::<H>(Some(base), base_stored, seq![key], n).1;
        let trie = insert_all(Some(base), earlier)->0;
        let used = involved::<H>(trie, known, proof_nodes, key, value);
        assert(used.subset_of(all));
        lemma_collision_free_part::<H>(used, all);
        law_insertions_go_on::<H>(trie, known, base, proof_nodes, key, value);
        lemma_insertion_within::<H>(trie, known, proof_nodes, key, value);
        law_known_nodes_stay::<H>(known, proof_nodes, trie.hash::<H>(), key, value);
        let after = insertion::<H>(known, proof_nodes, trie.hash::<H>(), key, value).1;
        assert forall|hash: Felt| #[trigger] after.contains_key(hash) implies all.contains(
            after[hash],
        ) by {
            assert(used.contains(after[hash]));
        }
    }
}

/// Any number of insertions, each from the root hash that the one before told, and each with the
/// proof of the tree as it was at first, succeed and tell the root hash of the tree with all the
/// entries. This is so unless two different nodes have the same hash.
pub proof fn law_insertions_keep_up<H: StarkHash>(
    base: Trie,
    base_stored: Map<Felt, NodeView>,
    entries: Seq<(Seq<bool>, Felt)>,
    n: nat,
    all: Set<NodeView>,
)
    requires
        complete(base, n),
        settable(entries, n),
        encompassed::<H>(Some(base), entries, all),
        collision_free::<H>(all),
    ensures
        insertion_run::<H>(base, base_stored, entries, n).0 == Some(
            root_digest::<H>(insert_all(Some(base), entries)),
        ),
{
    lemma_insertion_run::<H>(base, base_stored, entries, n, all);
}

} // verus!
