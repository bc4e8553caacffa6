//! Seeking a key in a tree of which only some parts are known.

use crate::felt::{Felt, StarkHash};
use crate::laws::contents::{law_set_is_map_update, root_lookup};
use crate::laws::forking::prunes;
use crate::laws::places::{has_node_at, part_at};
use crate::laws::reading::{law_loading_adds_the_way, law_loading_stops, provable, refused};
use crate::trie::loading::{lemma_load_way_hash, lemma_load_way_idle, load_way};
use crate::trie::merkle_node::NodeView;
use crate::trie::model::{lead, lemma_insert_fits, lemma_insert_lookup, Trie};
use crate::trie::partial_trie::{insert_at_root, PartialTrieErrorView};
use crate::trie::tree::{root_digest, seek_key, set_value, starting_point};
use vstd::prelude::*;

verus! {

/// Where seeking starts: at the tree that is there. If none is, the root hash stands for it, unless
/// it is zero.
pub proof fn law_where_seeking_starts(root: Option<Trie>, original_root: Felt)
    ensures
        match root {
            Some(trie) => starting_point(root, original_root) == Some(trie),
            None => match starting_point(root, original_root) {
                None => original_root@ == 0,
                Some(trie) => original_root@ != 0 && trie is Digest && trie->0 == original_root,
            },
        },
{
    Felt::lemma_view_of(0);
    original_root.lemma_of_view();
}

/// Nothing is sought in a tree without entries.
pub proof fn law_nothing_to_seek<H: StarkHash>(nodes: Map<Felt, NodeView>, key: Seq<bool>)
    ensures
        seek_key::<H>(None, Felt::of(0), nodes, key) == (
            None::<Trie>,
            None::<PartialTrieErrorView>,
        ),
{
}

/// Seeking a key in a tree with entries puts nodes over the key in the place of their hashes, and
/// changes nothing else. If it succeeds, the value under the key is known. If it fails, it stops at
/// a hash over the key whose node cannot be loaded, and the error says why. It succeeds if and only
/// if the way to the key can be loaded.
pub proof fn law_seeking<H: StarkHash>(
    root: Option<Trie>,
    original_root: Felt,
    nodes: Map<Felt, NodeView>,
    key: Seq<bool>,
    bits: Seq<bool>,
) -> (stop: nat)
    requires
        starting_point(root, original_root) is Some,
        root matches Some(trie) ==> trie.fits(key.len()),
    ensures
        ({
            let start = starting_point(root, original_root)->0;
            let (found, error) = seek_key::<H>(root, original_root, nodes, key);
            let seen = match found {
                Some(trie) => trie,
                None => start,
            };
            &&& error is None <==> provable::<H>(start, nodes, key, key.len())
            &&& prunes::<H>(start, seen)
            &&& seen.fits(key.len())
            &&& seen.hash::<H>() == start.hash::<H>()
            &&& has_node_at(seen, bits) ==> has_node_at(start, bits) || bits.is_prefix_of(key)
            &&& found is None ==> root is None && error is Some
            &&& match error {
                None => seen.lookup(key) is Some,
                Some(error) => {
                    &&& stop < key.len()
                    &&& part_at(seen, key.take(stop as int)) matches Some(part) && part is Digest
                        && refused::<H>(nodes, key, stop, part->0, error)
                },
            }
        }),
{
    let start = starting_point(root, original_root)->0;
    law_loading_adds_the_way::<H>(start, nodes, key, bits);
    let loaded = load_way::<H>(start, nodes, key, 0).0;
    if loaded is Digest {
        assert(loaded == start) by {
            lemma_load_way_hash::<H>(start, nodes, key, 0);
        }
    }
    law_loading_stops::<H>(start, nodes, key)
}

/// Seeking a key whose value is known changes nothing.
pub proof fn law_seeking_again<H: StarkHash>(
    trie: Trie,
    original_root: Felt,
    nodes: Map<Felt, NodeView>,
    key: Seq<bool>,
)
    requires
        trie.fits(key.len()),
        trie.lookup(key) is Some,
    ensures
        seek_key::<H>(Some(trie), original_root, nodes, key) == (
            Some(trie),
            None::<PartialTrieErrorView>,
        ),
{
    assert(key.skip(0) =~= key);
    lemma_load_way_idle::<H>(trie, nodes, key, 0);
}

/// Putting a value under a key whose value is known gives the tree with the value under the key and
/// every other value as it was.
pub proof fn law_putting_at_root<H: StarkHash>(
    root: Option<Trie>,
    key: Seq<bool>,
    value: Felt,
    other: Seq<bool>,
)
    requires
        value != Felt::of(0),
        root matches Some(trie) ==> trie.fits(key.len()) && trie.lookup(key) is Some,
        other.len() == key.len(),
    ensures
        ({
            let after = insert_at_root(root, key, value);
            &&& after.fits(key.len())
            &&& after.lookup(other) == if other == key {
                Some(value)
            } else {
                root_lookup(root, other)
            }
        }),
{
    match root {
        None => {
            law_set_is_map_update::<H>(None, Map::empty(), key, value, other);
            assert(set_value::<H>(None, Map::empty(), key, value).0 == Some(
                insert_at_root(None, key, value),
            ));
            reveal_with_fuel(Trie::fits, 2);
            assert(lead(key, Trie::Digest(value)).fits(key.len()));
        },
        Some(trie) => {
            lemma_insert_fits(trie, key, value);
            lemma_insert_lookup(trie, key, value, other);
        },
    }
}

/// The root hash of a tree without entries is zero.
pub proof fn law_root_hash_of_nothing<H: StarkHash>(root: Option<Trie>)
    ensures
        match root {
            None => root_digest::<H>(root)@ == 0,
            Some(trie) => root_digest::<H>(root) == trie.hash::<H>(),
        },
{
    Felt::lemma_view_of(0);
}

} // verus!
