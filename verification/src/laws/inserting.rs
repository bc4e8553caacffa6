//! Insertion into a trie that is known by hashes, node by node.

use crate::felt::{prime, Felt, StarkHash};
use crate::trie::hops::{hop, lands, lands_after, lemma_hops_end};
use crate::trie::loading::at_hand;
use crate::trie::merkle_node::NodeView;
use crate::trie::model::{own_hashed, Trie};
use crate::trie::partial::{insertion, insertion_at, lemma_empty_edge, lemma_take_node};
use crate::trie::path::{bits_value, lemma_common_len_unique};
use vstd::prelude::*;

verus! {

/// The hash of an edge with the bits `path` over a node with the hash `hash`.
pub open spec fn hash_over<H: StarkHash>(path: Seq<bool>, hash: Felt) -> Felt {
    Felt::of((H::hash_of(hash, Felt::of(bits_value(path) % prime()))@ + path.len()) % prime())
}

/// The hash at the top of the bits `path` over a node with the hash `hash`: that of an edge, or of
/// the node itself if there are no bits.
pub open spec fn top_over<H: StarkHash>(path: Seq<bool>, hash: Felt) -> Felt {
    if path.len() == 0 {
        hash
    } else {
        hash_over::<H>(path, hash)
    }
}

/// A binary node.
pub open spec fn binary_node(left: Felt, right: Felt) -> NodeView {
    NodeView::Binary { left, right }
}

/// An edge.
pub open spec fn edge_node(path: Seq<bool>, child: Felt) -> NodeView {
    NodeView::Edge { child, path }
}

/// The nodes with a binary node added.
pub open spec fn with_binary<H: StarkHash>(
    nodes: Map<Felt, NodeView>,
    left: Felt,
    right: Felt,
) -> Map<Felt, NodeView> {
    nodes.insert(H::hash_of(left, right), binary_node(left, right))
}

/// The nodes with an edge added, unless it would have no bits.
pub open spec fn with_top<H: StarkHash>(
    nodes: Map<Felt, NodeView>,
    path: Seq<bool>,
    hash: Felt,
) -> Map<Felt, NodeView> {
    if path.len() == 0 {
        nodes
    } else {
        nodes.insert(hash_over::<H>(path, hash), edge_node(path, hash))
    }
}

/// The node with the hash `at` is known, or else in the proof.
pub open spec fn found(
    known: Map<Felt, NodeView>,
    proof_nodes: Map<Felt, NodeView>,
    at: Felt,
    node: NodeView,
) -> bool {
    if known.contains_key(at) {
        known[at] == node
    } else {
        proof_nodes.contains_key(at) && proof_nodes[at] == node
    }
}

/// What is at hand is what is stored, and of the rest what the proof brings.
pub proof fn law_stored_comes_first(
    stored: Map<Felt, NodeView>,
    proof_nodes: Map<Felt, NodeView>,
    hash: Felt,
    node: NodeView,
)
    ensures
        at_hand(stored, proof_nodes).contains_pair(hash, node) <==> found(
            stored,
            proof_nodes,
            hash,
            node,
        ),
        at_hand(stored, proof_nodes).contains_key(hash) <==> stored.contains_key(hash)
            || proof_nodes.contains_key(hash),
{
}

/// The nodes that stand under their own hashes are kept as they are, and no others.
pub proof fn law_own_hashed<H: StarkHash>(
    nodes: Map<Felt, NodeView>,
    hash: Felt,
    left: Felt,
    right: Felt,
    path: Seq<bool>,
    child: Felt,
)
    ensures
        own_hashed::<H>(nodes).contains_pair(hash, binary_node(left, right))
            <==> nodes.contains_pair(hash, binary_node(left, right)) && hash == H::hash_of(
            left,
            right,
        ),
        own_hashed::<H>(nodes).contains_pair(hash, edge_node(path, child))
            <==> nodes.contains_pair(hash, edge_node(path, child)) && hash == hash_over::<H>(
            path,
            child,
        ),
{
}

/// Where an insertion ends: at the end of the key with the value, or at a node that is neither
/// known nor in the proof. Nothing becomes known there.
pub proof fn law_insertion_ends<H: StarkHash>(
    known: Map<Felt, NodeView>,
    proof_nodes: Map<Felt, NodeView>,
    at: Felt,
    key: Seq<bool>,
    value: Felt,
)
    ensures
        key.len() == 0 ==> insertion::<H>(known, proof_nodes, at, key, value) == (
            Some(value),
            known,
        ),
        key.len() > 0 && !known.contains_key(at) && !proof_nodes.contains_key(at)
            ==> insertion::<H>(known, proof_nodes, at, key, value) == (None::<Felt>, known),
{
    reveal_with_fuel(insertion, 2);
    reveal_with_fuel(insertion_at, 2);
}

/// At a binary node an insertion goes on at the child that the next bit selects. The node with the
/// new hash of that child takes the place of the node.
pub proof fn law_insertion_at_binary_node<H: StarkHash>(
    known: Map<Felt, NodeView>,
    proof_nodes: Map<Felt, NodeView>,
    at: Felt,
    key: Seq<bool>,
    value: Felt,
    left: Felt,
    right: Felt,
)
    requires
        key.len() > 0,
        found(known, proof_nodes, at, binary_node(left, right)),
    ensures
        ({
            let now = known.insert(at, binary_node(left, right));
            let (hash, below) = insertion::<H>(
                now,
                proof_nodes,
                if key[0] {
                    right
                } else {
                    left
                },
                key.skip(1),
                value,
            );
            insertion::<H>(known, proof_nodes, at, key, value) == match hash {
                None => (None::<Felt>, below),
                Some(hash) => if key[0] {
                    (Some(H::hash_of(left, hash)), with_binary::<H>(below, left, hash))
                } else {
                    (Some(H::hash_of(hash, right)), with_binary::<H>(below, hash, right))
                },
            }
        }),
{
    lemma_take_node(known, proof_nodes, at);
    assert(known.contains_key(at) ==> known.insert(at, known[at]) =~= known);
}

/// At an edge that the key follows an insertion goes on at the child. The edge to the new hash of
/// the child takes the place of the edge.
pub proof fn law_insertion_along_edge<H: StarkHash>(
    known: Map<Felt, NodeView>,
    proof_nodes: Map<Felt, NodeView>,
    at: Felt,
    key: Seq<bool>,
    value: Felt,
    path: Seq<bool>,
    child: Felt,
)
    requires
        0 < path.len() <= key.len(),
        path == key.take(path.len() as int),
        found(known, proof_nodes, at, edge_node(path, child)),
    ensures
        ({
            let now = known.insert(at, edge_node(path, child));
            let (hash, below) = insertion::<H>(
                now,
                proof_nodes,
                child,
                key.skip(path.len() as int),
                value,
            );
            insertion::<H>(known, proof_nodes, at, key, value) == match hash {
                None => (None::<Felt>, below),
                Some(hash) => (Some(hash_over::<H>(path, hash)), with_top::<H>(below, path, hash)),
            }
        }),
{
    lemma_take_node(known, proof_nodes, at);
    assert(known.contains_key(at) ==> known.insert(at, known[at]) =~= known);
    if key.is_prefix_of(path) {
        assert(key =~= path);
    }
}

/// An edge that the key leaves after `n` bits is forked. The bits before stay an edge, unless there
/// are none. Below them a binary node leads to the value and to what the edge led to, each at the
/// end of the bits that are left to it. An edge is put over either only if bits are left.
pub proof fn law_insertion_forks_edge<H: StarkHash>(
    known: Map<Felt, NodeView>,
    proof_nodes: Map<Felt, NodeView>,
    at: Felt,
    key: Seq<bool>,
    value: Felt,
    path: Seq<bool>,
    child: Felt,
    n: int,
)
    requires
        0 <= n < path.len(),
        n < key.len(),
        path.take(n) == key.take(n),
        path[n] != key[n],
        found(known, proof_nodes, at, edge_node(path, child)),
    ensures
        ({
            let now = known.insert(at, edge_node(path, child));
            let new = top_over::<H>(key.skip(n + 1), value);
            let old_part = top_over::<H>(path.skip(n + 1), child);
            let (left, right, below) = if key[n] {
                (
                    old_part,
                    new,
                    with_top::<H>(
                        with_top::<H>(now, path.skip(n + 1), child),
                        key.skip(n + 1),
                        value,
                    ),
                )
            } else {
                (
                    new,
                    old_part,
                    with_top::<H>(
                        with_top::<H>(now, key.skip(n + 1), value),
                        path.skip(n + 1),
                        child,
                    ),
                )
            };
            insertion::<H>(known, proof_nodes, at, key, value) == (
                Some(top_over::<H>(key.take(n), H::hash_of(left, right))),
                with_top::<H>(
                    with_binary::<H>(below, left, right),
                    key.take(n),
                    H::hash_of(left, right),
                ),
            )
        }),
{
    lemma_take_node(known, proof_nodes, at);
    assert(known.contains_key(at) ==> known.insert(at, known[at]) =~= known);
    lemma_common_len_unique(path, key, n as nat);
    assert(!path.is_prefix_of(key)) by {
        if path.is_prefix_of(key) {
            assert(path[n] == key[n]);
        }
    }
    assert(!key.is_prefix_of(path)) by {
        if key.is_prefix_of(path) {
            assert(path[n] == key[n]);
        }
    }
    reveal_with_fuel(Trie::hash, 4);
    reveal_with_fuel(Trie::store, 4);
}

/// Where an edge runs on after the end of the key, the value and what the edge led to stand side by
/// side at the end of the key.
pub proof fn law_insertion_above_edge_end<H: StarkHash>(
    known: Map<Felt, NodeView>,
    proof_nodes: Map<Felt, NodeView>,
    at: Felt,
    key: Seq<bool>,
    value: Felt,
    path: Seq<bool>,
    child: Felt,
)
    requires
        0 < key.len() < path.len(),
        key == path.take(key.len() as int),
        found(known, proof_nodes, at, edge_node(path, child)),
    ensures
        insertion::<H>(known, proof_nodes, at, key, value) == (
            Some(hash_over::<H>(key, H::hash_of(value, child))),
            with_top::<H>(
                with_binary::<H>(known.insert(at, edge_node(path, child)), value, child),
                key,
                H::hash_of(value, child),
            ),
        ),
{
    lemma_take_node(known, proof_nodes, at);
    assert(known.contains_key(at) ==> known.insert(at, known[at]) =~= known);
    reveal_with_fuel(Trie::hash, 3);
    reveal_with_fuel(Trie::store, 3);
}

/// An edge without bits is followed to its child on the same level if it leads to a node of another
/// kind in the end. If it does not, the value and the child are put side by side.
pub proof fn law_insertion_at_empty_edge<H: StarkHash>(
    known: Map<Felt, NodeView>,
    proof_nodes: Map<Felt, NodeView>,
    at: Felt,
    key: Seq<bool>,
    value: Felt,
    child: Felt,
)
    requires
        key.len() > 0,
        found(known, proof_nodes, at, edge_node(Seq::empty(), child)),
    ensures
        ({
            let now = known.insert(at, edge_node(Seq::empty(), child));
            let (hash, below) = insertion::<H>(now, proof_nodes, child, key, value);
            insertion::<H>(known, proof_nodes, at, key, value) == if lands(
                at_hand(known, proof_nodes),
                at,
            ) {
                match hash {
                    None => (None::<Felt>, below),
                    Some(hash) => (
                        Some(hash_over::<H>(Seq::empty(), hash)),
                        below.insert(
                            hash_over::<H>(Seq::empty(), hash),
                            edge_node(Seq::empty(), hash),
                        ),
                    ),
                }
            } else {
                (Some(H::hash_of(value, child)), with_binary::<H>(now, value, child))
            }
        }),
{
    lemma_take_node(known, proof_nodes, at);
    lemma_empty_edge(at_hand(known, proof_nodes), at);
    assert(known.contains_key(at) ==> known.insert(at, known[at]) =~= known);
    reveal_with_fuel(Trie::hash, 3);
    reveal_with_fuel(Trie::store, 3);
}

/// Edges without bits lead from each hash to the next.
pub open spec fn is_chain(nodes: Map<Felt, NodeView>, chain: Seq<Felt>) -> bool {
    &&& chain.len() > 0
    &&& forall|i: int|
        0 <= i < chain.len() - 1 ==> nodes.contains_pair(
            #[trigger] chain[i],
            edge_node(Seq::empty(), chain[i + 1]),
        )
}

/// A hash has a node other than an edge without bits.
pub open spec fn has_bits(nodes: Map<Felt, NodeView>, hash: Felt) -> bool {
    nodes.contains_key(hash) && (nodes[hash] matches NodeView::Edge { path, .. } ==> path.len()
        > 0)
}

/// Hops go along a chain.
proof fn lemma_chain_hops(nodes: Map<Felt, NodeView>, chain: Seq<Felt>, n: nat)
    requires
        is_chain(nodes, chain),
        n < chain.len(),
    ensures
        hop(nodes, chain[0], n) == Some(chain[n as int]),
    decreases n,
{
    if n > 0 {
        lemma_chain_hops(nodes, chain, (n - 1) as nat);
        assert(nodes.contains_pair(chain[n - 1], edge_node(Seq::empty(), chain[n as int])));
    }
}

/// A node of another kind is reached if and only if edges without bits lead to one from hash to
/// hash.
pub proof fn law_landing(nodes: Map<Felt, NodeView>, at: Felt, chain: Seq<Felt>)
    ensures
        is_chain(nodes, chain) && chain[0] == at && has_bits(nodes, chain.last()) ==> lands(
            nodes,
            at,
        ),
        lands(nodes, at) ==> exists|to: Seq<Felt>| #[trigger]
            is_chain(nodes, to) && to[0] == at && has_bits(nodes, to.last()),
{
    if is_chain(nodes, chain) && chain[0] == at && has_bits(nodes, chain.last()) {
        let n = (chain.len() - 1) as nat;
        lemma_chain_hops(nodes, chain, n);
        assert(hop(nodes, at, n + 1) is None);
        assert(lands_after(nodes, at, n));
    }
    if lands(nodes, at) {
        let n = choose|n: nat| lands_after(nodes, at, n);
        let to = Seq::new(n + 1, |i: int| hop(nodes, at, i as nat)->0);
        assert forall|i: nat| i <= n implies #[trigger] hop(nodes, at, i) is Some by {
            if hop(nodes, at, i) is None {
                lemma_hops_end(nodes, at, i, n);
            }
        }
        assert forall|i: int| 0 <= i < to.len() - 1 implies nodes.contains_pair(
            #[trigger] to[i],
            edge_node(Seq::empty(), to[i + 1]),
        ) by {
            assert(hop(nodes, at, i as nat) is Some);
            assert(hop(nodes, at, (i + 1) as nat) is Some);
            assert(nodes[to[i]]->path =~= Seq::empty());
        }
        assert(is_chain(nodes, to));
        assert(hop(nodes, at, 0) == Some(at));
        assert(to.last() == hop(nodes, at, n)->0);
    }
}

} // verus!
