//! A trie that is known by its root hash and by the nodes that proofs brought along.

use crate::felt::{Felt, StarkHash};
use crate::laws::insertion::{
    keeps_hashes, law_insertion_keeps_own_hashes, law_insertion_loses_nothing,
    law_known_nodes_stay,
};
use crate::trie::hops::{
    hop, hops, lands, lands_after, lemma_hops_circle, lemma_hops_end, lemma_hops_step,
    lemma_hops_unique,
};
use crate::trie::loading::at_hand;
use crate::trie::merkle_node::{
    hash_binary_node, hash_edge_node, node_hash, with_child, Direction, NodeView,
};
use crate::trie::model::{fork, lead, lemma_store_filed, own_hashed, well_filed, Trie};
use crate::trie::node_map::NodeMap;
use crate::trie::path::{
    common_path, lemma_common_len, lemma_common_len_unique, lemma_prefix_common, slice_of, Path,
};
use crate::trie::proofs::{MultiProof, ProofNode};
use core::marker::PhantomData;
use vstd::prelude::*;

verus! {

/// Why a root could not be told.
#[derive(Clone, Copy, Debug, PartialEq, Eq, Structural)]
pub enum PartialTrieError {
    /// A node on the way to the key is not at hand.
    NodeNotFound,
}

impl PartialTrieError {
    /// What the error says to a reader.
    pub fn message(&self) -> (r: String)
        ensures
            r@ == "Node not found in proof"@,
    {
        match self {
            PartialTrieError::NodeNotFound => "Node not found in proof".to_owned(),
        }
    }
}

/// The nodes that are known already.
#[derive(Debug)]
pub struct NodeCache {
    nodes: NodeMap,
}

impl View for NodeCache {
    type V = Map<Felt, NodeView>;

    closed spec fn view(&self) -> Map<Felt, NodeView> {
        self.nodes@
    }
}

impl NodeCache {
    /// A cache without nodes.
    pub fn new() -> (r: NodeCache)
        ensures
            r@ == Map::<Felt, NodeView>::empty(),
    {
        NodeCache { nodes: NodeMap::new() }
    }

    /// The node under a hash.
    pub fn get(&self, hash: &Felt) -> (r: Option<&ProofNode>)
        ensures
            r is Some <==> self@.contains_key(*hash),
            r matches Some(node) ==> node@ == self@[*hash],
    {
        self.nodes.get(hash)
    }

    /// Puts a node under a hash, in place of any node that was there.
    pub fn insert(&mut self, hash: Felt, node: ProofNode)
        ensures
            final(self)@ == old(self)@.insert(hash, node@),
    {
        self.nodes.insert(hash, node);
    }

    /// The number of nodes.
    pub fn len(&self) -> (r: usize)
        ensures
            self@.dom().finite(),
            r == self@.len(),
    {
        self.nodes.len()
    }

    /// Drops the nodes that do not stand under their own hashes.
    fn keep_own_hashed<H: StarkHash>(&mut self)
        ensures
            final(self)@ == own_hashed::<H>(old(self)@),
    {
        let ghost before = self@;
        let ghost order = self.nodes.order();
        let count: usize = self.nodes.len();
        let mut kept = NodeMap::new();
        let mut i: usize = 0;
        while i < count
            invariant
                i <= count == order.len(),
                before == self@,
                self@ == self.nodes@,
                order == self.nodes.order(),
                forall|hash: Felt| #[trigger]
                    kept@.contains_key(hash) <==> order.take(i as int).contains(hash)
                        && node_hash::<H>(before[hash]) == hash,
                forall|hash: Felt| #[trigger]
                    kept@.contains_key(hash) ==> kept@[hash] == before[hash],
            decreases count - i,
        {
            let (hash, node) = self.nodes.entry(i);
            proof {
                let (upper, all) = (order.take(i as int), order.take(i + 1));
                assert(all =~= upper.push(hash));
                assert forall|other: Felt|
                    all.contains(other) <==> upper.contains(other) || other == hash by {
                    if upper.contains(other) {
                        let j = choose|j: int| 0 <= j < upper.len() && upper[j] == other;
                        assert(all[j] == other);
                    }
                    assert(all[i as int] == hash);
                }
            }
            if node.hash::<H>() == hash {
                kept.insert(hash, node.clone());
            }
            i += 1;
        }
        proof {
            assert(order.take(count as int) =~= order);
            assert forall|hash: Felt| order.contains(hash) <==> before.contains_key(hash) by {
                assert(order.to_set().contains(hash) <==> order.contains(hash));
            }
            assert(kept@ =~= own_hashed::<H>(before));
        }
        self.nodes = kept;
    }
}

/// The outcome of an insertion below a node, carried over the node itself: the new hash of the
/// node, and the nodes that are known after it.
pub open spec fn carry_up<H: StarkHash>(
    node: NodeView,
    bit: bool,
    below: (Option<Felt>, Map<Felt, NodeView>),
) -> (Option<Felt>, Map<Felt, NodeView>) {
    match below.0 {
        None => below,
        Some(hash) => {
            let new = with_child(node, bit, hash);
            (Some(node_hash::<H>(new)), below.1.insert(node_hash::<H>(new), new))
        },
    }
}

/// The nodes that are known once the node with a hash is taken from the proof.
pub open spec fn take_node(
    known: Map<Felt, NodeView>,
    proof_nodes: Map<Felt, NodeView>,
    at: Felt,
) -> Map<Felt, NodeView> {
    if !known.contains_key(at) && proof_nodes.contains_key(at) {
        known.insert(at, proof_nodes[at])
    } else {
        known
    }
}

/// Taking a node from the proof leaves the nodes that are at hand.
pub proof fn lemma_take_node(
    known: Map<Felt, NodeView>,
    proof_nodes: Map<Felt, NodeView>,
    at: Felt,
)
    ensures
        at_hand(take_node(known, proof_nodes, at), proof_nodes) == at_hand(known, proof_nodes),
        take_node(known, proof_nodes, at).contains_key(at) <==> at_hand(
            known,
            proof_nodes,
        ).contains_key(at),
{
    assert(at_hand(take_node(known, proof_nodes, at), proof_nodes) =~= at_hand(
        known,
        proof_nodes,
    ));
}

/// At the end of a path, a binary node with `value` on the left and `child` on the right.
pub open spec fn beside(path: Seq<bool>, value: Felt, child: Felt) -> Trie {
    lead(
        path,
        Trie::Binary {
            left: Box::new(Trie::Digest(value)),
            right: Box::new(Trie::Digest(child)),
        },
    )
}

/// What it comes to to put a trie in the place of a node: its hash, and the nodes that are known
/// with those of the trie.
pub open spec fn replacement<H: StarkHash>(
    known: Map<Felt, NodeView>,
    trie: Trie,
) -> (Option<Felt>, Map<Felt, NodeView>) {
    (Some(trie.hash::<H>()), trie.store::<H>(known))
}

/// What it comes to to put `value` under `key` into the trie with the hash `at`: the hash that
/// the trie has then, unless a node on the way is missing, and the nodes that are known then.
///
/// Known nodes come before those of the proof. A node that comes from the proof is known from then
/// on.
pub open spec fn insertion<H: StarkHash>(
    known: Map<Felt, NodeView>,
    proof_nodes: Map<Felt, NodeView>,
    at: Felt,
    key: Seq<bool>,
    value: Felt,
) -> (Option<Felt>, Map<Felt, NodeView>)
    decreases key.len(), hops(at_hand(known, proof_nodes), at), 1int,
{
    proof {
        lemma_take_node(known, proof_nodes, at);
    }
    if key.len() == 0 {
        (Some(value), known)
    } else {
        insertion_at::<H>(take_node(known, proof_nodes, at), proof_nodes, at, key, value)
    }
}

/// What it comes to to put `value` under `key` into the trie below the known node with the hash
/// `at`.
///
/// An edge that the key follows stays. One that the key leaves is forked. Where an edge runs on
/// after the end of the key, the value and what the edge leads to are put side by side at the end
/// of the key. An edge without bits is followed to its child on the same level, but if no node of
/// another kind comes after it, the value and the child are put side by side.
pub open spec fn insertion_at<H: StarkHash>(
    known: Map<Felt, NodeView>,
    proof_nodes: Map<Felt, NodeView>,
    at: Felt,
    key: Seq<bool>,
    value: Felt,
) -> (Option<Felt>, Map<Felt, NodeView>)
    decreases key.len(), hops(at_hand(known, proof_nodes), at), 0int,
{
    if key.len() == 0 || !known.contains_key(at) {
        (None, known)
    } else {
        match known[at] {
            NodeView::Binary { left, right } => {
                let child = if key[0] {
                    right
                } else {
                    left
                };
                carry_up::<H>(
                    known[at],
                    key[0],
                    insertion::<H>(known, proof_nodes, child, key.skip(1), value),
                )
            },
            NodeView::Edge { child, path } => if path.len() == 0 {
                if lands(at_hand(known, proof_nodes), at) {
                    proof {
                        lemma_empty_edge(at_hand(known, proof_nodes), at);
                    }
                    carry_up::<H>(
                        known[at],
                        key[0],
                        insertion::<H>(known, proof_nodes, child, key, value),
                    )
                } else {
                    replacement::<H>(known, beside(path, value, child))
                }
            } else if key.is_prefix_of(path) && key != path {
                replacement::<H>(known, beside(key, value, child))
            } else if path.is_prefix_of(key) {
                carry_up::<H>(
                    known[at],
                    key[0],
                    insertion::<H>(
                        known,
                        proof_nodes,
                        child,
                        key.skip(path.len() as int),
                        value,
                    ),
                )
            } else {
                replacement::<H>(known, fork(path, Trie::Digest(child), key, value))
            },
        }
    }
}

/// An edge without bits is one hop.
pub proof fn lemma_empty_edge(nodes: Map<Felt, NodeView>, at: Felt)
    ensures
        nodes.contains_key(at) && nodes[at] is Edge && nodes[at]->path.len() == 0 ==> {
            let child = nodes[at]->child;
            &&& hop(nodes, at, 1) == Some(child)
            &&& lands(nodes, at) <==> lands(nodes, child)
            &&& lands(nodes, at) ==> hops(nodes, at) == hops(nodes, child) + 1
        },
        !nodes.contains_key(at) || nodes[at] is Binary || nodes[at]->path.len() > 0 ==> hop(
            nodes,
            at,
            1,
        ) is None,
{
    reveal_with_fuel(hop, 2);
    if hop(nodes, at, 1) is Some {
        lemma_hops_step(nodes, at);
    }
}

/// Hops that lead to a hash without a node lead to no node of another kind.
proof fn lemma_no_landing(nodes: Map<Felt, NodeView>, at: Felt, n: nat)
    requires
        hop(nodes, at, n) matches Some(hash) && !nodes.contains_key(hash),
    ensures
        !lands(nodes, at),
{
    assert(hop(nodes, at, n + 1) is None);
    if lands(nodes, at) {
        let m = hops(nodes, at);
        assert(lands_after(nodes, at, m));
        if m < n {
            lemma_hops_end(nodes, at, m + 1, n);
        } else if n < m {
            lemma_hops_end(nodes, at, n + 1, m);
        }
    }
}

/// More hops than there are nodes lead to no node of another kind.
proof fn lemma_endless(nodes: Map<Felt, NodeView>, at: Felt, n: nat)
    requires
        nodes.dom().finite(),
        nodes.len() < n,
        hop(nodes, at, n) is Some,
    ensures
        !lands(nodes, at),
{
    if hop(nodes, at, nodes.len() + 1) is None {
        lemma_hops_end(nodes, at, nodes.len() + 1, n);
    }
    if lands(nodes, at) {
        let m = hops(nodes, at);
        assert(lands_after(nodes, at, m));
        lemma_hops_circle(nodes, at, m + 1);
    }
}

/// What leads to no node of another kind, though there is a node, is an edge without bits.
proof fn lemma_only_empty_edges_miss(nodes: Map<Felt, NodeView>, at: Felt)
    requires
        nodes.contains_key(at),
        !lands(nodes, at),
    ensures
        nodes[at] is Edge,
        nodes[at]->path.len() == 0,
{
    lemma_empty_edge(nodes, at);
    assert(hop(nodes, at, 0) == Some(at));
    if hop(nodes, at, 1) is None {
        assert(lands_after(nodes, at, 0));
    }
}

/// An outcome carried up over `n` edges without bits.
spec fn carried<H: StarkHash>(
    below: (Option<Felt>, Map<Felt, NodeView>),
    bit: bool,
    n: nat,
) -> (Option<Felt>, Map<Felt, NodeView>)
    decreases n,
{
    if n == 0 {
        below
    } else {
        let node = NodeView::Edge { child: Felt::of(0), path: Seq::empty() };
        carried::<H>(carry_up::<H>(node, bit, below), bit, (n - 1) as nat)
    }
}

/// Where nothing is told, nothing is carried up.
proof fn lemma_carried_none<H: StarkHash>(
    below: (Option<Felt>, Map<Felt, NodeView>),
    bit: bool,
    n: nat,
)
    requires
        below.0 is None,
    ensures
        carried::<H>(below, bit, n) == below,
    decreases n,
{
    if n > 0 {
        lemma_carried_none::<H>(below, bit, (n - 1) as nat);
    }
}

/// The nodes that are known once those that `n` edges without bits lead to are taken.
spec fn taken(
    known: Map<Felt, NodeView>,
    proof_nodes: Map<Felt, NodeView>,
    at: Felt,
    n: nat,
) -> Map<Felt, NodeView>
    decreases n,
{
    if n == 0 {
        take_node(known, proof_nodes, at)
    } else {
        take_node(
            taken(known, proof_nodes, at, (n - 1) as nat),
            proof_nodes,
            hop(at_hand(known, proof_nodes), at, n)->0,
        )
    }
}

/// An insertion goes on after edges without bits.
proof fn lemma_insertion_hops<H: StarkHash>(
    known: Map<Felt, NodeView>,
    proof_nodes: Map<Felt, NodeView>,
    at: Felt,
    key: Seq<bool>,
    value: Felt,
    n: nat,
)
    requires
        key.len() > 0,
        lands(at_hand(known, proof_nodes), at),
        n <= hops(at_hand(known, proof_nodes), at),
    ensures
        ({
            let nodes = at_hand(known, proof_nodes);
            let now = taken(known, proof_nodes, at, n);
            let end = hop(nodes, at, n);
            &&& end is Some
            &&& at_hand(now, proof_nodes) == nodes
            &&& now.contains_key(end->0)
            &&& lands(nodes, end->0)
            &&& hops(nodes, end->0) == hops(nodes, at) - n
            &&& insertion::<H>(known, proof_nodes, at, key, value) == carried::<H>(
                insertion_at::<H>(now, proof_nodes, end->0, key, value),
                key[0],
                n,
            )
        }),
    decreases n,
{
    let nodes = at_hand(known, proof_nodes);
    let last = hops(nodes, at);
    assert(lands_after(nodes, at, last));
    if n == 0 {
        lemma_take_node(known, proof_nodes, at);
        if hop(nodes, at, 1) is Some {
            lemma_empty_edge(nodes, at);
            if !nodes.contains_key(at) {
                reveal_with_fuel(hop, 2);
            }
        } else {
            assert(last == 0) by {
                if last > 0 {
                    lemma_hops_end(nodes, at, 1, last);
                }
            }
        }
    } else {
        let before = taken(known, proof_nodes, at, (n - 1) as nat);
        lemma_insertion_hops::<H>(known, proof_nodes, at, key, value, (n - 1) as nat);
        let here = hop(nodes, at, (n - 1) as nat)->0;
        if hop(nodes, at, n) is None {
            lemma_hops_end(nodes, at, n, last);
        }
        let next = hop(nodes, at, n)->0;
        lemma_empty_edge(nodes, here);
        assert(nodes[here] == before[here]);
        lemma_take_node(before, proof_nodes, next);
        assert(nodes.contains_key(next)) by {
            if n < last && !nodes.contains_key(next) {
                assert(hop(nodes, at, n + 1) is None);
                lemma_hops_end(nodes, at, n + 1, last);
            }
        }
        let node = NodeView::Edge { child: Felt::of(0), path: Seq::empty() };
        let below = insertion::<H>(before, proof_nodes, next, key, value);
        assert(before[here]->path =~= Seq::empty());
        assert(carry_up::<H>(before[here], key[0], below) == carry_up::<H>(node, key[0], below));
        assert(insertion_at::<H>(before, proof_nodes, here, key, value) == carry_up::<H>(
            node,
            key[0],
            below,
        ));
        assert(below == insertion_at::<H>(
            taken(known, proof_nodes, at, n),
            proof_nodes,
            next,
            key,
            value,
        ));
    }
}

/// Puts a leading edge over the trie with the hash `below`, and tells the hash of the whole. An
/// edge without bits is left out.
fn store_lead<H: StarkHash>(
    cache: &mut NodeCache,
    path: Vec<bool>,
    below: Felt,
    Ghost(trie): Ghost<Trie>,
    Ghost(before): Ghost<Map<Felt, NodeView>>,
) -> (r: Felt)
    requires
        below == trie.hash::<H>(),
        old(cache)@ == trie.store::<H>(before),
    ensures
        r == lead(path@, trie).hash::<H>(),
        final(cache)@ == lead(path@, trie).store::<H>(before),
{
    if path.len() == 0 {
        return below;
    }
    let path = Path(path);
    let hash = hash_edge_node::<H>(&path, below);
    cache.insert(hash, ProofNode::Edge { child: below, path });
    hash
}

/// Puts a value and a child side by side at the end of a path, and tells the hash of the whole.
fn store_beside<H: StarkHash>(
    cache: &mut NodeCache,
    path: Vec<bool>,
    value: Felt,
    child: Felt,
) -> (r: Felt)
    ensures
        r == beside(path@, value, child).hash::<H>(),
        final(cache)@ == beside(path@, value, child).store::<H>(old(cache)@),
{
    let ghost known = cache@;
    let ghost branch = Trie::Binary {
        left: Box::new(Trie::Digest(value)),
        right: Box::new(Trie::Digest(child)),
    };
    proof {
        reveal_with_fuel(Trie::hash, 2);
        reveal_with_fuel(Trie::store, 2);
    }
    let hash = hash_binary_node::<H>(value, child);
    cache.insert(hash, ProofNode::Binary { left: value, right: child });
    store_lead::<H>(cache, path, hash, Ghost(branch), Ghost(known))
}

/// Forks an edge, and tells the hash of what takes its place.
fn store_fork<H: StarkHash>(
    cache: &mut NodeCache,
    path: &Path,
    child: Felt,
    key: &[bool],
    depth: usize,
    value: Felt,
) -> (r: Felt)
    requires
        depth <= key@.len(),
        !path@.is_prefix_of(key@.skip(depth as int)),
        !key@.skip(depth as int).is_prefix_of(path@),
    ensures
        r == fork(path@, Trie::Digest(child), key@.skip(depth as int), value).hash::<H>(),
        final(cache)@ == fork(
            path@,
            Trie::Digest(child),
            key@.skip(depth as int),
            value,
        ).store::<H>(old(cache)@),
{
    let ghost rest = key@.skip(depth as int);
    let total: usize = key.len();
    let n = common_path(&path.0, key, depth);
    proof {
        lemma_common_len(path@, rest);
        lemma_prefix_common(path@, rest);
        if n == rest.len() {
            assert(rest.take(n as int) =~= rest);
            assert(rest =~= path@.take(n as int));
        }
    }
    let new_path = slice_of(key, depth + n + 1, total);
    let old_path = slice_of(&path.0, n + 1, path.0.len());
    let top_path = slice_of(&path.0, 0, n);
    assert(new_path@ =~= rest.skip(n + 1));
    assert(old_path@ =~= path@.skip(n + 1));
    assert(top_path@ =~= path@.take(n as int));
    let ghost new = lead(new_path@, Trie::Digest(value));
    let ghost old_part = lead(old_path@, Trie::Digest(child));
    let ghost known = cache@;
    match Direction::from(key[depth + n]) {
        Direction::Left => {
            let ghost branch = Trie::Binary { left: Box::new(new), right: Box::new(old_part) };
            let left = store_lead::<H>(
                cache,
                new_path,
                value,
                Ghost(Trie::Digest(value)),
                Ghost(known),
            );
            let right = store_lead::<H>(
                cache,
                old_path,
                child,
                Ghost(Trie::Digest(child)),
                Ghost(new.store::<H>(known)),
            );
            let hash = hash_binary_node::<H>(left, right);
            cache.insert(hash, ProofNode::Binary { left, right });
            store_lead::<H>(cache, top_path, hash, Ghost(branch), Ghost(known))
        },
        Direction::Right => {
            let ghost branch = Trie::Binary { left: Box::new(old_part), right: Box::new(new) };
            let left = store_lead::<H>(
                cache,
                old_path,
                child,
                Ghost(Trie::Digest(child)),
                Ghost(known),
            );
            let right = store_lead::<H>(
                cache,
                new_path,
                value,
                Ghost(Trie::Digest(value)),
                Ghost(old_part.store::<H>(known)),
            );
            let hash = hash_binary_node::<H>(left, right);
            cache.insert(hash, ProofNode::Binary { left, right });
            store_lead::<H>(cache, top_path, hash, Ghost(branch), Ghost(known))
        },
    }
}

/// A trie that is known by the hash of its root and by some of its nodes, which it keeps from one
/// insertion to the next.
#[derive(Debug)]
pub struct PartialTrie<H: StarkHash> {
    identifier: Vec<u8>,
    max_height: u8,
    original_root: Felt,
    cache: NodeCache,
    _hasher: PhantomData<H>,
}

impl<H: StarkHash> PartialTrie<H> {
    #[verifier::type_invariant]
    spec fn well_formed(self) -> bool {
        well_filed::<H>(self.cache@)
    }

    /// The name of the trie.
    pub closed spec fn identifier(self) -> Seq<u8> {
        self.identifier@
    }

    /// The number of bits of the keys.
    pub closed spec fn max_height(self) -> u8 {
        self.max_height
    }

    /// The hash that the root had at first.
    pub closed spec fn original_root(self) -> Felt {
        self.original_root
    }

    /// The nodes that are known.
    pub closed spec fn known(self) -> Map<Felt, NodeView> {
        self.cache@
    }

    /// A trie of which no node is known.
    pub fn new(identifier: Vec<u8>, max_height: u8, original_root: Felt) -> (r: Self)
        ensures
            r.identifier() == identifier@,
            r.max_height() == max_height,
            r.original_root() == original_root,
            r.known() == Map::<Felt, NodeView>::empty(),
            well_filed::<H>(r.known()),
    {
        PartialTrie {
            identifier,
            max_height,
            original_root,
            cache: NodeCache::new(),
            _hasher: PhantomData,
        }
    }

    /// Tells the root hash that the trie with the root hash `current_root` has once `value` is
    /// under `key`.
    ///
    /// Of the nodes on the way and of those that take their places, the ones that stand under
    /// their own hashes are known from then on.
    pub fn set(&mut self, key: &[bool], value: Felt, current_root: Felt, proof: MultiProof) -> (r:
        Result<Felt, PartialTrieError>)
        ensures
            final(self).identifier() == old(self).identifier(),
            final(self).max_height() == old(self).max_height(),
            final(self).original_root() == old(self).original_root(),
            outcome(r) == insertion::<H>(
                old(self).known(),
                proof@,
                current_root,
                key@,
                value,
            ).0,
            final(self).known() == own_hashed::<H>(
                insertion::<H>(old(self).known(), proof@, current_root, key@, value).1,
            ),
            well_filed::<H>(final(self).known()),
            old(self).known().dom().subset_of(final(self).known().dom()),
            key@.len() > 0 ==> (r matches Ok(root) ==> final(self).known().contains_key(root)),
    {
        proof {
            use_type_invariant(&*self);
        }
        assert(key@.skip(0) =~= key@);
        let mut cache = NodeCache::new();
        std::mem::swap(&mut cache, &mut self.cache);
        proof {
            law_known_nodes_stay::<H>(cache@, proof@, current_root, key@, value);
        }
        let mut filed = true;
        let r = Self::process_node(&mut cache, &mut filed, &proof, current_root, key, 0, value);
        if filed {
            assert(own_hashed::<H>(cache@) =~= cache@);
        } else {
            cache.keep_own_hashed::<H>();
        }
        self.cache = cache;
        r
    }

    /// Takes the node with the hash `node_hash` from the proof, unless it is known. Tells whether
    /// there is one. `filed` tells that every node of the cache stands under its own hash.
    fn take(
        cache: &mut NodeCache,
        filed: &mut bool,
        proof: &MultiProof,
        node_hash: Felt,
    ) -> (r: bool)
        requires
            *old(filed) ==> well_filed::<H>(old(cache)@),
        ensures
            final(cache)@ == take_node(old(cache)@, proof@, node_hash),
            r == final(cache)@.contains_key(node_hash),
            *final(filed) ==> well_filed::<H>(final(cache)@),
    {
        if cache.get(&node_hash).is_some() {
            return true;
        }
        match proof.0.get(&node_hash) {
            Some(node) => {
                if node.hash::<H>() != node_hash {
                    *filed = false;
                }
                cache.insert(node_hash, node.clone());
                true
            },
            None => false,
        }
    }

    /// The number of edges without bits in a row from the node with the hash `node_hash` on, if
    /// they lead to a node of another kind.
    fn count_hops(cache: &NodeCache, proof: &MultiProof, node_hash: Felt) -> (r: Option<u128>)
        ensures
            match r {
                Some(n) => lands_after(at_hand(cache@, proof@), node_hash, n as nat),
                None => !lands(at_hand(cache@, proof@), node_hash),
            },
    {
        let ghost nodes = at_hand(cache@, proof@);
        let limit: u128 = cache.len() as u128 + proof.0.len() as u128;
        proof {
            assert(nodes.dom() =~= proof@.dom().union(cache@.dom()));
            vstd::set_lib::lemma_len_union(proof@.dom(), cache@.dom());
        }
        let mut at = node_hash;
        let mut n: u128 = 0;
        while n <= limit
            invariant
                n <= limit + 1,
                limit <= 2 * usize::MAX,
                nodes == at_hand(cache@, proof@),
                hop(nodes, node_hash, n as nat) == Some(at),
            decreases limit + 1 - n,
        {
            let found = match cache.get(&at) {
                Some(node) => Some(node),
                None => proof.0.get(&at),
            };
            match found {
                Some(ProofNode::Edge { child, path }) if path.0.len() == 0 => {
                    at = *child;
                },
                Some(_) => {
                    return Some(n);
                },
                None => {
                    proof {
                        lemma_no_landing(nodes, node_hash, n as nat);
                    }
                    return None;
                },
            }
            n += 1;
        }
        proof {
            lemma_endless(nodes, node_hash, n as nat);
        }
        None
    }

    /// Puts `value` under what is left of `key` after `depth` bits, into the trie with the hash
    /// `node_hash`. `filed` tells that every node of the cache stands under its own hash.
    fn process_node(
        cache: &mut NodeCache,
        filed: &mut bool,
        proof: &MultiProof,
        node_hash: Felt,
        key: &[bool],
        depth: usize,
        value: Felt,
    ) -> (r: Result<Felt, PartialTrieError>)
        requires
            depth <= key@.len(),
            *old(filed) ==> well_filed::<H>(old(cache)@),
        ensures
            (outcome(r), final(cache)@) == insertion::<H>(
                old(cache)@,
                proof@,
                node_hash,
                key@.skip(depth as int),
                value,
            ),
            *final(filed) ==> well_filed::<H>(final(cache)@),
            keeps_hashes::<H>(old(cache)@, final(cache)@),
            well_filed::<H>(old(cache)@) && well_filed::<H>(proof@) ==> well_filed::<H>(
                final(cache)@,
            ),
            depth < key@.len() ==> (r matches Ok(hash) ==> own_hashed::<H>(
                final(cache)@,
            ).contains_key(hash)),
        decreases key@.len() - depth, 1int,
    {
        let ghost known = cache@;
        let ghost nodes = at_hand(cache@, proof@);
        let ghost rest = key@.skip(depth as int);
        proof {
            law_insertion_loses_nothing::<H>(known, proof@, node_hash, rest, value);
            if well_filed::<H>(known) && well_filed::<H>(proof@) {
                law_insertion_keeps_own_hashes::<H>(known, proof@, node_hash, rest, value);
            }
            lemma_take_node(known, proof@, node_hash);
        }
        if depth == key.len() {
            return Ok(value);
        }
        if !Self::take(cache, filed, proof, node_hash) {
            return Err(PartialTrieError::NodeNotFound);
        }
        let count = match Self::count_hops(cache, proof, node_hash) {
            Some(count) => count,
            None => {
                proof {
                    lemma_only_empty_edges_miss(nodes, node_hash);
                }
                let child = match cache.get(&node_hash) {
                    Some(ProofNode::Edge { child, .. }) => *child,
                    _ => {
                        return Err(PartialTrieError::NodeNotFound);
                    },
                };
                let ghost path = nodes[node_hash]->path;
                proof {
                    lemma_store_filed::<H>(beside(path, value, child), cache@);
                    assert(path =~= Seq::empty());
                }
                return Ok(store_beside::<H>(cache, Vec::new(), value, child));
            },
        };
        proof {
            lemma_hops_unique(nodes, node_hash, count as nat);
            lemma_insertion_hops::<H>(known, proof@, node_hash, rest, value, count as nat);
        }
        let mut at = node_hash;
        let mut i: u128 = 0;
        while i < count
            invariant
                i <= count,
                rest.len() > 0,
                nodes == at_hand(known, proof@),
                lands(nodes, node_hash),
                count == hops(nodes, node_hash),
                hop(nodes, node_hash, i as nat) == Some(at),
                cache@ == taken(known, proof@, node_hash, i as nat),
                *filed ==> well_filed::<H>(cache@),
            decreases count - i,
        {
            proof {
                lemma_insertion_hops::<H>(known, proof@, node_hash, rest, value, i as nat);
                lemma_insertion_hops::<H>(known, proof@, node_hash, rest, value, i as nat + 1);
                lemma_empty_edge(nodes, at);
                assert(nodes[at] == cache@[at]);
            }
            if let Some(ProofNode::Edge { child, .. }) = cache.get(&at) {
                at = *child;
            }
            i += 1;
            Self::take(cache, filed, proof, at);
        }
        let node = match cache.get(&at) {
            Some(node) => node.clone(),
            None => {
                return Err(PartialTrieError::NodeNotFound);
            },
        };
        proof {
            assert(nodes[at] == cache@[at]);
            lemma_empty_edge(nodes, at);
        }
        let below = Self::process_cached_node(
            cache,
            filed,
            proof,
            Ghost(at),
            &node,
            key,
            depth,
            value,
        );
        let mut hash = match below {
            Ok(hash) => hash,
            Err(error) => {
                proof {
                    lemma_carried_none::<H>((None, cache@), rest[0], count as nat);
                }
                return Err(error);
            },
        };
        while i > 0
            invariant
                *filed ==> well_filed::<H>(cache@),
                carried::<H>((Some(hash), cache@), rest[0], i as nat) == insertion::<H>(
                    known,
                    proof@,
                    node_hash,
                    rest,
                    value,
                ),
            decreases i,
        {
            let path = Path(Vec::new());
            assert(path@ =~= Seq::empty());
            let upper = hash_edge_node::<H>(&path, hash);
            cache.insert(upper, ProofNode::Edge { child: hash, path });
            hash = upper;
            i -= 1;
        }
        Ok(hash)
    }

    /// Puts `value` under what is left of `key` after `depth` bits, into the trie below `node`,
    /// which is known by the hash `at` and no edge without bits.
    fn process_cached_node(
        cache: &mut NodeCache,
        filed: &mut bool,
        proof: &MultiProof,
        Ghost(at): Ghost<Felt>,
        node: &ProofNode,
        key: &[bool],
        depth: usize,
        value: Felt,
    ) -> (r: Result<Felt, PartialTrieError>)
        requires
            depth < key@.len(),
            old(cache)@.contains_key(at),
            old(cache)@[at] == node@,
            node matches ProofNode::Edge { path, .. } ==> path@.len() > 0,
            *old(filed) ==> well_filed::<H>(old(cache)@),
        ensures
            (outcome(r), final(cache)@) == insertion_at::<H>(
                old(cache)@,
                proof@,
                at,
                key@.skip(depth as int),
                value,
            ),
            *final(filed) ==> well_filed::<H>(final(cache)@),
        decreases key@.len() - depth, 0int,
    {
        let ghost rest = key@.skip(depth as int);
        match node {
            ProofNode::Binary { left, right } => {
                let direction = Direction::from(key[depth]);
                let next = match direction {
                    Direction::Left => *left,
                    Direction::Right => *right,
                };
                assert(key@.skip(depth + 1) =~= rest.skip(1));
                let below = Self::process_node(cache, filed, proof, next, key, depth + 1, value)?;
                let (new_left, new_right) = match direction {
                    Direction::Left => (below, *right),
                    Direction::Right => (*left, below),
                };
                let hash = hash_binary_node::<H>(new_left, new_right);
                cache.insert(hash, ProofNode::Binary { left: new_left, right: new_right });
                Ok(hash)
            },
            ProofNode::Edge { child, path } => {
                let common = common_path(&path.0, key, depth);
                let length: usize = path.0.len();
                let left: usize = key.len() - depth;
                proof {
                    lemma_common_len(path@, rest);
                    lemma_prefix_common(path@, rest);
                    if common == rest.len() {
                        assert(rest.take(common as int) =~= rest);
                        assert(rest =~= path@.take(common as int));
                        assert(rest.len() == path@.len() ==> rest =~= path@);
                    }
                    if rest.is_prefix_of(path@) {
                        assert(rest.take(rest.len() as int) =~= path@.take(rest.len() as int));
                        lemma_common_len_unique(path@, rest, rest.len());
                    }
                }
                if common == left && length > left {
                    let end = slice_of(key, depth, key.len());
                    proof {
                        assert(end@ =~= rest);
                        lemma_store_filed::<H>(beside(rest, value, *child), cache@);
                    }
                    return Ok(store_beside::<H>(cache, end, value, *child));
                }
                if common < length {
                    proof {
                        let forked = fork(path@, Trie::Digest(*child), rest, value);
                        lemma_store_filed::<H>(forked, cache@);
                    }
                    return Ok(store_fork::<H>(cache, path, *child, key, depth, value));
                }
                assert(key@.skip(depth + length) =~= rest.skip(length as int));
                let below = Self::process_node(
                    cache,
                    filed,
                    proof,
                    *child,
                    key,
                    depth + length,
                    value,
                )?;
                let hash = hash_edge_node::<H>(path, below);
                cache.insert(hash, ProofNode::Edge { child: below, path: path.clone() });
                Ok(hash)
            },
        }
    }
}

/// The hash that an insertion tells, if it does.
pub open spec fn outcome(result: Result<Felt, PartialTrieError>) -> Option<Felt> {
    match result {
        Ok(hash) => Some(hash),
        Err(_) => None,
    }
}

} // verus!
