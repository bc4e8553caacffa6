//! Tries as mathematical objects.
//!
//! A trie of height `n` maps keys of `n` bits to field elements. A key that it does not hold maps
//! to zero.

use crate::felt::{Felt, StarkHash};
use crate::trie::merkle_node::{binary_hash, edge_hash, node_hash, NodeView};
use crate::trie::path::{common_len, lemma_common_len, lemma_prefix_common};
use vstd::prelude::*;

verus! {

/// A trie, of which some parts may be known by their hash only.
///
/// At the full height a digest is the value of an entry. Above it a digest is the hash of a
/// subtree that is not known.
#[verifier::ext_equal]
pub enum Trie {
    Digest(Felt),
    Binary { left: Box<Trie>, right: Box<Trie> },
    Edge { path: Seq<bool>, child: Box<Trie> },
}

impl Trie {
    /// The hash of the trie.
    pub open spec fn hash<H: StarkHash>(self) -> Felt
        decreases self,
    {
        match self {
            Trie::Digest(digest) => digest,
            Trie::Binary { left, right } => binary_hash::<H>(left.hash::<H>(), right.hash::<H>()),
            Trie::Edge { path, child } => edge_hash::<H>(path, child.hash::<H>()),
        }
    }

    /// What the topmost node says. A digest has no node.
    pub open spec fn node<H: StarkHash>(self) -> NodeView {
        match self {
            Trie::Digest(digest) => arbitrary(),
            Trie::Binary { left, right } => NodeView::Binary {
                left: left.hash::<H>(),
                right: right.hash::<H>(),
            },
            Trie::Edge { path, child } => NodeView::Edge { child: child.hash::<H>(), path },
        }
    }

    /// The trie has height `n`: no entry is deeper, and every edge has at least one bit.
    pub open spec fn fits(self, n: nat) -> bool
        decreases self,
    {
        match self {
            Trie::Digest(_) => true,
            Trie::Binary { left, right } => n >= 1 && left.fits((n - 1) as nat) && right.fits(
                (n - 1) as nat,
            ),
            Trie::Edge { path, child } => 1 <= path.len() <= n && child.fits(
                (n - path.len()) as nat,
            ),
        }
    }

    /// The child of a binary node that a bit selects.
    pub open spec fn side(self, bit: bool) -> Trie {
        if bit {
            *self->right
        } else {
            *self->left
        }
    }

    /// The value under `key`, zero where the trie does not hold the key, or `None` where the way
    /// to it leaves the part of the trie that is known.
    pub open spec fn lookup(self, key: Seq<bool>) -> Option<Felt>
        decreases self,
    {
        match self {
            Trie::Digest(digest) => if key.len() == 0 {
                Some(digest)
            } else {
                None
            },
            Trie::Binary { left, right } => if key.len() == 0 {
                None
            } else if key[0] {
                right.lookup(key.skip(1))
            } else {
                left.lookup(key.skip(1))
            },
            Trie::Edge { path, child } => if path.is_prefix_of(key) {
                child.lookup(key.skip(path.len() as int))
            } else {
                Some(Felt::of(0))
            },
        }
    }

    /// The trie with `value` under `key`.
    pub open spec fn insert(self, key: Seq<bool>, value: Felt) -> Trie
        decreases self,
    {
        match self {
            Trie::Digest(_) => Trie::Digest(value),
            Trie::Binary { left, right } => if key[0] {
                Trie::Binary { left, right: Box::new(right.insert(key.skip(1), value)) }
            } else {
                Trie::Binary { left: Box::new(left.insert(key.skip(1), value)), right }
            },
            Trie::Edge { path, child } => if path.is_prefix_of(key) {
                Trie::Edge {
                    path,
                    child: Box::new(child.insert(key.skip(path.len() as int), value)),
                }
            } else {
                fork(path, *child, key, value)
            },
        }
    }
}

impl Trie {
    /// `nodes` with the nodes of the trie added under their hashes, from the bottom up.
    pub open spec fn store<H: StarkHash>(self, nodes: Map<Felt, NodeView>) -> Map<Felt, NodeView>
        decreases self,
    {
        match self {
            Trie::Digest(_) => nodes,
            Trie::Binary { left, right } => right.store::<H>(left.store::<H>(nodes)).insert(
                self.hash::<H>(),
                self.node::<H>(),
            ),
            Trie::Edge { path, child } => child.store::<H>(nodes).insert(
                self.hash::<H>(),
                self.node::<H>(),
            ),
        }
    }
}

impl Trie {
    /// The trie without the entry under `key`, or `None` if there was no other entry.
    pub open spec fn remove(self, key: Seq<bool>) -> Option<Trie>
        decreases self,
    {
        match self {
            Trie::Digest(_) => None,
            Trie::Binary { left, right } => if key[0] {
                match right.remove(key.skip(1)) {
                    Some(right) => Some(Trie::Binary { left, right: Box::new(right) }),
                    None => Some(absorb(seq![false], *left)),
                }
            } else {
                match left.remove(key.skip(1)) {
                    Some(left) => Some(Trie::Binary { left: Box::new(left), right }),
                    None => Some(absorb(seq![true], *right)),
                }
            },
            Trie::Edge { path, child } => if path.is_prefix_of(key) {
                match child.remove(key.skip(path.len() as int)) {
                    Some(child) => Some(absorb(path, child)),
                    None => None,
                }
            } else {
                Some(self)
            },
        }
    }
}

impl Trie {
    /// The nodes on the way to `key` through the trie, which stands after the first `depth` bits
    /// of the key. Each comes with the bits that lead to it. The last may be an edge that the key
    /// does not follow.
    pub open spec fn way<H: StarkHash>(self, key: Seq<bool>, depth: nat) -> Seq<
        (Seq<bool>, NodeView),
    >
        decreases self,
    {
        let here = seq![(key.take(depth as int), self.node::<H>())];
        match self {
            Trie::Digest(_) => Seq::empty(),
            Trie::Binary { left, right } => if key[depth as int] {
                here + right.way::<H>(key, depth + 1)
            } else {
                here + left.way::<H>(key, depth + 1)
            },
            Trie::Edge { path, child } => if path.is_prefix_of(key.skip(depth as int)) {
                here + child.way::<H>(key, depth + path.len())
            } else {
                here
            },
        }
    }
}

/// Every node stands under its own hash.
pub open spec fn well_filed<H: StarkHash>(nodes: Map<Felt, NodeView>) -> bool {
    forall|hash: Felt| #[trigger]
        nodes.contains_key(hash) ==> node_hash::<H>(nodes[hash]) == hash
}

/// The nodes that stand under their own hashes.
pub open spec fn own_hashed<H: StarkHash>(nodes: Map<Felt, NodeView>) -> Map<Felt, NodeView> {
    Map::new(
        |hash: Felt| nodes.contains_key(hash) && node_hash::<H>(nodes[hash]) == hash,
        |hash: Felt| nodes[hash],
    )
}

/// `nodes` with the nodes of a way added under their hashes, from the top down.
pub open spec fn file_way<H: StarkHash>(
    way: Seq<(Seq<bool>, NodeView)>,
    nodes: Map<Felt, NodeView>,
) -> Map<Felt, NodeView>
    decreases way.len(),
{
    if way.len() == 0 {
        nodes
    } else {
        file_way::<H>(way.drop_last(), nodes).insert(
            node_hash::<H>(way.last().1),
            way.last().1,
        )
    }
}

/// The order in which hashes came, after `order`, once the nodes of a way were added to `nodes`.
pub open spec fn file_order<H: StarkHash>(
    way: Seq<(Seq<bool>, NodeView)>,
    nodes: Map<Felt, NodeView>,
    order: Seq<Felt>,
) -> Seq<Felt>
    decreases way.len(),
{
    if way.len() == 0 {
        order
    } else {
        let before = file_order::<H>(way.drop_last(), nodes, order);
        let hash = node_hash::<H>(way.last().1);
        if file_way::<H>(way.drop_last(), nodes).contains_key(hash) {
            before
        } else {
            before.push(hash)
        }
    }
}

/// `trie` at the end of `path`, as one edge if it starts with an edge.
pub open spec fn absorb(path: Seq<bool>, trie: Trie) -> Trie {
    match trie {
        Trie::Edge { path: rest, child } => Trie::Edge { path: path + rest, child },
        _ => Trie::Edge { path, child: Box::new(trie) },
    }
}

/// `trie` at the end of `path`.
pub open spec fn lead(path: Seq<bool>, trie: Trie) -> Trie {
    if path.len() == 0 {
        trie
    } else {
        Trie::Edge { path, child: Box::new(trie) }
    }
}

/// The trie that holds `value` under `key` and `child` under `path`, where the two part.
pub open spec fn fork(path: Seq<bool>, child: Trie, key: Seq<bool>, value: Felt) -> Trie {
    let n = common_len(path, key) as int;
    let old = lead(path.skip(n + 1), child);
    let new = lead(key.skip(n + 1), Trie::Digest(value));
    let branch = if key[n] {
        Trie::Binary { left: Box::new(old), right: Box::new(new) }
    } else {
        Trie::Binary { left: Box::new(new), right: Box::new(old) }
    };
    lead(path.take(n), branch)
}

/// A way is filed part by part.
pub proof fn lemma_file_way_concat<H: StarkHash>(
    upper: Seq<(Seq<bool>, NodeView)>,
    lower: Seq<(Seq<bool>, NodeView)>,
    nodes: Map<Felt, NodeView>,
    order: Seq<Felt>,
)
    ensures
        file_way::<H>(upper + lower, nodes) == file_way::<H>(lower, file_way::<H>(upper, nodes)),
        file_order::<H>(upper + lower, nodes, order) == file_order::<H>(
            lower,
            file_way::<H>(upper, nodes),
            file_order::<H>(upper, nodes, order),
        ),
    decreases lower.len(),
{
    if lower.len() == 0 {
        assert(upper + lower =~= upper);
    } else {
        assert((upper + lower).drop_last() =~= upper + lower.drop_last());
        lemma_file_way_concat::<H>(upper, lower.drop_last(), nodes, order);
    }
}

/// Storing a trie keeps every node under its own hash, and loses no hash.
pub proof fn lemma_store_filed<H: StarkHash>(trie: Trie, nodes: Map<Felt, NodeView>)
    ensures
        well_filed::<H>(nodes) ==> well_filed::<H>(trie.store::<H>(nodes)),
        !(trie is Digest) ==> trie.store::<H>(nodes).contains_pair(
            trie.hash::<H>(),
            trie.node::<H>(),
        ),
        forall|hash: Felt| #[trigger]
            nodes.contains_key(hash) ==> trie.store::<H>(nodes).contains_key(hash),
        forall|hash: Felt| #[trigger]
            nodes.contains_key(hash) && node_hash::<H>(nodes[hash]) == hash ==> node_hash::<H>(
                trie.store::<H>(nodes)[hash],
            ) == hash,
    decreases trie,
{
    match trie {
        Trie::Digest(_) => {},
        Trie::Binary { left, right } => {
            lemma_store_filed::<H>(*left, nodes);
            lemma_store_filed::<H>(*right, left.store::<H>(nodes));
            lemma_node_hash::<H>(trie);
        },
        Trie::Edge { child, .. } => {
            lemma_store_filed::<H>(*child, nodes);
            lemma_node_hash::<H>(trie);
        },
    }
}

/// The hash of a node is the hash of the trie below it.
pub proof fn lemma_node_hash<H: StarkHash>(trie: Trie)
    requires
        !(trie is Digest),
    ensures
        node_hash::<H>(trie.node::<H>()) == trie.hash::<H>(),
{
}

pub proof fn lemma_lead_lookup(path: Seq<bool>, trie: Trie, key: Seq<bool>)
    ensures
        lead(path, trie).lookup(key) == if path.is_prefix_of(key) {
            trie.lookup(key.skip(path.len() as int))
        } else {
            Some(Felt::of(0))
        },
{
    if path.len() == 0 {
        assert(path.is_prefix_of(key));
        assert(key.skip(0) =~= key);
    }
}

pub proof fn lemma_lead_fits(path: Seq<bool>, trie: Trie, n: nat)
    requires
        path.len() <= n,
        trie.fits((n - path.len()) as nat),
    ensures
        lead(path, trie).fits(n),
{
}

/// A run is a prefix exactly if its first part is one and its second part is one of the rest.
pub proof fn lemma_prefix_split(path: Seq<bool>, key: Seq<bool>, n: int)
    requires
        0 <= n < path.len(),
    ensures
        path.is_prefix_of(key) <==> path.take(n).is_prefix_of(key) && n < key.len() && path[n]
            == key[n] && path.skip(n + 1).is_prefix_of(key.skip(n + 1)),
{
    if path.is_prefix_of(key) {
        assert(path.take(n) =~= key.take(n));
        assert(path[n] == key[n]);
        assert(path.skip(n + 1) =~= key.skip(n + 1).take(path.len() - n - 1));
    }
    if path.take(n).is_prefix_of(key) && n < key.len() && path[n] == key[n] && path.skip(
        n + 1,
    ).is_prefix_of(key.skip(n + 1)) {
        assert forall|i: int| 0 <= i < path.len() implies path[i] == key[i] by {
            if i < n {
                assert(path.take(n)[i] == key.take(n)[i]);
            } else if i > n {
                assert(path.skip(n + 1)[i - n - 1] == key.skip(n + 1)[i - n - 1]);
            }
        }
        assert(path =~= key.take(path.len() as int));
    }
}

pub proof fn lemma_fork(path: Seq<bool>, child: Trie, key: Seq<bool>, value: Felt, other: Seq<bool>)
    requires
        path.len() <= key.len(),
        other.len() == key.len(),
        !path.is_prefix_of(key),
        child.fits((key.len() - path.len()) as nat),
    ensures
        fork(path, child, key, value).fits(key.len()),
        fork(path, child, key, value).lookup(other) == if other == key {
            Some(value)
        } else if path.is_prefix_of(other) {
            child.lookup(other.skip(path.len() as int))
        } else {
            Some(Felt::of(0))
        },
{
    let n = common_len(path, key) as int;
    lemma_common_len(path, key);
    lemma_prefix_common(path, key);
    let old = lead(path.skip(n + 1), child);
    let new = lead(key.skip(n + 1), Trie::Digest(value));
    let branch = if key[n] {
        Trie::Binary { left: Box::new(old), right: Box::new(new) }
    } else {
        Trie::Binary { left: Box::new(new), right: Box::new(old) }
    };
    let rest = other.skip(n);
    lemma_lead_fits(path.skip(n + 1), child, (key.len() - n - 1) as nat);
    lemma_lead_fits(key.skip(n + 1), Trie::Digest(value), (key.len() - n - 1) as nat);
    lemma_lead_fits(path.take(n), branch, key.len());
    lemma_lead_lookup(path.take(n), branch, other);
    lemma_lead_lookup(path.skip(n + 1), child, rest.skip(1));
    lemma_lead_lookup(key.skip(n + 1), Trie::Digest(value), rest.skip(1));
    lemma_prefix_split(path, other, n);
    lemma_prefix_split(key, other, n);
    assert(rest.skip(1) =~= other.skip(n + 1));
    assert(other.skip(n + 1).skip(path.len() - n - 1) =~= other.skip(path.len() as int));
    assert(key.is_prefix_of(other) <==> key == other) by {
        assert(other.take(other.len() as int) =~= other);
    }
}

/// After an insertion the key has the new value, and every other key has the value that it had.
pub proof fn lemma_insert_lookup(trie: Trie, key: Seq<bool>, value: Felt, other: Seq<bool>)
    requires
        trie.fits(key.len()),
        trie.lookup(key) is Some,
        other.len() == key.len(),
    ensures
        trie.insert(key, value).lookup(other) == if other == key {
            Some(value)
        } else {
            trie.lookup(other)
        },
    decreases trie,
{
    match trie {
        Trie::Digest(_) => {
            assert(other =~= key);
        },
        Trie::Binary { left, right } => {
            lemma_insert_lookup(trie.side(key[0]), key.skip(1), value, other.skip(1));
            assert(other =~= seq![other[0]] + other.skip(1));
            assert(key =~= seq![key[0]] + key.skip(1));
        },
        Trie::Edge { path, child } => {
            if path.is_prefix_of(key) {
                let n = path.len() as int;
                lemma_insert_lookup(*child, key.skip(n), value, other.skip(n));
                assert(key =~= key.take(n) + key.skip(n));
                assert(other =~= other.take(n) + other.skip(n));
            } else {
                lemma_fork(path, *child, key, value, other);
            }
        },
    }
}

/// An insertion keeps the height.
pub proof fn lemma_insert_fits(trie: Trie, key: Seq<bool>, value: Felt)
    requires
        trie.fits(key.len()),
        trie.lookup(key) is Some,
    ensures
        trie.insert(key, value).fits(key.len()),
    decreases trie,
{
    match trie {
        Trie::Digest(_) => {},
        Trie::Binary { left, right } => {
            lemma_insert_fits(trie.side(key[0]), key.skip(1), value);
        },
        Trie::Edge { path, child } => {
            if path.is_prefix_of(key) {
                lemma_insert_fits(*child, key.skip(path.len() as int), value);
            } else {
                lemma_fork(path, *child, key, value, key);
            }
        },
    }
}

pub proof fn lemma_absorb(path: Seq<bool>, trie: Trie, key: Seq<bool>)
    requires
        1 <= path.len() <= key.len(),
        trie.fits((key.len() - path.len()) as nat),
    ensures
        absorb(path, trie).fits(key.len()),
        absorb(path, trie).lookup(key) == if path.is_prefix_of(key) {
            trie.lookup(key.skip(path.len() as int))
        } else {
            Some(Felt::of(0))
        },
{
    match trie {
        Trie::Edge { path: rest, child } => {
            let whole = path + rest;
            let n = path.len() as int;
            assert(key.skip(n).skip(rest.len() as int) =~= key.skip(whole.len() as int));
            if whole.is_prefix_of(key) {
                assert(path =~= whole.take(n));
                assert(path =~= key.take(n));
                assert(rest =~= whole.skip(n));
                assert(rest =~= key.skip(n).take(rest.len() as int));
            }
            if path.is_prefix_of(key) && rest.is_prefix_of(key.skip(n)) {
                assert(key.take(whole.len() as int) =~= key.take(n) + key.skip(n).take(
                    rest.len() as int,
                ));
                assert(whole =~= key.take(whole.len() as int));
            }
        },
        _ => {},
    }
}

/// After a removal the key has the value zero, and every other key has the value that it had.
pub proof fn lemma_remove_lookup(trie: Trie, key: Seq<bool>, other: Seq<bool>)
    requires
        trie.fits(key.len()),
        trie.lookup(key) is Some,
        other.len() == key.len(),
    ensures
        match trie.remove(key) {
            Some(left) => left.fits(key.len()) && left.lookup(other) == if other == key {
                Some(Felt::of(0))
            } else {
                trie.lookup(other)
            },
            None => other == key || trie.lookup(other) == Some(Felt::of(0)),
        },
    decreases trie,
{
    match trie {
        Trie::Digest(_) => {
            assert(other =~= key);
        },
        Trie::Binary { left, right } => {
            let bit = key[0];
            lemma_remove_lookup(trie.side(bit), key.skip(1), other.skip(1));
            lemma_absorb(seq![!bit], trie.side(!bit), other);
            assert(other =~= seq![other[0]] + other.skip(1));
            assert(key =~= seq![key[0]] + key.skip(1));
            assert(seq![!bit].is_prefix_of(other) <==> other[0] == !bit) by {
                if other[0] == !bit {
                    assert(seq![!bit] =~= other.take(1));
                }
                if seq![!bit].is_prefix_of(other) {
                    assert(seq![!bit][0] == other[0]);
                }
            }
        },
        Trie::Edge { path, child } => {
            if path.is_prefix_of(key) {
                let n = path.len() as int;
                lemma_remove_lookup(*child, key.skip(n), other.skip(n));
                if let Some(left) = child.remove(key.skip(n)) {
                    lemma_absorb(path, left, other);
                }
                assert(key =~= key.take(n) + key.skip(n));
                assert(other =~= other.take(n) + other.skip(n));
            }
        },
    }
}

} // verus!
