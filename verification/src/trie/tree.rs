//! The tree: a trie in memory, which may have parts that are not loaded.

use crate::error::{BonsaiStorageError, StorageErrorView};
use crate::felt::{Felt, StarkHash};
use crate::key_value_db::KeyValueDB;
use crate::trie::editing::{insert_value, lead_handle, remove_value, value_at};
use crate::trie::loading::{
    at_hand, fetch_beside, fetch_way, lemma_load_beside, lemma_load_way_known, load_beside,
    load_way,
};
use crate::trie::merkle_node::{Direction, Node, NodeHandle, NodeView};
use crate::trie::model::{
    file_order, file_way, lead, lemma_file_way_concat, lemma_insert_fits, lemma_lead_fits,
    lemma_node_hash, lemma_remove_lookup, Trie,
};
use crate::trie::node_map::NodeMap;
use crate::trie::partial_trie::PartialTrieErrorView;
use crate::trie::path::{common_path, lemma_common_len, lemma_prefix_common, slice_of};
use crate::trie::proofs::{MultiProof, ProofNode};
use core::marker::PhantomData;
use vstd::prelude::*;

verus! {

/// The nodes of a tree below a handle, put into a storage under their hashes.
fn store_nodes<H: StarkHash>(handle: &NodeHandle, db: &mut KeyValueDB)
    requires
        handle.sound::<H>(),
    ensures
        final(db)@ == handle@.store::<H>(old(db)@),
    decreases handle,
{
    let hash = handle.get_or_compute_node_hash::<H>();
    match handle {
        NodeHandle::Hash(_) => {},
        NodeHandle::InMemory(node) => match &**node {
            Node::Binary(node) => {
                store_nodes::<H>(&node.left, db);
                store_nodes::<H>(&node.right, db);
                let left = node.left.get_or_compute_node_hash::<H>();
                let right = node.right.get_or_compute_node_hash::<H>();
                db.insert(hash, ProofNode::Binary { left, right });
            },
            Node::Edge(node) => {
                store_nodes::<H>(&node.child, db);
                let child = node.child.get_or_compute_node_hash::<H>();
                db.insert(hash, ProofNode::Edge { child, path: node.path.clone() });
            },
        },
    }
}

/// Adds the nodes on the way to `key` to a proof, from a handle that stands after its first
/// `depth` bits.
fn collect_way<H: StarkHash>(
    handle: &NodeHandle,
    key: &[bool],
    depth: usize,
    proof: &mut MultiProof,
)
    requires
        depth <= key@.len(),
        handle@.fits((key@.len() - depth) as nat),
        handle.sound::<H>(),
    ensures
        final(proof)@ == file_way::<H>(handle@.way::<H>(key@, depth as nat), old(proof)@),
        final(proof).0.order() == file_order::<H>(
            handle@.way::<H>(key@, depth as nat),
            old(proof)@,
            old(proof).0.order(),
        ),
    decreases handle,
{
    let total: usize = key.len();
    let node = match handle {
        NodeHandle::Hash(_) => {
            return;
        },
        NodeHandle::InMemory(node) => node,
    };
    let hash = handle.get_or_compute_node_hash::<H>();
    let ghost here = seq![(key@.take(depth as int), handle@.node::<H>())];
    let ghost before = proof@;
    let ghost order = proof.0.order();
    proof {
        lemma_node_hash::<H>(handle@);
        assert(here.drop_last() =~= Seq::<(Seq<bool>, NodeView)>::empty());
        reveal_with_fuel(file_way, 2);
        reveal_with_fuel(file_order, 2);
        assert(file_way::<H>(here, before) == before.insert(
            handle@.hash::<H>(),
            handle@.node::<H>(),
        ));
    }
    match &**node {
        Node::Binary(node) => {
            let left = node.left.get_or_compute_node_hash::<H>();
            let right = node.right.get_or_compute_node_hash::<H>();
            proof.0.insert(hash, ProofNode::Binary { left, right });
            match Direction::from(key[depth]) {
                Direction::Left => {
                    proof {
                        let lower = node.left@.way::<H>(key@, depth as nat + 1);
                        lemma_file_way_concat::<H>(here, lower, before, order);
                    }
                    collect_way::<H>(&node.left, key, depth + 1, proof);
                },
                Direction::Right => {
                    proof {
                        let lower = node.right@.way::<H>(key@, depth as nat + 1);
                        lemma_file_way_concat::<H>(here, lower, before, order);
                    }
                    collect_way::<H>(&node.right, key, depth + 1, proof);
                },
            }
        },
        Node::Edge(node) => {
            let child = node.child.get_or_compute_node_hash::<H>();
            proof.0.insert(hash, ProofNode::Edge { child, path: node.path.clone() });
            let length: usize = node.path.0.len();
            proof {
                lemma_common_len(node.path@, key@.skip(depth as int));
                lemma_prefix_common(node.path@, key@.skip(depth as int));
            }
            if common_path(&node.path.0, key, depth) == length {
                proof {
                    let lower = node.child@.way::<H>(key@, depth as nat + length as nat);
                    lemma_file_way_concat::<H>(here, lower, before, order);
                }
                collect_way::<H>(&node.child, key, depth + length, proof);
            }
        },
    }
}

/// The position of a node in a tree: the bits that lead to it.
#[derive(Debug, PartialEq, Eq, PartialOrd, Ord, Hash)]
pub struct NodeKey(pub Vec<bool>);

impl View for NodeKey {
    type V = Seq<bool>;

    open spec fn view(&self) -> Seq<bool> {
        self.0@
    }
}

impl Clone for NodeKey {
    fn clone(&self) -> (r: NodeKey)
        ensures
            r@ == self@,
    {
        NodeKey(slice_of(&self.0, 0, self.0.len()))
    }
}

/// The positions and heights of the nodes of a way.
pub open spec fn positions(way: Seq<(Seq<bool>, NodeView)>) -> Seq<(Seq<bool>, nat)> {
    way.map_values(|entry: (Seq<bool>, NodeView)| (entry.0, entry.0.len()))
}

/// What a list of positions and heights says.
pub open spec fn positions_view(list: Seq<(NodeKey, usize)>) -> Seq<(Seq<bool>, nat)> {
    list.map_values(|entry: (NodeKey, usize)| (entry.0@, entry.1 as nat))
}

/// Adds the positions and heights of the nodes on the way to `key` to a list, from a handle that
/// stands after its first `depth` bits.
fn collect_positions<H: StarkHash>(
    handle: &NodeHandle,
    key: &[bool],
    depth: usize,
    list: &mut Vec<(NodeKey, usize)>,
)
    requires
        depth <= key@.len(),
        handle@.fits((key@.len() - depth) as nat),
    ensures
        positions_view(final(list)@) == positions_view(old(list)@) + positions(
            handle@.way::<H>(key@, depth as nat),
        ),
    decreases handle,
{
    let total: usize = key.len();
    let node = match handle {
        NodeHandle::Hash(_) => {
            assert(positions_view(list@) =~= positions_view(list@) + positions(
                handle@.way::<H>(key@, depth as nat),
            ));
            return;
        },
        NodeHandle::InMemory(node) => node,
    };
    let ghost here = seq![(key@.take(depth as int), handle@.node::<H>())];
    let ghost before = positions_view(list@);
    list.push((NodeKey(slice_of(key, 0, depth)), depth));
    assert(positions_view(list@) =~= before + positions(here));
    match &**node {
        Node::Binary(node) => match Direction::from(key[depth]) {
            Direction::Left => {
                collect_positions::<H>(&node.left, key, depth + 1, list);
                assert(positions_view(list@) =~= before + positions(
                    here + node.left@.way::<H>(key@, depth as nat + 1),
                ));
            },
            Direction::Right => {
                collect_positions::<H>(&node.right, key, depth + 1, list);
                assert(positions_view(list@) =~= before + positions(
                    here + node.right@.way::<H>(key@, depth as nat + 1),
                ));
            },
        },
        Node::Edge(node) => {
            let length: usize = node.path.0.len();
            proof {
                lemma_common_len(node.path@, key@.skip(depth as int));
                lemma_prefix_common(node.path@, key@.skip(depth as int));
            }
            if common_path(&node.path.0, key, depth) == length {
                collect_positions::<H>(&node.child, key, depth + length, list);
                assert(positions_view(list@) =~= before + positions(
                    here + node.child@.way::<H>(key@, depth as nat + length as nat),
                ));
            }
        },
    }
}

/// The trie without entries has the hash zero.
pub open spec fn root_digest<H: StarkHash>(root: Option<Trie>) -> Felt {
    match root {
        None => Felt::of(0),
        Some(trie) => trie.hash::<H>(),
    }
}

/// What it comes to to set the value under `key`: the trie after it, and what kept it from being
/// changed.
///
/// Zero removes the entry.
pub open spec fn set_value<H: StarkHash>(
    root: Option<Trie>,
    nodes: Map<Felt, NodeView>,
    key: Seq<bool>,
    value: Felt,
) -> (Option<Trie>, Option<PartialTrieErrorView>) {
    match root {
        None => if value == Felt::of(0) {
            (None, None)
        } else {
            (Some(lead(key, Trie::Digest(value))), None)
        },
        Some(trie) => {
            let (loaded, error) = load_way::<H>(trie, nodes, key, 0);
            if error is Some {
                (Some(loaded), error)
            } else if value != Felt::of(0) {
                (Some(loaded.insert(key, value)), None)
            } else if loaded.lookup(key) == Some(Felt::of(0)) {
                (Some(loaded), None)
            } else {
                let (prepared, error) = load_beside::<H>(loaded, nodes, key, 0);
                if error is Some {
                    (Some(prepared), error)
                } else {
                    (prepared.remove(key), None)
                }
            }
        },
    }
}

/// Setting the value under `key` touches the nodes on the way to it.
pub open spec fn touches<H: StarkHash>(
    root: Option<Trie>,
    nodes: Map<Felt, NodeView>,
    key: Seq<bool>,
    value: Felt,
) -> bool {
    match root {
        None => value != Felt::of(0),
        Some(trie) => set_value::<H>(root, nodes, key, value).1 is None && (value != Felt::of(0)
            || load_way::<H>(trie, nodes, key, 0).0.lookup(key) != Some(Felt::of(0))),
    }
}

/// What it comes to to prove the values under `keys`: the trie after it, which may have more of
/// its nodes loaded, the nodes of the proof, and what went wrong.
pub open spec fn prove_keys<H: StarkHash>(
    root: Option<Trie>,
    nodes: Map<Felt, NodeView>,
    keys: Seq<Seq<bool>>,
    height: nat,
) -> (Option<Trie>, Map<Felt, NodeView>, Option<StorageErrorView>)
    decreases keys.len(),
{
    if keys.len() == 0 {
        (root, Map::empty(), None)
    } else {
        let (root, filed, error) = prove_keys::<H>(root, nodes, keys.drop_last(), height);
        let key = keys.last();
        if error is Some {
            (root, filed, error)
        } else if key.len() != height {
            (root, filed, Some(StorageErrorView::KeyLength { expected: height, got: key.len() }))
        } else {
            match root {
                None => (root, filed, None),
                Some(trie) => {
                    let (loaded, error) = load_way::<H>(trie, nodes, key, 0);
                    match error {
                        Some(error) => (Some(loaded), filed, Some(StorageErrorView::Trie(error))),
                        None => (
                            Some(loaded),
                            file_way::<H>(loaded.way::<H>(key, 0), filed),
                            None,
                        ),
                    }
                },
            }
        }
    }
}

/// The order in which the hashes of the nodes come to the proof of the values under `keys`.
pub open spec fn proof_order<H: StarkHash>(
    root: Option<Trie>,
    nodes: Map<Felt, NodeView>,
    keys: Seq<Seq<bool>>,
    height: nat,
) -> Seq<Felt>
    decreases keys.len(),
{
    if keys.len() == 0 {
        Seq::empty()
    } else {
        let (root_before, filed, error) = prove_keys::<H>(root, nodes, keys.drop_last(), height);
        let before = proof_order::<H>(root, nodes, keys.drop_last(), height);
        let key = keys.last();
        if error is Some || key.len() != height {
            before
        } else {
            match root_before {
                None => before,
                Some(trie) => {
                    let (loaded, error) = load_way::<H>(trie, nodes, key, 0);
                    if error is Some {
                        before
                    } else {
                        file_order::<H>(loaded.way::<H>(key, 0), filed, before)
                    }
                },
            }
        }
    }
}

/// The trie to look in: the one that is there, or else the one with the hash `original_root`.
pub open spec fn starting_point(root: Option<Trie>, original_root: Felt) -> Option<Trie> {
    match root {
        Some(trie) => Some(trie),
        None => if original_root == Felt::of(0) {
            None
        } else {
            Some(Trie::Digest(original_root))
        },
    }
}

/// What it comes to to go down to `key`: the trie after it, with the nodes on the way loaded, and
/// what kept one from being loaded.
pub open spec fn seek_key<H: StarkHash>(
    root: Option<Trie>,
    original_root: Felt,
    nodes: Map<Felt, NodeView>,
    key: Seq<bool>,
) -> (Option<Trie>, Option<PartialTrieErrorView>) {
    match starting_point(root, original_root) {
        None => (None, None),
        Some(trie) => {
            let (loaded, error) = load_way::<H>(trie, nodes, key, 0);
            if error is Some && loaded is Digest {
                (root, error)
            } else {
                (Some(loaded), error)
            }
        },
    }
}

/// The nodes on the way to `key`, from the root down.
pub open spec fn root_way<H: StarkHash>(root: Option<Trie>, key: Seq<bool>) -> Seq<
    (Seq<bool>, NodeView),
> {
    match root {
        None => Seq::empty(),
        Some(trie) => trie.way::<H>(key, 0),
    }
}

/// The bits of each of some keys.
pub open spec fn keys_view(keys: Seq<Vec<bool>>) -> Seq<Seq<bool>> {
    keys.map_values(|key: Vec<bool>| key@)
}

/// What the outcome of an operation says.
pub open spec fn failure<T>(result: Result<T, BonsaiStorageError>) -> Option<StorageErrorView> {
    match result {
        Ok(_) => None,
        Err(error) => Some(error@),
    }
}

/// What a failure of a tree says to its user.
pub open spec fn trie_failure(error: Option<PartialTrieErrorView>) -> Option<StorageErrorView> {
    match error {
        None => None,
        Some(error) => Some(StorageErrorView::Trie(error)),
    }
}

/// A tree of fixed height, whose nodes are in memory as far as they were needed.
#[derive(Debug)]
pub struct MerkleTree<H: StarkHash> {
    root_node: Option<NodeHandle>,
    identifier: Vec<u8>,
    max_height: u8,
    _hasher: PhantomData<H>,
}

impl<H: StarkHash> MerkleTree<H> {
    #[verifier::type_invariant]
    spec fn well_formed(self) -> bool {
        self.root_node matches Some(handle) ==> handle.sound::<H>() && handle@.fits(
            self.max_height as nat,
        )
    }

    /// The trie that the tree holds, or `None` if it has no entry.
    pub closed spec fn root(self) -> Option<Trie> {
        match self.root_node {
            None => None,
            Some(handle) => Some(handle@),
        }
    }

    /// The name of the tree.
    pub closed spec fn identifier(self) -> Seq<u8> {
        self.identifier@
    }

    /// The number of bits of the keys.
    pub closed spec fn max_height(self) -> u8 {
        self.max_height
    }

    /// No change was made since the root was hashed last.
    pub closed spec fn committed(self) -> bool {
        self.root_node matches Some(handle) ==> handle.settled()
    }

    /// A tree without entries.
    pub fn new(identifier: Vec<u8>, max_height: u8) -> (r: Self)
        ensures
            r.root() is None,
            r.identifier() == identifier@,
            r.max_height() == max_height,
            r.committed(),
    {
        MerkleTree { root_node: None, identifier, max_height, _hasher: PhantomData }
    }

    /// The number of bits of the keys.
    pub fn height(&self) -> (r: u8)
        ensures
            r == self.max_height(),
            self.root() matches Some(trie) ==> trie.fits(r as nat),
    {
        proof {
            use_type_invariant(self);
        }
        self.max_height
    }

    /// Whether no change was made since the root was hashed last.
    pub fn is_committed(&self) -> (r: bool)
        ensures
            r == self.committed(),
    {
        match &self.root_node {
            None => true,
            Some(NodeHandle::Hash(_)) => true,
            Some(NodeHandle::InMemory(node)) => node.get_hash().is_some(),
        }
    }

    /// The hash of the root, which is zero for a tree without entries.
    pub fn root_hash(&self) -> (r: Felt)
        requires
            self.committed(),
        ensures
            r == root_digest::<H>(self.root()),
    {
        self.digest()
    }

    /// The hash that the root has once what was changed is hashed.
    pub(crate) fn digest(&self) -> (r: Felt)
        ensures
            r == root_digest::<H>(self.root()),
    {
        proof {
            use_type_invariant(self);
        }
        match &self.root_node {
            None => Felt::zero(),
            Some(handle) => handle.get_or_compute_node_hash::<H>(),
        }
    }

    /// Hashes what was changed, and stores the nodes that are in memory.
    pub fn commit(&mut self, db: &mut KeyValueDB)
        ensures
            final(self).root() == old(self).root(),
            final(self).identifier() == old(self).identifier(),
            final(self).max_height() == old(self).max_height(),
            final(self).committed(),
            final(db)@ == match old(self).root() {
                None => old(db)@,
                Some(trie) => trie.store::<H>(old(db)@),
            },
            final(self).root() matches Some(trie) ==> trie.fits(final(self).max_height() as nat),
    {
        proof {
            use_type_invariant(&*self);
        }
        let mut root_node: Option<NodeHandle> = None;
        std::mem::swap(&mut root_node, &mut self.root_node);
        match root_node {
            None => {},
            Some(handle) => {
                let (handle, _) = handle.settle::<H>();
                store_nodes::<H>(&handle, db);
                self.root_node = Some(handle);
            },
        }
    }

    /// Sets the value under `key`. Zero removes the entry.
    pub fn set(&mut self, db: &KeyValueDB, key: &[bool], value: Felt) -> (r: Result<
        (),
        BonsaiStorageError,
    >)
        ensures
            final(self).identifier() == old(self).identifier(),
            final(self).max_height() == old(self).max_height(),
            final(self).root() matches Some(trie) ==> trie.fits(final(self).max_height() as nat),
            key@.len() != old(self).max_height() ==> final(self).root() == old(self).root()
                && final(self).committed() == old(self).committed() && failure(r) == Some(
                StorageErrorView::KeyLength {
                    expected: old(self).max_height() as nat,
                    got: key@.len(),
                },
            ),
            key@.len() == old(self).max_height() ==> ({
                let (root, error) = set_value::<H>(old(self).root(), db@, key@, value);
                &&& final(self).root() == root
                &&& failure(r) == trie_failure(error)
                &&& final(self).committed() == if touches::<H>(old(self).root(), db@, key@, value) {
                    root is None || root->0 is Digest
                } else {
                    old(self).committed()
                }
            }),
    {
        proof {
            use_type_invariant(&*self);
        }
        if key.len() != self.max_height as usize {
            return Err(
                BonsaiStorageError::KeyLength {
                    expected: self.max_height as usize,
                    got: key.len(),
                },
            );
        }
        assert(key@.skip(0) =~= key@);
        let nothing = MultiProof(NodeMap::new());
        assert(at_hand(db@, nothing@) =~= db@);
        let mut root_node: Option<NodeHandle> = None;
        std::mem::swap(&mut root_node, &mut self.root_node);
        let handle = match root_node {
            None => {
                if value != Felt::zero() {
                    let bits = slice_of(key, 0, key.len());
                    assert(bits@ =~= key@);
                    proof {
                        lemma_lead_fits(key@, Trie::Digest(value), key@.len());
                    }
                    self.root_node = Some(lead_handle::<H>(bits, NodeHandle::Hash(value)));
                }
                return Ok(());
            },
            Some(handle) => handle,
        };
        let ghost trie = handle@;
        let (handle, error) = fetch_way::<H>(handle, db, &nothing, key, 0);
        if let Some(error) = error {
            self.root_node = Some(handle);
            return Err(BonsaiStorageError::from(error));
        }
        proof {
            lemma_load_way_known::<H>(trie, db@, key@, 0);
        }
        if value != Felt::zero() {
            proof {
                lemma_insert_fits(handle@, key@, value);
            }
            self.root_node = Some(insert_value::<H>(handle, key, 0, value));
            return Ok(());
        }
        if value_at(&handle, key, 0) == Felt::zero() {
            self.root_node = Some(handle);
            return Ok(());
        }
        proof {
            lemma_load_beside::<H>(handle@, db@, key@, 0);
        }
        let (handle, error) = fetch_beside::<H>(handle, db, &nothing, key, 0);
        if let Some(error) = error {
            self.root_node = Some(handle);
            return Err(BonsaiStorageError::from(error));
        }
        proof {
            lemma_remove_lookup(handle@, key@, key@);
        }
        self.root_node = remove_value::<H>(handle, key, 0);
        Ok(())
    }

    /// Goes down to `key`, and loads the nodes on the way from the storage or else from the
    /// proof. A tree without entries is taken for the one with the root hash `original_root`.
    ///
    /// Gives the positions and heights of the nodes on the way.
    pub fn traverse_to(
        &mut self,
        db: &KeyValueDB,
        proof: &MultiProof,
        key: &[bool],
        original_root: Felt,
    ) -> (r: Result<Vec<(NodeKey, usize)>, BonsaiStorageError>)
        requires
            key@.len() == old(self).max_height(),
        ensures
            final(self).identifier() == old(self).identifier(),
            final(self).max_height() == old(self).max_height(),
            final(self).committed() == old(self).committed(),
            final(self).root() matches Some(trie) ==> trie.fits(final(self).max_height() as nat),
            ({
                let (root, error) = seek_key::<H>(
                    old(self).root(),
                    original_root,
                    at_hand(db@, proof@),
                    key@,
                );
                &&& final(self).root() == root
                &&& failure(r) == trie_failure(error)
                &&& r matches Ok(list) ==> positions_view(list@) == positions(
                    root_way::<H>(root, key@),
                )
                &&& r is Ok && root is Some ==> root->0.lookup(key@) is Some && root->0.fits(
                    key@.len(),
                )
            }),
    {
        proof {
            use_type_invariant(&*self);
        }
        assert(key@.skip(0) =~= key@);
        let mut list: Vec<(NodeKey, usize)> = Vec::new();
        let mut root_node: Option<NodeHandle> = None;
        std::mem::swap(&mut root_node, &mut self.root_node);
        let was_empty = root_node.is_none();
        let handle = match root_node {
            Some(handle) => handle,
            None => {
                if original_root == Felt::zero() {
                    assert(positions_view(list@) =~= positions(
                        Seq::<(Seq<bool>, NodeView)>::empty(),
                    ));
                    return Ok(list);
                }
                NodeHandle::Hash(original_root)
            },
        };
        let ghost trie = handle@;
        let (handle, error) = fetch_way::<H>(handle, db, proof, key, 0);
        if let Some(error) = error {
            let unloaded = match &handle {
                NodeHandle::Hash(_) => true,
                NodeHandle::InMemory(_) => false,
            };
            if !(was_empty && unloaded) {
                self.root_node = Some(handle);
            }
            return Err(BonsaiStorageError::from(error));
        }
        proof {
            lemma_load_way_known::<H>(trie, at_hand(db@, proof@), key@, 0);
        }
        collect_positions::<H>(&handle, key, 0, &mut list);
        assert(positions_view(list@) =~= positions(handle@.way::<H>(key@, 0)));
        self.root_node = Some(handle);
        Ok(list)
    }

    /// Proves the values under `keys`.
    pub fn get_multi_proof(&mut self, db: &KeyValueDB, keys: &[Vec<bool>]) -> (r: Result<
        MultiProof,
        BonsaiStorageError,
    >)
        ensures
            final(self).identifier() == old(self).identifier(),
            final(self).max_height() == old(self).max_height(),
            final(self).committed(),
            final(self).root() matches Some(trie) ==> trie.fits(final(self).max_height() as nat),
            ({
                let (root, filed, error) = prove_keys::<H>(
                    old(self).root(),
                    db@,
                    keys_view(keys@),
                    old(self).max_height() as nat,
                );
                &&& final(self).root() == root
                &&& failure(r) == error
                &&& r matches Ok(multi_proof) ==> multi_proof@ == filed
                    && multi_proof.0.order() == proof_order::<H>(
                    old(self).root(),
                    db@,
                    keys_view(keys@),
                    old(self).max_height() as nat,
                )
            }),
    {
        proof {
            use_type_invariant(&*self);
        }
        let ghost root = self.root();
        let ghost all = keys_view(keys@);
        let max_height = self.max_height;
        let nothing = MultiProof(NodeMap::new());
        assert(at_hand(db@, nothing@) =~= db@);
        let mut multi_proof = MultiProof(NodeMap::new());
        let mut root_node: Option<NodeHandle> = None;
        std::mem::swap(&mut root_node, &mut self.root_node);
        let mut handle = match root_node {
            None => None,
            Some(handle) => Some(handle.settle::<H>().0),
        };
        let mut error: Option<BonsaiStorageError> = None;
        let mut i: usize = 0;
        while i < keys.len() && error.is_none()
            invariant
                i <= keys@.len(),
                all == keys_view(keys@),
                at_hand(db@, nothing@) == db@,
                handle matches Some(handle) ==> handle.sound::<H>() && handle.settled()
                    && handle@.fits(max_height as nat),
                prove_keys::<H>(root, db@, all.take(i as int), max_height as nat) == (
                    match handle {
                        None => None,
                        Some(handle) => Some(handle@),
                    },
                    multi_proof@,
                    match error {
                        None => None,
                        Some(error) => Some(error@),
                    },
                ),
                multi_proof.0.order() == proof_order::<H>(
                    root,
                    db@,
                    all.take(i as int),
                    max_height as nat,
                ),
            decreases keys@.len() - i,
        {
            let key = &keys[i];
            assert(all.take(i + 1).drop_last() =~= all.take(i as int));
            assert(key@.skip(0) =~= key@);
            i += 1;
            if key.len() != max_height as usize {
                error = Some(
                    BonsaiStorageError::KeyLength {
                        expected: max_height as usize,
                        got: key.len(),
                    },
                );
            } else if let Some(old_handle) = handle {
                let (new_handle, failed) = fetch_way::<H>(old_handle, db, &nothing, key, 0);
                match failed {
                    Some(failed) => {
                        error = Some(BonsaiStorageError::from(failed));
                    },
                    None => {
                        collect_way::<H>(&new_handle, key, 0, &mut multi_proof);
                    },
                }
                handle = Some(new_handle);
            } else {
                handle = None;
            }
        }
        self.root_node = handle;
        proof {
            lemma_prove_keys_failed::<H>(root, db@, all, max_height as nat, i as int);
            assert(all.take(all.len() as int) =~= all);
        }
        match error {
            Some(error) => Err(error),
            None => Ok(multi_proof),
        }
    }
}

/// Once a key could not be proved, nothing more happens.
pub proof fn lemma_prove_keys_failed<H: StarkHash>(
    root: Option<Trie>,
    nodes: Map<Felt, NodeView>,
    keys: Seq<Seq<bool>>,
    height: nat,
    i: int,
)
    requires
        0 <= i <= keys.len(),
    ensures
        prove_keys::<H>(root, nodes, keys.take(i), height).2 is Some ==> prove_keys::<H>(
            root,
            nodes,
            keys,
            height,
        ) == prove_keys::<H>(root, nodes, keys.take(i), height),
    decreases keys.len(),
{
    if i < keys.len() {
        lemma_prove_keys_failed::<H>(root, nodes, keys.drop_last(), height, i);
        assert(keys.drop_last().take(i) =~= keys.take(i));
    } else {
        assert(keys.take(i) =~= keys);
    }
}

} // verus!
