//! A tree of which only some nodes are known, and which proofs complete as far as it is needed.

use crate::error::{BonsaiStorageError, StorageErrorView};
use crate::felt::{Felt, StarkHash};
use crate::key_value_db::KeyValueDB;
use crate::trie::model::{lead, Trie};
use crate::trie::proofs::{MultiProof, ProofVerificationError, VerificationErrorView};
use crate::trie::loading::{at_hand, lemma_load_way_idle};
use crate::trie::tree::{
    failure, positions, positions_view, root_digest, root_way, seek_key, trie_failure, MerkleTree,
    NodeKey,
};
use core::marker::PhantomData;
use vstd::prelude::*;

verus! {

/// Why a partial trie could not be read or changed.
#[derive(Debug)]
pub enum PartialTrieError {
    /// A node that the proof brings does not fit.
    ProofVerificationError(ProofVerificationError),
    /// A node is neither in the storage nor in the proof.
    NodeNotFound,
    /// A key does not have as many bits as the tree has levels.
    KeyLength,
    /// Zero is no value that could be set.
    SetValueZero,
    /// A node stands where the hash of one was expected.
    InvalidNodeHandle,
}

/// What a [`PartialTrieError`] says.
#[verifier::ext_equal]
pub enum PartialTrieErrorView {
    ProofVerificationError(VerificationErrorView),
    NodeNotFound,
    KeyLength,
    SetValueZero,
    InvalidNodeHandle,
}

impl View for PartialTrieError {
    type V = PartialTrieErrorView;

    open spec fn view(&self) -> PartialTrieErrorView {
        match *self {
            PartialTrieError::ProofVerificationError(error) => {
                PartialTrieErrorView::ProofVerificationError(error@)
            },
            PartialTrieError::NodeNotFound => PartialTrieErrorView::NodeNotFound,
            PartialTrieError::KeyLength => PartialTrieErrorView::KeyLength,
            PartialTrieError::SetValueZero => PartialTrieErrorView::SetValueZero,
            PartialTrieError::InvalidNodeHandle => PartialTrieErrorView::InvalidNodeHandle,
        }
    }
}

impl PartialTrieErrorView {
    /// What the error says to a reader.
    pub open spec fn text(self) -> Seq<char> {
        match self {
            PartialTrieErrorView::ProofVerificationError(error) => error.text(),
            PartialTrieErrorView::NodeNotFound => "Node not found in storage or proof"@,
            PartialTrieErrorView::KeyLength => "Key length is not equal to max height"@,
            PartialTrieErrorView::SetValueZero => "Set value is zero"@,
            PartialTrieErrorView::InvalidNodeHandle => {
                "Invalid node handle - expected hash but got in-memory node"@
            },
        }
    }
}

impl PartialTrieError {
    /// What the error says to a reader.
    pub fn message(&self) -> (r: String)
        ensures
            r@ == self@.text(),
    {
        match self {
            PartialTrieError::ProofVerificationError(error) => error.message(),
            PartialTrieError::NodeNotFound => "Node not found in storage or proof".to_owned(),
            PartialTrieError::KeyLength => "Key length is not equal to max height".to_owned(),
            PartialTrieError::SetValueZero => "Set value is zero".to_owned(),
            PartialTrieError::InvalidNodeHandle => {
                "Invalid node handle - expected hash but got in-memory node".to_owned()
            },
        }
    }
}

impl vstd::std_specs::convert::FromSpecImpl<ProofVerificationError> for PartialTrieError {
    open spec fn obeys_from_spec() -> bool {
        true
    }

    open spec fn from_spec(error: ProofVerificationError) -> PartialTrieError {
        PartialTrieError::ProofVerificationError(error)
    }
}

impl From<ProofVerificationError> for PartialTrieError {
    fn from(error: ProofVerificationError) -> (r: PartialTrieError) {
        PartialTrieError::ProofVerificationError(error)
    }
}

/// The trie with `value` under `key`, also where there was no entry before.
pub open spec fn insert_at_root(root: Option<Trie>, key: Seq<bool>, value: Felt) -> Trie {
    match root {
        None => lead(key, Trie::Digest(value)),
        Some(trie) => trie.insert(key, value),
    }
}

/// A tree of which only some nodes are known.
#[derive(Debug)]
pub struct PartialTrie<H: StarkHash> {
    pub trie: MerkleTree<H>,
    pub _hasher: PhantomData<H>,
}

impl<H: StarkHash> PartialTrie<H> {
    /// A tree of which no node is known.
    pub fn new(identifier: Vec<u8>, max_height: u8) -> (r: Self)
        ensures
            r.trie.root() is None,
            r.trie.identifier() == identifier@,
            r.trie.max_height() == max_height,
            r.trie.committed(),
    {
        PartialTrie { trie: MerkleTree::new(identifier, max_height), _hasher: PhantomData }
    }

    /// Sets the value under `key`, and tells the root hash after it.
    ///
    /// The nodes on the way that are not loaded come from the storage or else from the proof. At
    /// first the whole way does, from the node with the hash `original_root` on.
    pub fn set_with_proof(
        &mut self,
        db: &mut KeyValueDB,
        key: &[bool],
        value: Felt,
        proof: MultiProof,
        original_root: Felt,
    ) -> (r: Result<Felt, BonsaiStorageError>)
        ensures
            r matches Ok(root) ==> root == root_digest::<H>(final(self).trie.root()),
            final(self).trie.identifier() == old(self).trie.identifier(),
            final(self).trie.max_height() == old(self).trie.max_height(),
            final(self).trie.root() matches Some(trie) ==> trie.fits(
                final(self).trie.max_height() as nat,
            ),
            final(db)@ == old(db)@,
            value == Felt::of(0) ==> *final(self) == *old(self) && failure(r) == Some(
                StorageErrorView::Trie(PartialTrieErrorView::SetValueZero),
            ),
            value != Felt::of(0) && key@.len() != old(self).trie.max_height() ==> *final(self)
                == *old(self) && failure(r) == Some(
                StorageErrorView::Trie(PartialTrieErrorView::KeyLength),
            ),
            value != Felt::of(0) && key@.len() == old(self).trie.max_height() ==> ({
                let (root, error) = seek_key::<H>(
                    old(self).trie.root(),
                    original_root,
                    at_hand(old(db)@, proof@),
                    key@,
                );
                &&& failure(r) == trie_failure(error)
                &&& r is Err ==> final(self).trie.root() == root && final(self).trie.committed()
                    == old(self).trie.committed()
                &&& r is Ok ==> final(self).trie.root() == Some(insert_at_root(root, key@, value))
                    && final(self).trie.committed() == (insert_at_root(
                    root,
                    key@,
                    value,
                ) is Digest)
            }),
    {
        let height = self.trie.height();
        if value == Felt::zero() {
            return Err(BonsaiStorageError::from(PartialTrieError::SetValueZero));
        }
        if key.len() != height as usize {
            return Err(BonsaiStorageError::from(PartialTrieError::KeyLength));
        }
        match self.seek_to(key, proof, original_root, db) {
            Err(error) => {
                return Err(error);
            },
            Ok(_) => {},
        }
        proof {
            assert(key@.skip(0) =~= key@);
            if let Some(trie) = self.trie.root() {
                lemma_load_way_idle::<H>(trie, db@, key@, 0);
            }
        }
        match self.trie.set(db, key, value) {
            Err(error) => Err(error),
            Ok(_) => Ok(self.trie.digest()),
        }
    }

    /// Goes down to `key`, and loads the nodes on the way that are not loaded from the storage or
    /// else from the proof. A tree of which no node is known is completed from the node with the
    /// hash `original_root` on.
    ///
    /// Gives the positions and heights of the nodes on the way.
    pub fn seek_to(
        &mut self,
        key: &[bool],
        proof: MultiProof,
        original_root: Felt,
        db: &KeyValueDB,
    ) -> (r: Result<Vec<(NodeKey, usize)>, BonsaiStorageError>)
        ensures
            final(self).trie.identifier() == old(self).trie.identifier(),
            final(self).trie.max_height() == old(self).trie.max_height(),
            final(self).trie.root() matches Some(trie) ==> trie.fits(
                final(self).trie.max_height() as nat,
            ),
            final(self).trie.committed() == old(self).trie.committed(),
            key@.len() != old(self).trie.max_height() ==> *final(self) == *old(self) && failure(r)
                == Some(StorageErrorView::Trie(PartialTrieErrorView::KeyLength)),
            key@.len() == old(self).trie.max_height() ==> ({
                let (root, error) = seek_key::<H>(
                    old(self).trie.root(),
                    original_root,
                    at_hand(db@, proof@),
                    key@,
                );
                &&& final(self).trie.root() == root
                &&& failure(r) == trie_failure(error)
                &&& r matches Ok(list) ==> positions_view(list@) == positions(
                    root_way::<H>(root, key@),
                )
                &&& r is Ok && root is Some ==> root->0.lookup(key@) is Some && root->0.fits(
                    key@.len(),
                )
            }),
    {
        if key.len() != self.trie.height() as usize {
            return Err(BonsaiStorageError::from(PartialTrieError::KeyLength));
        }
        self.trie.traverse_to(db, &proof, key, original_root)
    }

    /// The hash of the root, which is zero for a tree without entries. The tree must have no
    /// change that is not committed.
    pub fn root_hash(&self) -> (r: Felt)
        requires
            self.trie.committed(),
        ensures
            r == root_digest::<H>(self.trie.root()),
    {
        self.trie.root_hash()
    }

    /// Hashes what was changed, and stores the nodes that are in memory.
    pub fn commit(&mut self, db: &mut KeyValueDB)
        ensures
            final(self).trie.root() == old(self).trie.root(),
            final(self).trie.identifier() == old(self).trie.identifier(),
            final(self).trie.max_height() == old(self).trie.max_height(),
            final(self).trie.root() matches Some(trie) ==> trie.fits(
                final(self).trie.max_height() as nat,
            ),
            final(self).trie.committed(),
            final(db)@ == match old(self).trie.root() {
                None => old(db)@,
                Some(trie) => trie.store::<H>(old(db)@),
            },
    {
        self.trie.commit(db)
    }
}

} // verus!
