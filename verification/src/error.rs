//! What goes wrong with tries.

use crate::trie::partial_trie::{PartialTrieError, PartialTrieErrorView};
use vstd::prelude::*;

verus! {

/// Why an operation on a tree failed.
#[derive(Debug)]
pub enum BonsaiStorageError {
    /// The tree could not be read or changed.
    Trie(PartialTrieError),
    /// A key does not have as many bits as the tree has levels.
    KeyLength { expected: usize, got: usize },
}

/// What a [`BonsaiStorageError`] says.
#[verifier::ext_equal]
pub enum StorageErrorView {
    Trie(PartialTrieErrorView),
    KeyLength { expected: nat, got: nat },
}

impl View for BonsaiStorageError {
    type V = StorageErrorView;

    open spec fn view(&self) -> StorageErrorView {
        match *self {
            BonsaiStorageError::Trie(error) => StorageErrorView::Trie(error@),
            BonsaiStorageError::KeyLength { expected, got } => StorageErrorView::KeyLength {
                expected: expected as nat,
                got: got as nat,
            },
        }
    }
}

impl BonsaiStorageError {
    /// What went wrong in the tree, said to a reader. A key of another length is told by its
    /// numbers.
    pub fn trie_message(&self) -> (r: Option<String>)
        ensures
            match self@ {
                StorageErrorView::Trie(error) => r matches Some(text) && text@ == error.text(),
                StorageErrorView::KeyLength { .. } => r is None,
            },
    {
        match self {
            BonsaiStorageError::Trie(error) => Some(error.message()),
            BonsaiStorageError::KeyLength { .. } => None,
        }
    }
}

impl vstd::std_specs::convert::FromSpecImpl<PartialTrieError> for BonsaiStorageError {
    open spec fn obeys_from_spec() -> bool {
        true
    }

    open spec fn from_spec(error: PartialTrieError) -> BonsaiStorageError {
        BonsaiStorageError::Trie(error)
    }
}

impl From<PartialTrieError> for BonsaiStorageError {
    fn from(error: PartialTrieError) -> (r: BonsaiStorageError) {
        BonsaiStorageError::Trie(error)
    }
}

} // verus!
