use partial_bonsai_trie::error::BonsaiStorageError;
use partial_bonsai_trie::felt::{Felt, Pedersen};
use partial_bonsai_trie::key_value_db::KeyValueDB;
use partial_bonsai_trie::trie::node_map::NodeMap;
use partial_bonsai_trie::trie::partial_trie::{PartialTrie, PartialTrieError};
use partial_bonsai_trie::trie::path::Path;
use partial_bonsai_trie::trie::proofs::{MultiProof, ProofNode, ProofVerificationError};
use partial_bonsai_trie::trie::tree::{MerkleTree, NodeKey};

fn bits(text: &str) -> Vec<bool> {
    text.chars().map(|c| c == '1').collect()
}

fn felt(value: u64) -> Felt {
    Felt::from_u64(value)
}

fn nothing() -> MultiProof {
    MultiProof(NodeMap::new())
}

fn twelve_keys() -> Vec<Vec<bool>> {
    [
        "10000000", "01000000", "11000000", "00100000", "10100000", "01100000", "11100000",
        "00010000", "10010000", "00001010", "00001011", "00001100",
    ]
    .iter()
    .map(|key| bits(key))
    .collect()
}

#[test]
fn test_set_root_multiple_calls_single_test_height_8() {
    let mut base_db = KeyValueDB::new();
    let mut reference_db = KeyValueDB::new();
    let mut fork_db = KeyValueDB::new();
    let mut compare_db = KeyValueDB::new();
    let mut base_tree = MerkleTree::<Pedersen>::new(vec![1], 8);
    let mut tree_to_compare = MerkleTree::<Pedersen>::new(vec![2], 8);
    let mut reference_tree = MerkleTree::<Pedersen>::new(vec![3], 8);
    let mut fork_tree = PartialTrie::<Pedersen>::new(vec![4], 8);

    let keys = twelve_keys();
    let values: Vec<Felt> = (1..=12u64).map(felt).collect();
    for (key, value) in keys.iter().zip(values.iter()).take(3) {
        base_tree.set(&base_db, key, *value).unwrap();
        reference_tree.set(&reference_db, key, *value).unwrap();
    }
    base_tree.commit(&mut base_db);
    let original_root = base_tree.root_hash();
    let mut current_root = original_root;
    let proof_for_one = base_tree.get_multi_proof(&base_db, &keys[..1]).unwrap();

    for (key, value) in keys.iter().zip(values.iter()).skip(3) {
        let proof = base_tree.get_multi_proof(&base_db, &[key.clone()]).unwrap();
        let proof_root = proof.0.first().unwrap();
        let proof_root_clone = proof.clone();
        reference_tree.set(&reference_db, key, *value).unwrap();
        reference_tree.commit(&mut reference_db);

        let told = fork_tree
            .set_with_proof(&mut fork_db, key, *value, proof_root_clone, proof_root)
            .unwrap();
        fork_tree.commit(&mut fork_db);
        current_root = fork_tree.root_hash();
        assert_eq!(told, current_root);
        assert_eq!(current_root, reference_tree.root_hash());
    }

    for (key, value) in keys.iter().zip(values.iter()) {
        tree_to_compare.set(&compare_db, key, *value).unwrap();
    }
    tree_to_compare.commit(&mut compare_db);
    base_tree.get_multi_proof(&compare_db, &keys[11..]).unwrap();
    let actual_root = tree_to_compare.root_hash();
    assert_eq!(current_root, actual_root, "Next root calculation failed");

    fork_tree
        .set_with_proof(&mut fork_db, &keys[0], felt(13), proof_for_one, original_root)
        .unwrap();
    fork_tree.commit(&mut fork_db);
    let calculated_updated_root = fork_tree.root_hash();
    tree_to_compare.set(&compare_db, &keys[0], felt(13)).unwrap();
    tree_to_compare.commit(&mut compare_db);
    let actual_updated_root = tree_to_compare.root_hash();
    assert_eq!(calculated_updated_root, actual_updated_root, "UPDATING ROOT FAILED");
}

#[test]
fn test_bonsai_partial_trie() {
    let mut base_db = KeyValueDB::new();
    let mut reference_db = KeyValueDB::new();
    let mut fork_db = KeyValueDB::new();
    let mut compare_db = KeyValueDB::new();
    let mut base_tree = MerkleTree::<Pedersen>::new(vec![1], 8);
    let mut tree_to_compare = MerkleTree::<Pedersen>::new(vec![2], 8);
    let mut reference_tree = MerkleTree::<Pedersen>::new(vec![3], 8);
    let mut fork_tree = PartialTrie::<Pedersen>::new(vec![4], 8);

    let keys = twelve_keys();
    let values: Vec<Felt> = (1..=12u64).map(felt).collect();
    for (key, value) in keys.iter().zip(values.iter()).take(3) {
        base_tree.set(&base_db, key, *value).unwrap();
        reference_tree.set(&reference_db, key, *value).unwrap();
    }
    base_tree.commit(&mut base_db);
    let original_root = base_tree.root_hash();
    let proof_for_one = base_tree.get_multi_proof(&base_db, &keys[..1]).unwrap();
    let mut current_root = original_root;

    for (key, value) in keys.iter().zip(values.iter()).skip(3) {
        let proof = base_tree.get_multi_proof(&base_db, &[key.clone()]).unwrap();
        reference_tree.set(&reference_db, key, *value).unwrap();
        reference_tree.commit(&mut reference_db);
        fork_tree.set_with_proof(&mut fork_db, key, *value, proof, original_root).unwrap();
        fork_tree.commit(&mut fork_db);
        current_root = fork_tree.root_hash();
    }

    for (key, value) in keys.iter().zip(values.iter()) {
        tree_to_compare.set(&compare_db, key, *value).unwrap();
    }
    tree_to_compare.commit(&mut compare_db);
    base_tree.get_multi_proof(&compare_db, &keys[11..]).unwrap();
    let actual_root = tree_to_compare.root_hash();
    assert_eq!(current_root, actual_root, "Next root calculation failed");

    fork_tree
        .set_with_proof(&mut fork_db, &keys[0], felt(13), proof_for_one, original_root)
        .unwrap();
    fork_tree.commit(&mut fork_db);
    let calculated_updated_root = fork_tree.root_hash();
    tree_to_compare.set(&compare_db, &keys[0], felt(13)).unwrap();
    tree_to_compare.commit(&mut compare_db);
    let actual_updated_root = tree_to_compare.root_hash();
    assert_eq!(calculated_updated_root, actual_updated_root, "UPDATING ROOT FAILED");
}

/// A stream of numbers that look random.
struct Numbers(u64);

impl Numbers {
    fn next(&mut self) -> u64 {
        self.0 = self.0.wrapping_mul(6364136223846793005).wrapping_add(1442695040888963407);
        self.0 >> 33
    }

    fn entries(&mut self, height: u8, count: u64) -> Vec<(Vec<bool>, Felt)> {
        (0..count)
            .map(|_| {
                let key = (0..height).map(|_| self.next() & 1 == 1).collect();
                (key, felt(self.next() % 254 + 2))
            })
            .collect()
    }
}

/// Sets new entries in a fork of a tree, and in a copy of the tree, and compares the roots.
fn test_set_root_multiple_calls(
    height: u8,
    initial_keys_values: Vec<(Vec<bool>, Felt)>,
    new_keys_values: Vec<(Vec<bool>, Felt)>,
) {
    let mut base_db = KeyValueDB::new();
    let mut reference_db = KeyValueDB::new();
    let mut fork_db = KeyValueDB::new();
    let mut base = MerkleTree::<Pedersen>::new(vec![1], height);
    let mut reference = MerkleTree::<Pedersen>::new(vec![2], height);
    let mut fork = PartialTrie::<Pedersen>::new(vec![3], height);
    for (key, value) in initial_keys_values.iter() {
        base.set(&base_db, key, *value).unwrap();
        reference.set(&reference_db, key, *value).unwrap();
        base.commit(&mut base_db);
        reference.commit(&mut reference_db);
    }
    let mut calculated_roots = Vec::new();
    for (key, value) in new_keys_values.iter() {
        let proof = base.get_multi_proof(&base_db, &[key.clone()]).unwrap();
        let proof_root = proof.0.first().unwrap();
        fork.set_with_proof(&mut fork_db, key, *value, proof, proof_root).unwrap();
        fork.commit(&mut fork_db);
        calculated_roots.push(fork.root_hash());
    }
    for ((key, value), expected_root) in new_keys_values.iter().zip(calculated_roots) {
        reference.set(&reference_db, key, *value).unwrap();
        reference.commit(&mut reference_db);
        assert_eq!(expected_root, reference.root_hash());
    }
}

#[test]
fn test_set_root_multiple_calls_height_2() {
    let mut numbers = Numbers(2);
    for round in 0..40 {
        let initial = numbers.entries(2, 1 << (round % 4));
        let new = numbers.entries(2, round % 2 + 1);
        test_set_root_multiple_calls(2, initial, new);
    }
}

#[test]
fn test_set_root_multiple_calls_height_4() {
    let mut numbers = Numbers(4);
    for round in 0..40 {
        let initial = numbers.entries(4, 1 << (round % 4));
        let new = numbers.entries(4, round % 4 + 1);
        test_set_root_multiple_calls(4, initial, new);
    }
}

#[test]
fn test_set_root_multiple_calls_height_8() {
    let mut numbers = Numbers(8);
    for round in 0..20 {
        let initial = numbers.entries(8, 1 << (round % 4));
        let new = numbers.entries(8, round % 19 + 1);
        test_set_root_multiple_calls(8, initial, new);
    }
}

#[test]
fn test_set_root_multiple_calls_height_24() {
    let mut numbers = Numbers(24);
    for round in 0..20 {
        let initial = numbers.entries(24, 1 << (round % 4));
        let new = numbers.entries(24, round % 4 + 1);
        test_set_root_multiple_calls(24, initial, new);
    }
}

#[test]
fn test_set_root_multiple_calls_height_251() {
    let mut numbers = Numbers(251);
    for round in 0..8 {
        let initial = numbers.entries(251, 1 << (round % 4));
        let new = numbers.entries(251, round % 4 + 1);
        test_set_root_multiple_calls(251, initial, new);
    }
}

/// A tree of height four with three entries, its storage and its root hash.
fn small_tree() -> (MerkleTree<Pedersen>, KeyValueDB, Felt) {
    let mut db = KeyValueDB::new();
    let mut tree = MerkleTree::<Pedersen>::new(vec![], 4);
    tree.set(&db, &bits("0010"), felt(5)).unwrap();
    tree.set(&db, &bits("0011"), felt(6)).unwrap();
    tree.set(&db, &bits("1000"), felt(7)).unwrap();
    tree.commit(&mut db);
    let root = tree.root_hash();
    (tree, db, root)
}

#[test]
fn setting_tells_the_root_before_it_is_committed() {
    let mut db = KeyValueDB::new();
    let mut fork = PartialTrie::<Pedersen>::new(vec![], 4);
    let one = fork.set_with_proof(&mut db, &bits("0010"), felt(5), nothing(), felt(0)).unwrap();
    let leaf = ProofNode::Edge { child: felt(5), path: Path(bits("0010")) };
    assert_eq!(one, leaf.hash::<Pedersen>());
    fork.set_with_proof(&mut db, &bits("0011"), felt(6), nothing(), felt(0)).unwrap();
    let three = fork.set_with_proof(&mut db, &bits("1000"), felt(7), nothing(), felt(0)).unwrap();
    assert!(!fork.trie.is_committed());
    assert_eq!(three, small_tree().2);
}

#[test]
fn zero_cannot_be_set() {
    let mut db = KeyValueDB::new();
    let mut fork = PartialTrie::<Pedersen>::new(vec![], 4);
    let result = fork.set_with_proof(&mut db, &bits("00"), felt(0), nothing(), felt(0));
    assert!(matches!(result, Err(BonsaiStorageError::Trie(PartialTrieError::SetValueZero))));
}

#[test]
fn keys_must_have_the_height_of_the_tree() {
    let mut db = KeyValueDB::new();
    let mut fork = PartialTrie::<Pedersen>::new(vec![], 4);
    let result = fork.set_with_proof(&mut db, &bits("00"), felt(1), nothing(), felt(0));
    assert!(matches!(result, Err(BonsaiStorageError::Trie(PartialTrieError::KeyLength))));
    let result = fork.seek_to(&bits("00000"), nothing(), felt(0), &db);
    assert!(matches!(result, Err(BonsaiStorageError::Trie(PartialTrieError::KeyLength))));
}

#[test]
fn nodes_may_be_missing() {
    let (mut tree, tree_db, root) = small_tree();
    let mut db = KeyValueDB::new();
    let mut fork = PartialTrie::<Pedersen>::new(vec![], 4);
    let result = fork.set_with_proof(&mut db, &bits("0010"), felt(1), nothing(), root);
    assert!(matches!(result, Err(BonsaiStorageError::Trie(PartialTrieError::NodeNotFound))));
    let other = tree.get_multi_proof(&tree_db, &[bits("1000")]).unwrap();
    let result = fork.set_with_proof(&mut db, &bits("0010"), felt(1), other, root);
    assert!(matches!(result, Err(BonsaiStorageError::Trie(PartialTrieError::NodeNotFound))));
    assert_eq!(fork.root_hash(), root);
}

#[test]
fn nodes_must_have_their_hashes() {
    let mut db = KeyValueDB::new();
    let mut map = NodeMap::new();
    let node = ProofNode::Binary { left: felt(1), right: felt(2) };
    let hash = node.hash::<Pedersen>();
    map.insert(felt(9), node);
    let mut fork = PartialTrie::<Pedersen>::new(vec![], 4);
    let result = fork.set_with_proof(&mut db, &bits("0010"), felt(1), MultiProof(map), felt(9));
    match result {
        Err(BonsaiStorageError::Trie(PartialTrieError::ProofVerificationError(
            ProofVerificationError::HashMismatch { path, expected, got },
        ))) => {
            assert_eq!(path, bits(""));
            assert_eq!(expected, felt(9));
            assert_eq!(got, hash);
        }
        other => panic!("{other:?}"),
    }
}

#[test]
fn edges_must_have_bits_but_not_too_many() {
    let mut db = KeyValueDB::new();
    for path in ["", "00100"] {
        let node = ProofNode::Edge { child: felt(1), path: Path(bits(path)) };
        let hash = node.hash::<Pedersen>();
        let mut map = NodeMap::new();
        map.insert(hash, node);
        let mut fork = PartialTrie::<Pedersen>::new(vec![], 4);
        let result = fork.set_with_proof(&mut db, &bits("0010"), felt(1), MultiProof(map), hash);
        match result {
            Err(BonsaiStorageError::Trie(PartialTrieError::ProofVerificationError(
                ProofVerificationError::InvalidProof,
            ))) => assert_eq!(path, ""),
            Err(BonsaiStorageError::Trie(PartialTrieError::ProofVerificationError(
                ProofVerificationError::Overshot { path: overshot, expected_max_height },
            ))) => {
                assert_eq!(path, "00100");
                assert_eq!(overshot, bits("00100"));
                assert_eq!(expected_max_height, 4);
            }
            other => panic!("{other:?}"),
        }
    }
}

#[test]
fn seeking_tells_the_nodes_on_the_way() {
    let (mut tree, tree_db, root) = small_tree();
    let db = KeyValueDB::new();
    let mut fork = PartialTrie::<Pedersen>::new(vec![], 4);
    let proof = tree.get_multi_proof(&tree_db, &[bits("0011")]).unwrap();
    let way = fork.seek_to(&bits("0011"), proof, root, &db).unwrap();
    assert_eq!(
        way,
        vec![(NodeKey(bits("")), 0), (NodeKey(bits("0")), 1), (NodeKey(bits("001")), 3)]
    );
    // What is loaded needs no proof any more, and the original root is not asked for.
    let way = fork.seek_to(&bits("0100"), nothing(), felt(0), &db).unwrap();
    assert_eq!(way, vec![(NodeKey(bits("")), 0), (NodeKey(bits("0")), 1)]);
    assert!(fork.trie.is_committed());
    assert_eq!(fork.root_hash(), root);
}

#[test]
fn seeking_in_a_tree_without_entries() {
    let db = KeyValueDB::new();
    let mut fork = PartialTrie::<Pedersen>::new(vec![], 4);
    assert_eq!(fork.seek_to(&bits("0011"), nothing(), felt(0), &db).unwrap(), vec![]);
    assert_eq!(fork.root_hash(), felt(0));
}

#[test]
fn a_fork_of_a_tree_without_entries_needs_no_proof() {
    let mut db = KeyValueDB::new();
    let mut fork = PartialTrie::<Pedersen>::new(vec![], 4);
    fork.set_with_proof(&mut db, &bits("0010"), felt(5), nothing(), felt(0)).unwrap();
    fork.set_with_proof(&mut db, &bits("1000"), felt(7), nothing(), felt(0)).unwrap();
    fork.set_with_proof(&mut db, &bits("0011"), felt(6), nothing(), felt(0)).unwrap();
    assert!(!fork.trie.is_committed());
    fork.commit(&mut db);
    assert_eq!(fork.root_hash(), small_tree().2);
}

#[test]
fn the_storage_comes_before_the_proof() {
    let (_, mut tree_db, root) = small_tree();
    let mut fork = PartialTrie::<Pedersen>::new(vec![], 4);
    fork.set_with_proof(&mut tree_db, &bits("0010"), felt(8), nothing(), root).unwrap();
    let mut map = NodeMap::new();
    map.insert(root, ProofNode::Binary { left: felt(1), right: felt(2) });
    let mut other = PartialTrie::<Pedersen>::new(vec![], 4);
    other.set_with_proof(&mut tree_db, &bits("0010"), felt(8), MultiProof(map), root).unwrap();
    fork.commit(&mut tree_db);
    other.commit(&mut tree_db);
    assert_eq!(fork.root_hash(), other.root_hash());
}
