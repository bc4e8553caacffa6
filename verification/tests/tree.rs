use partial_bonsai_trie::error::BonsaiStorageError;
use partial_bonsai_trie::felt::{Felt, Pedersen, Poseidon, StarkHash};
use partial_bonsai_trie::key_value_db::KeyValueDB;
use partial_bonsai_trie::trie::partial_trie::{PartialTrie, PartialTrieError};
use partial_bonsai_trie::trie::node_map::NodeMap;
use partial_bonsai_trie::trie::proofs::MultiProof;
use partial_bonsai_trie::trie::tree::MerkleTree;

fn bits(text: &str) -> Vec<bool> {
    text.chars().map(|c| c == '1').collect()
}

fn felt(value: u64) -> Felt {
    Felt::from_u64(value)
}

fn root_of(entries: &[(&str, u64)]) -> Felt {
    let mut db = KeyValueDB::new();
    let mut tree = MerkleTree::<Pedersen>::new(vec![], 4);
    for (key, value) in entries {
        tree.set(&db, &bits(key), felt(*value)).unwrap();
    }
    tree.commit(&mut db);
    tree.root_hash()
}

#[test]
fn roots_of_small_trees() {
    assert_eq!(root_of(&[]), felt(0));
    assert_eq!(
        root_of(&[("0110", 7)]),
        Pedersen::hash(&felt(7), &felt(6)).plus(&felt(4))
    );
    let left = Pedersen::hash(&felt(7), &felt(6)).plus(&felt(3));
    let right = Pedersen::hash(&felt(8), &felt(1)).plus(&felt(3));
    assert_eq!(root_of(&[("0110", 7), ("1001", 8)]), Pedersen::hash(&left, &right));
    let pair = Pedersen::hash(&felt(7), &felt(8));
    assert_eq!(
        root_of(&[("0110", 7), ("0111", 8)]),
        Pedersen::hash(&pair, &felt(3)).plus(&felt(3))
    );
}

#[test]
fn the_root_depends_on_the_contents_alone() {
    let entries = [("0110", 7), ("0111", 8), ("1001", 9), ("0000", 10), ("1000", 11)];
    let expected = root_of(&entries);
    let mut reversed = entries;
    reversed.reverse();
    assert_eq!(root_of(&reversed), expected);
    let mut detour = vec![("0110", 1), ("1111", 2), ("0001", 3)];
    detour.extend(entries);
    detour.push(("1111", 0));
    detour.push(("0001", 0));
    assert_eq!(root_of(&detour), expected);
}

#[test]
fn other_contents_give_another_root() {
    let entries = [("0110", 7), ("0111", 8), ("1001", 9)];
    assert_ne!(root_of(&entries), root_of(&entries[..2]));
    assert_ne!(root_of(&entries), root_of(&[("0110", 7), ("0111", 8), ("1001", 10)]));
}

#[test]
fn zero_removes_an_entry() {
    let rest = root_of(&[("0110", 7), ("1001", 9)]);
    assert_eq!(root_of(&[("0110", 7), ("0111", 8), ("1001", 9), ("0111", 0)]), rest);
    assert_eq!(root_of(&[("0110", 7), ("1001", 9), ("0010", 0)]), rest);
    assert_eq!(root_of(&[("0110", 7), ("0110", 0)]), felt(0));
    assert_eq!(root_of(&[("0110", 0)]), felt(0));
}

#[test]
fn values_can_be_told_after_changes() {
    let db = KeyValueDB::new();
    let mut tree = MerkleTree::<Poseidon>::new(vec![9], 4);
    assert_eq!(tree.height(), 4);
    tree.set(&db, &bits("0110"), felt(7)).unwrap();
    tree.set(&db, &bits("0111"), felt(8)).unwrap();
    tree.set(&db, &bits("0110"), felt(9)).unwrap();
    tree.set(&db, &bits("0111"), felt(0)).unwrap();
    tree.set(&db, &bits("0100"), felt(5)).unwrap();
    let keys: Vec<Vec<bool>> =
        ["0110", "0111", "0100", "1111"].iter().map(|key| bits(key)).collect();
    let proof = tree.get_multi_proof(&db, &keys).unwrap();
    let told: Vec<Felt> = proof
        .verify_proof::<Poseidon>(tree.root_hash(), &keys, 4)
        .into_iter()
        .map(|value| value.unwrap())
        .collect();
    assert_eq!(told, vec![felt(9), felt(0), felt(5), felt(0)]);
}

#[test]
fn uncommitted_changes_are_told_apart() {
    let mut db = KeyValueDB::new();
    let mut tree = MerkleTree::<Pedersen>::new(vec![1], 24);
    assert!(tree.is_committed());
    for i in 0..5u8 {
        let mut key = vec![false; 24];
        for bit in 0..8 {
            key[bit] = i >> (7 - bit) & 1 == 1;
        }
        tree.set(&db, &key, felt(i as u64 + 100)).unwrap();
        assert!(!tree.is_committed());
    }
    tree.commit(&mut db);
    assert!(tree.is_committed());
    // Removing what is not there changes nothing.
    tree.set(&db, &[true; 24], felt(0)).unwrap();
    assert!(tree.is_committed());
    tree.set(&db, &[true; 24], felt(1)).unwrap();
    assert!(!tree.is_committed());
}

#[test]
fn keys_have_the_height_of_the_tree() {
    let db = KeyValueDB::new();
    let mut tree = MerkleTree::<Pedersen>::new(vec![], 4);
    let result = tree.set(&db, &bits("01"), felt(1));
    assert!(matches!(result, Err(BonsaiStorageError::KeyLength { expected: 4, got: 2 })));
    assert_eq!(tree.root_hash(), felt(0));
}

#[test]
fn a_tree_of_height_zero_has_one_entry() {
    let mut db = KeyValueDB::new();
    let mut tree = MerkleTree::<Pedersen>::new(vec![], 0);
    tree.set(&db, &[], felt(3)).unwrap();
    assert!(tree.is_committed());
    assert_eq!(tree.root_hash(), felt(3));
    tree.commit(&mut db);
    tree.set(&db, &[], felt(0)).unwrap();
    assert_eq!(tree.root_hash(), felt(0));
}

/// A tree whose nodes are in the storage but not in memory, except those on one way.
fn reopened(entries: &[(&str, u64)], way: &str) -> (PartialTrie<Pedersen>, KeyValueDB) {
    let mut db = KeyValueDB::new();
    let mut tree = MerkleTree::<Pedersen>::new(vec![], 4);
    for (key, value) in entries {
        tree.set(&db, &bits(key), felt(*value)).unwrap();
    }
    tree.commit(&mut db);
    let mut fork = PartialTrie::<Pedersen>::new(vec![], 4);
    fork.seek_to(&bits(way), MultiProof(NodeMap::new()), tree.root_hash(), &db).unwrap();
    (fork, db)
}

#[test]
fn what_is_committed_can_be_read_back() {
    let entries = [("0110", 7), ("0111", 8), ("1001", 9), ("0000", 10), ("1000", 11)];
    let (mut fork, db) = reopened(&entries, "0110");
    let keys: Vec<Vec<bool>> = entries.iter().map(|(key, _)| bits(key)).collect();
    let root = fork.root_hash();
    assert_eq!(root, root_of(&entries));
    let proof = fork.trie.get_multi_proof(&db, &keys).unwrap();
    let told: Vec<Felt> = proof
        .verify_proof::<Pedersen>(root, &keys, 4)
        .into_iter()
        .map(|value| value.unwrap())
        .collect();
    let values: Vec<Felt> = entries.iter().map(|(_, value)| felt(*value)).collect();
    assert_eq!(told, values);
}

#[test]
fn removal_loads_the_node_that_takes_the_place_of_its_parent() {
    let entries = [("0110", 7), ("1001", 9)];
    let (mut fork, mut db) = reopened(&entries, "0110");
    fork.trie.set(&db, &bits("0110"), felt(0)).unwrap();
    fork.commit(&mut db);
    assert_eq!(fork.root_hash(), root_of(&entries[1..]));
}

#[test]
fn removal_without_that_node_fails_and_leaves_the_root() {
    let entries = [("0110", 7), ("1001", 9)];
    let (mut fork, _) = reopened(&entries, "0110");
    let result = fork.trie.set(&KeyValueDB::new(), &bits("0110"), felt(0));
    assert!(matches!(result, Err(BonsaiStorageError::Trie(PartialTrieError::NodeNotFound))));
    assert!(fork.trie.is_committed());
    assert_eq!(fork.root_hash(), root_of(&entries));
}

#[test]
fn committing_keeps_what_is_stored() {
    let first = [("0110", 7), ("1001", 9)];
    let mut db = KeyValueDB::new();
    let mut tree = MerkleTree::<Pedersen>::new(vec![], 4);
    for (key, value) in &first {
        tree.set(&db, &bits(key), felt(*value)).unwrap();
    }
    tree.commit(&mut db);
    let old_root = tree.root_hash();
    tree.set(&db, &bits("0110"), felt(8)).unwrap();
    tree.commit(&mut db);
    let mut fork = PartialTrie::<Pedersen>::new(vec![], 4);
    fork.seek_to(&bits("0110"), MultiProof(NodeMap::new()), old_root, &db).unwrap();
    assert_eq!(fork.root_hash(), old_root);
    assert_ne!(tree.root_hash(), old_root);
}
