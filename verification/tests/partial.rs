use partial_bonsai_trie::felt::{Felt, Pedersen};
use partial_bonsai_trie::key_value_db::KeyValueDB;
use partial_bonsai_trie::trie::node_map::NodeMap;
use partial_bonsai_trie::trie::partial::{PartialTrie, PartialTrieError};
use partial_bonsai_trie::trie::path::Path;
use partial_bonsai_trie::trie::proofs::{MultiProof, ProofNode};
use partial_bonsai_trie::trie::tree::MerkleTree;

fn bits(text: &str) -> Vec<bool> {
    text.chars().map(|c| c == '1').collect()
}

fn felt(value: u64) -> Felt {
    Felt::from_u64(value)
}

fn key(bytes: [u8; 3]) -> Vec<bool> {
    let mut bits = Vec::new();
    for byte in bytes {
        for i in 0..8 {
            bits.push(byte >> (7 - i) & 1 == 1);
        }
    }
    bits
}

fn nothing() -> MultiProof {
    MultiProof(NodeMap::new())
}

fn edge(path: &str, child: Felt) -> ProofNode {
    ProofNode::Edge { child, path: Path(bits(path)) }
}

fn proof_of(nodes: &[(Felt, ProofNode)]) -> MultiProof {
    let mut map = NodeMap::new();
    for (hash, node) in nodes {
        map.insert(*hash, node.clone());
    }
    MultiProof(map)
}

/// A tree of height four with the given entries, and its root hash.
fn tree_of(entries: &[(&str, u64)]) -> (MerkleTree<Pedersen>, Felt) {
    let mut db = KeyValueDB::new();
    let mut tree = MerkleTree::<Pedersen>::new(vec![], 4);
    for (key, value) in entries {
        tree.set(&db, &bits(key), felt(*value)).unwrap();
    }
    tree.commit(&mut db);
    let root = tree.root_hash();
    (tree, root)
}

#[test]
fn test_set_single_case() {
    let mut db1 = KeyValueDB::new();
    let mut db2 = KeyValueDB::new();
    let mut tree1 = MerkleTree::<Pedersen>::new(vec![1], 24);
    let mut tree2 = MerkleTree::<Pedersen>::new(vec![2], 24);
    for i in 0..5u8 {
        let value = felt(i as u64 + 100);
        tree1.set(&db1, &key([i, 0, 0]), value).unwrap();
        tree2.set(&db2, &key([i, 0, 0]), value).unwrap();
    }
    tree1.commit(&mut db1);
    let current_root = tree1.root_hash();

    let new_key = key([5, 0, 0]);
    let new_value = felt(105);
    let proof = tree1.get_multi_proof(&db1, &[new_key.clone()]).unwrap();
    let mut partial_trie = PartialTrie::<Pedersen>::new(vec![3], 24, current_root);
    let next_root = partial_trie.set(&new_key, new_value, current_root, proof).unwrap();

    tree2.set(&db2, &new_key, new_value).unwrap();
    tree2.commit(&mut db2);
    let actual_root = tree2.root_hash();
    assert_eq!(next_root, actual_root, "Next root calculation failed");
}

#[test]
fn test_new_next_root() {
    let mut db1 = KeyValueDB::new();
    let mut db2 = KeyValueDB::new();
    let mut tree1 = MerkleTree::<Pedersen>::new(vec![1], 24);
    let mut tree2 = MerkleTree::<Pedersen>::new(vec![2], 24);
    let mut keys = Vec::new();
    let mut values = Vec::new();
    for i in 1..=5u8 {
        keys.push(key([i, 0, 0]));
        values.push(felt(i as u64 + 100));
    }
    for (key, value) in keys.iter().zip(values.iter()).take(3) {
        tree1.set(&db1, key, *value).unwrap();
    }
    tree1.commit(&mut db1);
    let mut current_root = tree1.root_hash();

    let mut partial_trie = PartialTrie::<Pedersen>::new(vec![3], 24, current_root);
    for (key, value) in keys.iter().zip(values.iter()).skip(3) {
        let proof = tree1.get_multi_proof(&db1, &[key.clone()]).unwrap();
        current_root = partial_trie.set(key, *value, current_root, proof).unwrap();
    }

    for (key, value) in keys.iter().zip(values.iter()) {
        tree2.set(&db2, key, *value).unwrap();
    }
    tree2.commit(&mut db2);
    let actual_root = tree2.root_hash();
    assert_eq!(current_root, actual_root, "Next root calculation failed");
}

#[test]
fn every_place_where_a_key_can_leave_an_edge() {
    let db = KeyValueDB::new();
    for new in ["0000", "1000", "0110", "0100", "0101"] {
        let (mut tree, root) = tree_of(&[("0101", 7)]);
        let proof = tree.get_multi_proof(&db, &[bits(new)]).unwrap();
        let mut partial = PartialTrie::<Pedersen>::new(vec![], 4, root);
        let next = partial.set(&bits(new), felt(9), root, proof).unwrap();
        let (_, expected) = tree_of(&[("0101", 7), (new, 9)]);
        assert_eq!(next, expected, "{new}");
    }
}

#[test]
fn what_was_set_needs_no_proof_again() {
    let db = KeyValueDB::new();
    let (mut tree, root) = tree_of(&[("0101", 7), ("1101", 8)]);
    let proof = tree.get_multi_proof(&db, &[bits("0111")]).unwrap();
    let mut partial = PartialTrie::<Pedersen>::new(vec![], 4, root);
    let second = partial.set(&bits("0111"), felt(9), root, proof).unwrap();
    let third = partial.set(&bits("0111"), felt(10), second, nothing()).unwrap();
    let (_, expected) = tree_of(&[("0101", 7), ("1101", 8), ("0111", 10)]);
    assert_eq!(third, expected);
    // The nodes of the first trie are still known.
    assert_eq!(partial.set(&bits("0111"), felt(9), root, nothing()), Ok(second));
}

#[test]
fn below_a_known_node_the_proof_is_asked() {
    let db = KeyValueDB::new();
    let (mut tree, root) = tree_of(&[("0101", 7), ("1101", 8)]);
    let left = tree.get_multi_proof(&db, &[bits("0111")]).unwrap();
    let right = tree.get_multi_proof(&db, &[bits("1111")]).unwrap();
    let mut partial = PartialTrie::<Pedersen>::new(vec![], 4, root);
    let second = partial.set(&bits("0111"), felt(9), root, left).unwrap();
    let third = partial.set(&bits("1111"), felt(10), second, right.clone()).unwrap();
    let (_, expected) = tree_of(&[("0101", 7), ("1101", 8), ("0111", 9), ("1111", 10)]);
    assert_eq!(third, expected);
    let other = partial.set(&bits("1111"), felt(10), root, right).unwrap();
    let (_, expected) = tree_of(&[("0101", 7), ("1101", 8), ("1111", 10)]);
    assert_eq!(other, expected);
}

#[test]
fn insertions_go_on_from_each_other() {
    let db = KeyValueDB::new();
    let base = [("0101", 7), ("1101", 8), ("0000", 9)];
    let new = ["0111", "1111", "0101", "0100", "1000", "0001", "1001", "0111", "1010"];
    let (mut tree, mut root) = tree_of(&base);
    let mut partial = PartialTrie::<Pedersen>::new(vec![], 4, root);
    let mut entries = base.to_vec();
    for (i, key) in new.iter().enumerate() {
        let value = i as u64 + 20;
        let proof = tree.get_multi_proof(&db, &[bits(key)]).unwrap();
        root = partial.set(&bits(key), felt(value), root, proof).unwrap();
        entries.push((*key, value));
        assert_eq!(root, tree_of(&entries).1, "{key}");
    }
}

#[test]
fn a_missing_node_is_reported() {
    let (_, root) = tree_of(&[("0101", 7), ("1101", 8)]);
    let mut partial = PartialTrie::<Pedersen>::new(vec![], 4, root);
    assert_eq!(
        partial.set(&bits("0111"), felt(9), root, nothing()),
        Err(PartialTrieError::NodeNotFound)
    );
}

#[test]
fn where_an_edge_runs_past_the_key_the_value_stands_beside_its_child() {
    let node = edge("01011", felt(7));
    let root = node.hash::<Pedersen>();
    let mut partial = PartialTrie::<Pedersen>::new(vec![], 4, root);
    let told = partial.set(&bits("0101"), felt(9), root, proof_of(&[(root, node)])).unwrap();
    let branch = ProofNode::Binary { left: felt(9), right: felt(7) }.hash::<Pedersen>();
    assert_eq!(told, edge("0101", branch).hash::<Pedersen>());
    // Both new nodes are known: the left side of the branch can be reached without a proof.
    let next = partial.set(&bits("01010"), felt(8), told, nothing()).unwrap();
    let branch = ProofNode::Binary { left: felt(8), right: felt(7) }.hash::<Pedersen>();
    assert_eq!(next, edge("0101", branch).hash::<Pedersen>());
}

#[test]
fn edges_without_bits_are_followed() {
    let leaf = edge("0101", felt(7));
    let leaf_hash = leaf.hash::<Pedersen>();
    let top = edge("", leaf_hash);
    let root = top.hash::<Pedersen>();
    let proof = proof_of(&[(root, top), (leaf_hash, leaf)]);
    let mut partial = PartialTrie::<Pedersen>::new(vec![], 4, root);
    let same = partial.set(&bits("0101"), felt(7), root, proof.clone());
    assert_eq!(same, Ok(root));
    let next = partial.set(&bits("0101"), felt(9), root, proof).unwrap();
    let new_leaf = edge("0101", felt(9)).hash::<Pedersen>();
    assert_eq!(next, edge("", new_leaf).hash::<Pedersen>());
}

#[test]
fn beside_an_edge_without_bits_that_leads_to_no_node() {
    let (a, b, c) = (felt(1), felt(2), felt(3));
    let branch = ProofNode::Binary { left: felt(9), right: b }.hash::<Pedersen>();
    let circle = [(a, edge("", b)), (b, edge("", a))];
    let later_circle = [(a, edge("", b)), (b, edge("", c)), (c, edge("", b))];
    let nowhere = [(a, edge("", b))];
    let later_nowhere = [(a, edge("", b)), (b, edge("", c))];
    for nodes in [&circle[..], &later_circle[..], &nowhere[..], &later_nowhere[..]] {
        let mut partial = PartialTrie::<Pedersen>::new(vec![], 4, a);
        assert_eq!(partial.set(&bits("0101"), felt(9), a, proof_of(nodes)), Ok(branch));
    }
}

#[test]
fn many_edges_without_bits_in_a_row() {
    let leaf = edge("0101", felt(7));
    let mut root = leaf.hash::<Pedersen>();
    let mut expected = edge("0101", felt(9)).hash::<Pedersen>();
    let mut nodes = vec![(root, leaf)];
    for _ in 0..300 {
        let node = edge("", root);
        root = node.hash::<Pedersen>();
        nodes.push((root, node));
        expected = edge("", expected).hash::<Pedersen>();
    }
    let mut partial = PartialTrie::<Pedersen>::new(vec![], 4, root);
    assert_eq!(partial.set(&bits("0101"), felt(9), root, proof_of(&nodes)), Ok(expected));
    // All of them are known then.
    assert_eq!(partial.set(&bits("0101"), felt(7), expected, nothing()), Ok(root));
}

#[test]
fn a_false_proof_does_not_spoil_later_calls() {
    let db = KeyValueDB::new();
    let (mut tree, root) = tree_of(&[("0101", 7), ("1101", 8)]);
    let (_, expected) = tree_of(&[("0101", 7), ("1101", 8), ("0111", 9)]);
    let false_nodes = [
        edge("", felt(3)),
        edge("0000", felt(3)),
        edge("01011", felt(3)),
        ProofNode::Binary { left: felt(3), right: felt(4) },
    ];
    let proof = tree.get_multi_proof(&db, &[bits("0111")]).unwrap();
    for node in false_nodes {
        let mut partial = PartialTrie::<Pedersen>::new(vec![], 4, root);
        let told = partial.set(&bits("0111"), felt(9), root, proof_of(&[(root, node)]));
        assert_ne!(told, Ok(expected));
        assert_eq!(partial.set(&bits("0111"), felt(9), root, proof.clone()), Ok(expected));
    }
}

#[test]
fn nodes_under_wrong_hashes_are_not_known_afterwards() {
    let node = edge("0101", felt(7));
    let mut partial = PartialTrie::<Pedersen>::new(vec![], 4, felt(1));
    let told = partial.set(&bits("0101"), felt(9), felt(1), proof_of(&[(felt(1), node)])).unwrap();
    assert_eq!(told, edge("0101", felt(9)).hash::<Pedersen>());
    assert_eq!(
        partial.set(&bits("0101"), felt(9), felt(1), nothing()),
        Err(PartialTrieError::NodeNotFound)
    );
    // What was made has its own hash, and stays.
    let next = partial.set(&bits("0101"), felt(10), told, nothing());
    assert_eq!(next, Ok(edge("0101", felt(10)).hash::<Pedersen>()));
}

#[test]
fn the_value_that_a_proof_shows_leaves_the_root() {
    let db = KeyValueDB::new();
    let (mut tree, root) = tree_of(&[("0101", 7), ("1101", 8), ("0100", 9)]);
    let mut partial = PartialTrie::<Pedersen>::new(vec![], 4, root);
    for (key, value) in [("0101", 7), ("1101", 8), ("0100", 9)] {
        let proof = tree.get_multi_proof(&db, &[bits(key)]).unwrap();
        let found = proof.verify_proof::<Pedersen>(root, &[bits(key)], 4);
        assert!(matches!(found[0], Ok(shown) if shown == felt(value)));
        assert_eq!(partial.set(&bits(key), felt(value), root, proof), Ok(root));
    }
}

#[test]
fn the_empty_key_stands_for_the_value() {
    let mut partial = PartialTrie::<Pedersen>::new(vec![], 0, felt(1));
    assert_eq!(partial.set(&[], felt(9), felt(1), nothing()), Ok(felt(9)));
}
