use partial_bonsai_trie::error::BonsaiStorageError;
use partial_bonsai_trie::felt::{Felt, Pedersen, Poseidon, StarkHash};
use partial_bonsai_trie::key_value_db::KeyValueDB;
use partial_bonsai_trie::trie::merkle_node::{hash_binary_node, hash_edge_node};
use partial_bonsai_trie::trie::node_map::NodeMap;
use partial_bonsai_trie::trie::path::Path;
use partial_bonsai_trie::trie::proofs::{
    hash_up_merkle_path, MultiProof, ProofNode, ProofVerificationError,
};
use partial_bonsai_trie::trie::tree::MerkleTree;

fn bits(text: &str) -> Vec<bool> {
    text.chars().map(|c| c == '1').collect()
}

fn felt(value: u64) -> Felt {
    Felt::from_u64(value)
}

fn proof_of(nodes: &[(Felt, ProofNode)]) -> MultiProof {
    let mut map = NodeMap::new();
    for (hash, node) in nodes {
        map.insert(*hash, node.clone());
    }
    MultiProof(map)
}

fn edge(path: &str, child: Felt) -> ProofNode {
    ProofNode::Edge { child, path: Path(bits(path)) }
}

/// The entries 0010 => 5, 0011 => 6 and 1000 => 7, with every node written out from the root.
fn small_trie() -> (Felt, Vec<(Felt, ProofNode)>) {
    let lower = ProofNode::Binary { left: felt(5), right: felt(6) };
    let lower_hash = Pedersen::hash(&felt(5), &felt(6));
    let left = edge("01", lower_hash);
    let left_hash = Pedersen::hash(&lower_hash, &felt(1)).plus(&felt(2));
    let right = edge("000", felt(7));
    let right_hash = Pedersen::hash(&felt(7), &felt(0)).plus(&felt(3));
    let root = ProofNode::Binary { left: left_hash, right: right_hash };
    let root_hash = Pedersen::hash(&left_hash, &right_hash);
    let nodes = vec![
        (root_hash, root),
        (left_hash, left),
        (lower_hash, lower),
        (right_hash, right),
    ];
    (root_hash, nodes)
}

fn small_tree() -> MerkleTree<Pedersen> {
    let db = KeyValueDB::new();
    let mut tree = MerkleTree::<Pedersen>::new(vec![1], 4);
    tree.set(&db, &bits("0010"), felt(5)).unwrap();
    tree.set(&db, &bits("0011"), felt(6)).unwrap();
    tree.set(&db, &bits("1000"), felt(7)).unwrap();
    tree
}

#[test]
fn test_multiproof() {
    let db = KeyValueDB::new();
    let mut tree = MerkleTree::<Pedersen>::new(vec![], 8);
    let key_values = [
        (bits("00010000"), felt(1)),
        (bits("00010001"), felt(2)),
        (bits("00011101"), felt(0)),
        (bits("10010001"), felt(0)),
        (bits("01111101"), felt(3)),
        (bits("00010010"), felt(0)),
        (bits("01000000"), felt(4)),
        (bits("10010101"), felt(0)),
    ];
    for (k, v) in key_values.iter() {
        tree.set(&db, k, *v).unwrap();
    }
    let keys: Vec<Vec<bool>> = key_values.iter().map(|(k, _v)| k.clone()).collect();
    let proof = tree.get_multi_proof(&db, &keys).unwrap();
    assert_eq!(
        proof
            .verify_proof::<Pedersen>(tree.root_hash(), &keys, 8)
            .into_iter()
            .collect::<Result<Vec<_>, _>>()
            .unwrap(),
        key_values.iter().map(|(_k, v)| *v).collect::<Vec<_>>()
    );
}

#[test]
fn a_proof_has_the_nodes_of_the_ways_from_the_root_down() {
    let db = KeyValueDB::new();
    let mut tree = small_tree();
    let (root, nodes) = small_trie();
    let keys = vec![bits("0011"), bits("0101")];
    let proof = tree.get_multi_proof(&db, &keys).unwrap();
    assert_eq!(tree.root_hash(), root);
    assert_eq!(proof.0.first(), Some(root));
    assert_eq!(proof.0.len(), 3);
    for (hash, node) in &nodes[..3] {
        assert_eq!(proof.0.get(hash), Some(node));
    }
    assert_eq!(proof.0.get(&nodes[3].0), None);
}

#[test]
fn a_proof_tells_values_and_absences() {
    let (root, nodes) = small_trie();
    let proof = proof_of(&nodes);
    let keys: Vec<Vec<bool>> =
        ["0010", "0011", "1000", "0000", "0111", "1001"].iter().map(|k| bits(k)).collect();
    let told: Vec<Felt> =
        proof.verify_proof::<Pedersen>(root, &keys, 4).into_iter().map(|r| r.unwrap()).collect();
    assert_eq!(told, vec![felt(5), felt(6), felt(7), felt(0), felt(0), felt(0)]);
}

#[test]
fn a_proof_may_prove_more_than_is_asked_for() {
    let (root, nodes) = small_trie();
    let mut more = nodes.clone();
    more.push((felt(99), ProofNode::Binary { left: felt(1), right: felt(2) }));
    for key in ["0010", "0111"] {
        let some = proof_of(&nodes[..3]).verify_proof::<Pedersen>(root, &[bits(key)], 4);
        let all = proof_of(&more).verify_proof::<Pedersen>(root, &[bits(key)], 4);
        assert_eq!(
            some.into_iter().next().unwrap().unwrap(),
            all.into_iter().next().unwrap().unwrap()
        );
    }
}

#[test]
fn a_node_that_the_proof_lacks_is_named() {
    let (root, nodes) = small_trie();
    let proof = proof_of(&nodes[..2]);
    let found = proof.verify_proof::<Pedersen>(root, &[bits("0010"), bits("0000")], 4);
    match &found[0] {
        Err(ProofVerificationError::MissingNode { path, hash }) => {
            assert_eq!(path, &bits("001"));
            assert_eq!(*hash, nodes[2].0);
        }
        other => panic!("{other:?}"),
    }
    assert!(matches!(found[1], Ok(value) if value == felt(0)));
    match &proof.verify_proof::<Pedersen>(felt(3), &[bits("0010")], 4)[0] {
        Err(ProofVerificationError::MissingNode { path, hash }) => {
            assert_eq!(path, &bits(""));
            assert_eq!(*hash, felt(3));
        }
        other => panic!("{other:?}"),
    }
}

#[test]
fn a_node_under_a_wrong_hash_is_found_out() {
    let (root, mut nodes) = small_trie();
    nodes[2].1 = ProofNode::Binary { left: felt(50), right: felt(6) };
    let proof = proof_of(&nodes);
    for _ in 0..2 {
        match &proof.verify_proof::<Pedersen>(root, &[bits("0011"), bits("0010")], 4)[1] {
            Err(ProofVerificationError::HashMismatch { path, expected, got }) => {
                assert_eq!(path, &bits("001"));
                assert_eq!(*expected, nodes[2].0);
                assert_eq!(*got, Pedersen::hash(&felt(50), &felt(6)));
            }
            other => panic!("{other:?}"),
        }
    }
}

#[test]
fn the_hash_function_matters() {
    let (root, nodes) = small_trie();
    let found = proof_of(&nodes).verify_proof::<Poseidon>(root, &[bits("0010")], 4);
    assert!(matches!(found[0], Err(ProofVerificationError::HashMismatch { .. })));
}

#[test]
fn keys_of_another_length_are_not_looked_up() {
    let (root, nodes) = small_trie();
    let proof = proof_of(&nodes);
    let found = proof.verify_proof::<Pedersen>(root, &[bits("001"), bits("0010")], 4);
    match &found[0] {
        Err(ProofVerificationError::KeyLengthMismatch { path, expected, got }) => {
            assert_eq!(path, &bits("001"));
            assert_eq!(*expected, 4);
            assert_eq!(*got, 3);
        }
        other => panic!("{other:?}"),
    }
    assert!(matches!(found[1], Ok(value) if value == felt(5)));
}

#[test]
fn edges_without_bits_are_passed_through() {
    let leaf = edge("01", felt(9));
    let leaf_hash = leaf.hash::<Pedersen>();
    let middle = edge("", leaf_hash);
    let middle_hash = middle.hash::<Pedersen>();
    let top = edge("", middle_hash);
    let top_hash = top.hash::<Pedersen>();
    let proof = proof_of(&[(top_hash, top), (middle_hash, middle), (leaf_hash, leaf)]);
    let found = proof.verify_proof::<Pedersen>(top_hash, &[bits("01"), bits("11")], 2);
    assert!(matches!(found[0], Ok(value) if value == felt(9)));
    assert!(matches!(found[1], Ok(value) if value == felt(0)));
}

#[test]
fn an_edge_that_runs_past_the_key_proves_absence() {
    let long = edge("0101", felt(9));
    let hash = long.hash::<Pedersen>();
    let found = proof_of(&[(hash, long)]).verify_proof::<Pedersen>(hash, &[bits("010")], 3);
    assert!(matches!(found[0], Ok(value) if value == felt(0)));
}

#[test]
fn a_trie_of_height_zero_is_its_value() {
    let found = proof_of(&[]).verify_proof::<Pedersen>(felt(8), &[bits("")], 0);
    assert!(matches!(found[0], Ok(value) if value == felt(8)));
}

#[test]
fn a_tree_without_entries_has_no_proof() {
    let db = KeyValueDB::new();
    let mut tree = MerkleTree::<Pedersen>::new(vec![], 4);
    let proof = tree.get_multi_proof(&db, &[bits("0101")]).unwrap();
    assert_eq!(proof.0.len(), 0);
    assert_eq!(tree.root_hash(), felt(0));
    let found = proof.verify_proof::<Pedersen>(tree.root_hash(), &[bits("0101")], 4);
    assert!(matches!(found[0], Err(ProofVerificationError::MissingNode { .. })));
}

#[test]
fn only_keys_of_the_height_of_the_tree_can_be_proved() {
    let db = KeyValueDB::new();
    let mut tree = small_tree();
    let result = tree.get_multi_proof(&db, &[bits("0010"), bits("00100")]);
    assert!(matches!(result, Err(BonsaiStorageError::KeyLength { expected: 4, got: 5 })));
}

#[test]
fn hashing_up_the_way_to_an_entry() {
    let (root, nodes) = small_trie();
    let way = vec![
        (bits(""), nodes[0].1.clone()),
        (bits("0"), nodes[1].1.clone()),
        (bits("001"), nodes[2].1.clone()),
    ];
    assert_eq!(hash_up_merkle_path::<Pedersen>(&bits("0010"), felt(5), &way, false), root);
    assert_eq!(hash_up_merkle_path::<Pedersen>(&bits("0011"), felt(6), &way, false), root);
    let db = KeyValueDB::new();
    let mut tree = small_tree();
    tree.set(&db, &bits("0011"), felt(60)).unwrap();
    tree.commit(&mut KeyValueDB::new());
    assert_eq!(
        hash_up_merkle_path::<Pedersen>(&bits("0011"), felt(60), &way, false),
        tree.root_hash()
    );
}

#[test]
fn hashing_up_without_the_last_node() {
    let (_, nodes) = small_trie();
    // The key 0000 leaves the edge 01 at its second bit.
    let way = vec![(bits(""), nodes[0].1.clone()), (bits("0"), nodes[1].1.clone())];
    let fork = hash_binary_node::<Pedersen>(
        hash_edge_node::<Pedersen>(&Path(bits("0")), felt(8)),
        nodes[2].0,
    );
    let end = hash_edge_node::<Pedersen>(&Path(bits("0")), fork);
    let db = KeyValueDB::new();
    let mut tree = small_tree();
    tree.set(&db, &bits("0000"), felt(8)).unwrap();
    tree.commit(&mut KeyValueDB::new());
    assert_eq!(
        hash_up_merkle_path::<Pedersen>(&bits("0000"), end, &way, true),
        tree.root_hash()
    );
}

#[test]
fn hashing_up_no_nodes_at_all() {
    assert_eq!(hash_up_merkle_path::<Pedersen>(&bits("01"), felt(3), &[], false), felt(3));
    assert_eq!(hash_up_merkle_path::<Pedersen>(&bits("01"), felt(3), &[], true), felt(3));
}

#[test]
fn the_order_of_the_keys_makes_no_difference() {
    let db = KeyValueDB::new();
    let keys: Vec<Vec<bool>> = ["0011", "1000", "0111"].iter().map(|key| bits(key)).collect();
    let again: Vec<Vec<bool>> =
        ["0111", "0011", "0111", "1000", "0011"].iter().map(|key| bits(key)).collect();
    let one = small_tree().get_multi_proof(&db, &keys).unwrap();
    let other = small_tree().get_multi_proof(&db, &again).unwrap();
    assert_eq!(one.0.len(), other.0.len());
    for place in 0..one.0.len() {
        let (hash, node) = one.0.entry(place);
        assert_eq!(other.0.get(&hash), Some(node));
    }
}
