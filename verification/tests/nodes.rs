use partial_bonsai_trie::felt::{Felt, Pedersen, Poseidon, StarkHash};
use partial_bonsai_trie::key_value_db::KeyValueDB;
use partial_bonsai_trie::trie::merkle_node::{hash_binary_node, hash_edge_node, Direction};
use partial_bonsai_trie::trie::node_map::NodeMap;
use partial_bonsai_trie::trie::partial::NodeCache;
use partial_bonsai_trie::trie::path::{common_path, slice_of, Path};
use partial_bonsai_trie::trie::positions::PositionedNodes;
use partial_bonsai_trie::trie::proofs::{MultiProof, PartialPath, ProofNode};
use partial_bonsai_trie::trie::tree::NodeKey;

fn bits(text: &str) -> Vec<bool> {
    text.chars().map(|c| c == '1').collect()
}

fn edge(path: &str, child: u64) -> ProofNode {
    ProofNode::Edge { child: Felt::from_u64(child), path: Path(bits(path)) }
}

fn binary(left: u64, right: u64) -> ProofNode {
    ProofNode::Binary { left: Felt::from_u64(left), right: Felt::from_u64(right) }
}

#[test]
fn a_binary_node_hashes_its_children() {
    let (left, right) = (Felt::from_u64(7), Felt::from_u64(9));
    assert_eq!(hash_binary_node::<Pedersen>(left, right), Pedersen::hash(&left, &right));
    assert_eq!(binary(7, 9).hash::<Pedersen>(), Pedersen::hash(&left, &right));
    assert_eq!(binary(7, 9).hash::<Poseidon>(), Poseidon::hash(&left, &right));
}

#[test]
fn an_edge_hashes_its_child_its_bits_and_their_number() {
    let child = Felt::from_u64(7);
    let expected = Pedersen::hash(&child, &Felt::from_u64(0b0110)).plus(&Felt::from_u64(4));
    assert_eq!(hash_edge_node::<Pedersen>(&Path(bits("0110")), child), expected);
    assert_eq!(edge("0110", 7).hash::<Pedersen>(), expected);
    let longer = Pedersen::hash(&child, &Felt::from_u64(0b0110)).plus(&Felt::from_u64(5));
    assert_eq!(edge("00110", 7).hash::<Pedersen>(), longer);
    assert_eq!(edge("", 7).hash::<Pedersen>(), Pedersen::hash(&child, &Felt::zero()));
}

#[test]
fn the_bits_of_an_edge_count_modulo_the_prime() {
    let mut path = vec![false; 252];
    path[0] = true;
    // 2^251 is less than the prime by 17 * 2^192 + 1.
    let value = Felt::from_halves(0x8000000000000000000000000000000, 0).unwrap();
    let child = Felt::from_u64(1);
    assert_eq!(
        hash_edge_node::<Pedersen>(&Path(path.clone()), child),
        Pedersen::hash(&child, &value).plus(&Felt::from_u64(252))
    );
    path.push(false);
    assert_eq!(
        hash_edge_node::<Pedersen>(&Path(path), child),
        Pedersen::hash(&child, &value.plus(&value)).plus(&Felt::from_u64(253))
    );
}

#[test]
fn a_set_bit_leads_to_the_right() {
    assert_eq!(Direction::from(true), Direction::Right);
    assert_eq!(Direction::from(false), Direction::Left);
}

#[test]
fn binary_nodes_match_every_path() {
    assert!(binary(1, 2).path_matches(&bits("0101"), 0));
    assert!(binary(1, 2).path_matches(&bits("0101"), 4));
    assert!(binary(1, 2).path_matches(&bits(""), 9));
}

#[test]
fn edges_match_the_bits_of_the_key_at_their_height() {
    let node = edge("101", 1);
    assert!(node.path_matches(&bits("10100"), 0));
    assert!(node.path_matches(&bits("01010"), 1));
    assert!(node.path_matches(&bits("00101"), 2));
    assert!(!node.path_matches(&bits("11100"), 0));
    assert!(!node.path_matches(&bits("10100"), 1));
}

#[test]
fn edges_match_what_the_key_has_left() {
    let node = edge("101", 1);
    assert!(node.path_matches(&bits("0010"), 2));
    assert!(!node.path_matches(&bits("0011"), 2));
    assert!(node.path_matches(&bits("0001"), 3));
    assert!(!node.path_matches(&bits("0000"), 3));
    assert!(node.path_matches(&bits("0000"), 4));
    assert!(node.path_matches(&bits("0000"), 7));
    assert!(edge("", 1).path_matches(&bits("0000"), 2));
}

#[test]
fn common_paths() {
    assert_eq!(common_path(&bits("1010"), &bits("1011"), 0), 3);
    assert_eq!(common_path(&bits("1010"), &bits("0101"), 1), 3);
    assert_eq!(common_path(&bits("1010"), &bits("0"), 1), 0);
    assert_eq!(common_path(&bits(""), &bits("01"), 0), 0);
    assert_eq!(slice_of(&bits("010011"), 1, 4), bits("100"));
    assert_eq!(Path(bits("0101")).clone(), Path(bits("0101")));
}

#[test]
fn a_node_map_keeps_the_order_of_its_hashes() {
    let mut map = NodeMap::new();
    assert_eq!(map.len(), 0);
    assert_eq!(map.first(), None);
    assert!(map.get(&Felt::from_u64(5)).is_none());
    map.insert(Felt::from_u64(5), binary(1, 2));
    map.insert(Felt::from_u64(3), edge("1", 2));
    map.insert(Felt::from_u64(5), binary(3, 4));
    assert_eq!(map.len(), 2);
    assert_eq!(map.first(), Some(Felt::from_u64(5)));
    assert_eq!(map.get(&Felt::from_u64(5)), Some(&binary(3, 4)));
    assert_eq!(map.get(&Felt::from_u64(3)), Some(&edge("1", 2)));
    assert_eq!(map.get(&Felt::from_u64(4)), None);
    assert_eq!(map.entry(0), (Felt::from_u64(5), &binary(3, 4)));
    assert_eq!(map.entry(1), (Felt::from_u64(3), &edge("1", 2)));
    let copy = map.clone();
    map.insert(Felt::from_u64(4), binary(0, 0));
    assert_eq!(copy.len(), 2);
    assert_eq!(copy.first(), Some(Felt::from_u64(5)));
    assert_eq!(copy.get(&Felt::from_u64(5)), Some(&binary(3, 4)));
    assert_eq!(copy.get(&Felt::from_u64(3)), Some(&edge("1", 2)));
    assert_eq!(copy.get(&Felt::from_u64(4)), None);
    let proof = MultiProof(copy);
    assert_eq!(proof.clone().0.first(), proof.0.first());
}

#[test]
fn elements_that_share_a_half_are_told_apart() {
    let mut map = NodeMap::new();
    let one = Felt::from_halves(1, 7).unwrap();
    let other = Felt::from_halves(7, 1).unwrap();
    map.insert(one, binary(1, 1));
    assert!(map.get(&other).is_none());
    assert!(map.get(&Felt::from_halves(1, 8).unwrap()).is_none());
    map.insert(other, binary(2, 2));
    assert_eq!(map.get(&one), Some(&binary(1, 1)));
    assert_eq!(map.get(&other), Some(&binary(2, 2)));
}

#[test]
fn stores_give_back_what_was_put_in() {
    let hash = Felt::from_u64(11);
    let mut cache = NodeCache::new();
    assert!(cache.get(&hash).is_none());
    cache.insert(hash, binary(1, 2));
    cache.insert(hash, edge("10", 3));
    assert_eq!(cache.get(&hash), Some(&edge("10", 3)));
    assert_eq!(cache.len(), 1);
    assert!(cache.get(&Felt::from_u64(12)).is_none());
    let mut db = KeyValueDB::new();
    assert!(db.get(&hash).is_none());
    db.insert(hash, edge("10", 3));
    assert_eq!(db.get(&hash), Some(&edge("10", 3)));
    assert!(db.get(&Felt::from_u64(12)).is_none());
}

#[test]
fn a_position_has_one_node() {
    let mut path = PartialPath(PositionedNodes::new());
    assert!(path.0.get(&NodeKey(bits(""))).is_none());
    path.0.insert(NodeKey(bits("")), binary(1, 2));
    path.0.insert(NodeKey(bits("1")), edge("01", 3));
    path.0.insert(NodeKey(bits("")), binary(3, 4));
    let copy = path.clone();
    path.0.insert(NodeKey(bits("0")), binary(5, 6));
    assert_eq!(copy.0.get(&NodeKey(bits(""))), Some(&binary(3, 4)));
    assert_eq!(copy.0.get(&NodeKey(bits("1"))), Some(&edge("01", 3)));
    assert_eq!(copy.0.get(&NodeKey(bits("0"))), None);
    assert_eq!(path.0.get(&NodeKey(bits("0"))), Some(&binary(5, 6)));
    assert_eq!(path.0.get(&NodeKey(bits("10"))), None);
}
