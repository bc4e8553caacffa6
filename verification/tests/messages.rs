use bitvec::prelude::{BitVec, Msb0};
use partial_bonsai_trie::error::BonsaiStorageError;
use partial_bonsai_trie::felt::Felt;
use partial_bonsai_trie::text::{append_bits, append_decimal, append_felt};
use partial_bonsai_trie::trie::partial::PartialTrieError as InsertionError;
use partial_bonsai_trie::trie::partial_trie::PartialTrieError;
use partial_bonsai_trie::trie::proofs::ProofVerificationError;
use starknet_types_core::felt::Felt as StarkFelt;

fn bits(text: &str) -> Vec<bool> {
    text.chars().map(|c| c == '1').collect()
}

fn hex(felt: &Felt) -> String {
    let mut text = String::new();
    append_felt(&mut text, felt);
    text
}

#[test]
fn numbers_in_decimal_digits() {
    for number in [0, 7, 10, 99, 100, 251, 65536, usize::MAX] {
        let mut text = String::from("n=");
        append_decimal(&mut text, number);
        assert_eq!(text, format!("n={number}"));
    }
}

#[test]
fn elements_in_hexadecimal_digits() {
    assert_eq!(hex(&Felt::zero()), "0x0");
    assert_eq!(hex(&Felt::from_u64(0xdeadbeef)), "0xdeadbeef");
    assert_eq!(hex(&Felt::from_halves(1, 0).unwrap()), format!("0x1{}", "0".repeat(32)));
    let last = Felt::from_halves(0x8000000000000110000000000000000, 0).unwrap();
    for felt in [last, Felt::from_halves(0x3d937c0, 0x35c878).unwrap(), Felt::from_u64(15)] {
        let (high, low) = felt.halves();
        let mut bytes = [0; 32];
        bytes[..16].copy_from_slice(&high.to_be_bytes());
        bytes[16..].copy_from_slice(&low.to_be_bytes());
        assert_eq!(hex(&felt), format!("{:#x}", StarkFelt::from_bytes_be(&bytes)));
    }
}

#[test]
fn bits_in_groups_of_eight() {
    for length in [0, 1, 7, 8, 9, 16, 17, 251] {
        let bits: Vec<bool> = (0..length).map(|i| i % 3 == 0 || i % 7 == 2).collect();
        let mut text = String::new();
        append_bits(&mut text, &bits);
        let expected: BitVec<u8, Msb0> = bits.iter().collect();
        assert_eq!(text, format!("{expected:b}"));
    }
    let mut text = String::new();
    append_bits(&mut text, &bits("000100001"));
    assert_eq!(text, "[00010000, 1]");
}

#[test]
fn messages_without_numbers() {
    let messages = [
        (PartialTrieError::NodeNotFound, "Node not found in storage or proof"),
        (PartialTrieError::KeyLength, "Key length is not equal to max height"),
        (PartialTrieError::SetValueZero, "Set value is zero"),
        (
            PartialTrieError::InvalidNodeHandle,
            "Invalid node handle - expected hash but got in-memory node",
        ),
        (
            PartialTrieError::ProofVerificationError(ProofVerificationError::InvalidProof),
            "Invalid proof",
        ),
    ];
    for (error, text) in messages {
        assert_eq!(error.message(), text);
        assert_eq!(BonsaiStorageError::from(error).trie_message(), Some(text.to_string()));
    }
    assert_eq!(InsertionError::NodeNotFound.message(), "Node not found in proof");
    assert_eq!(BonsaiStorageError::KeyLength { expected: 8, got: 4 }.trie_message(), None);
}

#[test]
fn messages_with_numbers() {
    let path = bits("0101");
    let (one, two) = (Felt::from_u64(0x1a), Felt::from_u64(0x2b));
    assert_eq!(
        ProofVerificationError::KeyLengthMismatch { path: path.clone(), expected: 251, got: 4 }
            .message(),
        "Key length mismatch: key [0101], expected length 251, got 4"
    );
    assert_eq!(
        ProofVerificationError::MissingNode { path: path.clone(), hash: one }.message(),
        "Missing node in proof: key [0101], hash 0x1a"
    );
    assert_eq!(
        ProofVerificationError::Overshot { path: path.clone(), expected_max_height: 3 }.message(),
        "Overshot the expected path: path [0101], expected max height 3"
    );
    assert_eq!(
        ProofVerificationError::HashMismatch { path, expected: one, got: two }.message(),
        "Node hash mismatch: path [0101], expected 0x1a, got 0x2b"
    );
}
