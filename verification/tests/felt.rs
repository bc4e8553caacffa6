use partial_bonsai_trie::felt::{Felt, Pedersen, Poseidon, StarkHash};

const TOP: u128 = 0x8000000000000110000000000000000;

fn felt(high: u128, low: u128) -> Felt {
    Felt::from_halves(high, low).unwrap()
}

fn left_input() -> Felt {
    felt(0x03d937c035c878245caf64531a575610, 0x9c53068da139362728feb561405371cb)
}

fn right_input() -> Felt {
    felt(0x0208a0a10250e382e1e4bbe2880906c2, 0x791bf6275695e02fbbc6aeff9cd8b31a)
}

#[test]
fn pedersen_hash_of_two_elements() {
    assert_eq!(
        Pedersen::hash(&left_input(), &right_input()),
        felt(0x030e480bed5fe53fa909cc0f8c4d99b8, 0xf9f2c016be4c41e13a4848797979c662)
    );
    assert_ne!(
        Pedersen::hash(&left_input(), &right_input()),
        Pedersen::hash(&right_input(), &left_input())
    );
}

#[test]
fn poseidon_hash_of_two_elements() {
    assert_eq!(
        Poseidon::hash(&left_input(), &right_input()),
        felt(0x067c6a2e2d0c7867f97444ae17956dbc, 0x89d40ad22255bb06f5f6c515958926ed)
    );
}

#[test]
fn sums_wrap_around_at_the_prime() {
    let last = felt(TOP, 0);
    assert_eq!(last.plus(&Felt::from_u64(1)), Felt::zero());
    assert_eq!(last.plus(&Felt::from_u64(3)), Felt::from_u64(2));
    assert_eq!(last.plus(&last), felt(TOP - 1, u128::MAX));
    assert_eq!(Felt::from_u64(40).plus(&Felt::from_u64(2)), Felt::from_u64(42));
    assert_eq!(felt(0, u128::MAX).plus(&Felt::from_u64(1)), felt(1, 0));
}

#[test]
fn halves_have_to_be_below_the_prime() {
    assert_eq!(Felt::from_halves(TOP, 0).map(|f| f.halves()), Some((TOP, 0)));
    assert_eq!(felt(TOP - 1, u128::MAX).halves(), (TOP - 1, u128::MAX));
    assert_eq!(Felt::from_halves(TOP, 1), None);
    assert_eq!(Felt::from_halves(TOP + 1, 0), None);
    assert_eq!(Felt::from_halves(u128::MAX, u128::MAX), None);
}

#[test]
fn small_elements() {
    assert_eq!(Felt::zero().halves(), (0, 0));
    assert_eq!(Felt::from_u64(u64::MAX).halves(), (0, u64::MAX as u128));
    assert_eq!(Felt::from_u64(0), Felt::zero());
}
