//! Field elements and the hash functions that combine them.

use starknet_types_core::felt::Felt as StarkFelt;
use starknet_types_core::hash::StarkHash as _;
use vstd::arithmetic::div_mod::lemma_fundamental_div_mod_converse;
use vstd::prelude::*;

verus! {

/// The prime `2^251 + 17 * 2^192 + 1` of the field.
pub open spec fn prime() -> nat {
    0x800000000000011000000000000000000000000000000000000000000000001nat
}

/// The weight of the high half of a field element.
pub open spec fn half_weight() -> nat {
    0x100000000000000000000000000000000nat
}

/// An element of the field of integers modulo [`prime`], as the two halves of its least
/// non-negative representative.
#[derive(Clone, Copy, Debug, PartialEq, Eq, PartialOrd, Ord, Hash, Structural)]
pub struct Felt {
    high: u128,
    low: u128,
}

impl View for Felt {
    type V = nat;

    closed spec fn view(&self) -> nat {
        (self.high * half_weight() + self.low) as nat
    }
}

impl Felt {
    #[verifier::type_invariant]
    spec fn canonical(self) -> bool {
        self@ < prime()
    }

    /// The element whose representative is `value`.
    pub closed spec fn of(value: nat) -> Felt {
        Felt { high: (value / half_weight()) as u128, low: (value % half_weight()) as u128 }
    }

    /// The two halves of the representative, which tell elements apart.
    pub closed spec fn key(self) -> (u128, u128) {
        (self.high, self.low)
    }

    /// An element is given by its representative.
    pub broadcast proof fn lemma_of_view(self)
        ensures
            #![trigger self.view()]
            Felt::of(self@) == self,
    {
        lemma_fundamental_div_mod_converse(
            self@ as int,
            half_weight() as int,
            self.high as int,
            self.low as int,
        );
    }

    /// Every number below the prime represents an element.
    pub proof fn lemma_view_of(value: nat)
        requires
            value < prime(),
        ensures
            Felt::of(value)@ == value,
    {
    }

    /// The halves tell elements apart.
    pub broadcast proof fn lemma_key_injective(self, other: Felt)
        ensures
            #![trigger self.key(), other.key()]
            self.key() == other.key() <==> self == other,
    {
    }

    /// The neutral element of addition.
    pub fn zero() -> (r: Felt)
        ensures
            r == Felt::of(0),
            r@ == 0,
    {
        let r = Felt { high: 0, low: 0 };
        proof {
            r.lemma_of_view();
        }
        r
    }

    /// The element that a machine integer represents.
    pub fn from_u64(value: u64) -> (r: Felt)
        ensures
            r == Felt::of(value as nat),
            r@ == value,
    {
        let r = Felt { high: 0, low: value as u128 };
        proof {
            r.lemma_of_view();
        }
        r
    }

    /// The element with the given halves, unless they make up a number that is not below the
    /// prime.
    pub fn from_halves(high: u128, low: u128) -> (r: Option<Felt>)
        ensures
            r is Some <==> high * half_weight() + low < prime(),
            r matches Some(felt) ==> felt@ == high * half_weight() + low && felt.key() == (
                high,
                low,
            ),
    {
        let top: u128 = 0x8000000000000110000000000000000;
        if high > top || (high == top && low >= 1) {
            None
        } else {
            Some(Felt { high, low })
        }
    }

    /// The two halves of the representative.
    pub fn halves(&self) -> (r: (u128, u128))
        ensures
            r == self.key(),
            r.0 * half_weight() + r.1 == self@,
    {
        (self.high, self.low)
    }

    /// The sum of two elements.
    pub fn plus(&self, other: &Felt) -> (r: Felt)
        ensures
            r@ == (self@ + other@) % prime(),
            r == Felt::of((self@ + other@) % prime()),
    {
        proof {
            use_type_invariant(self);
            use_type_invariant(other);
        }
        let r = field_sum(*self, *other);
        proof {
            r.lemma_of_view();
        }
        r
    }
}

/// Calls the addition of `starknet_types_core::felt::Felt`, which adds modulo the prime. The
/// operands go in as big-endian bytes through `from_bytes_be_slice`, which takes them for the
/// number that they spell, and the sum comes back through `to_bytes_be`.
#[verifier::external_body]
fn field_sum(a: Felt, b: Felt) -> (r: Felt)
    requires
        a@ < prime(),
        b@ < prime(),
    ensures
        r@ == (a@ + b@) % prime(),
{
    let x = StarkFelt::from_bytes_be_slice(&[a.high.to_be_bytes(), a.low.to_be_bytes()].concat());
    let y = StarkFelt::from_bytes_be_slice(&[b.high.to_be_bytes(), b.low.to_be_bytes()].concat());
    let bytes = (x + y).to_bytes_be();
    Felt {
        high: u128::from_be_bytes(bytes[..16].try_into().unwrap()),
        low: u128::from_be_bytes(bytes[16..].try_into().unwrap()),
    }
}

/// The representative of the Pedersen hash of the two elements that `a` and `b` represent.
pub uninterp spec fn pedersen(a: nat, b: nat) -> nat;

/// Calls `starknet_types_core::hash::Pedersen::hash`, whose result depends on the two elements
/// alone. The elements go in and come out as big-endian bytes.
#[verifier::external_body]
fn pedersen_hash(a: Felt, b: Felt) -> (r: Felt)
    requires
        a@ < prime(),
        b@ < prime(),
    ensures
        r@ == pedersen(a@, b@),
{
    let x = StarkFelt::from_bytes_be_slice(&[a.high.to_be_bytes(), a.low.to_be_bytes()].concat());
    let y = StarkFelt::from_bytes_be_slice(&[b.high.to_be_bytes(), b.low.to_be_bytes()].concat());
    let bytes = starknet_types_core::hash::Pedersen::hash(&x, &y).to_bytes_be();
    Felt {
        high: u128::from_be_bytes(bytes[..16].try_into().unwrap()),
        low: u128::from_be_bytes(bytes[16..].try_into().unwrap()),
    }
}

/// The representative of the Poseidon hash of the two elements that `a` and `b` represent.
pub uninterp spec fn poseidon(a: nat, b: nat) -> nat;

/// Calls `starknet_types_core::hash::Poseidon::hash`, whose result depends on the two elements
/// alone. The elements go in and come out as big-endian bytes.
#[verifier::external_body]
fn poseidon_hash(a: Felt, b: Felt) -> (r: Felt)
    requires
        a@ < prime(),
        b@ < prime(),
    ensures
        r@ == poseidon(a@, b@),
{
    let x = StarkFelt::from_bytes_be_slice(&[a.high.to_be_bytes(), a.low.to_be_bytes()].concat());
    let y = StarkFelt::from_bytes_be_slice(&[b.high.to_be_bytes(), b.low.to_be_bytes()].concat());
    let bytes = starknet_types_core::hash::Poseidon::hash(&x, &y).to_bytes_be();
    Felt {
        high: u128::from_be_bytes(bytes[..16].try_into().unwrap()),
        low: u128::from_be_bytes(bytes[16..].try_into().unwrap()),
    }
}

/// A hash function on pairs of field elements.
pub trait StarkHash {
    /// The hash of two elements.
    spec fn hash_of(a: Felt, b: Felt) -> Felt;

    /// Computes the hash of two elements.
    fn hash(a: &Felt, b: &Felt) -> (r: Felt)
        ensures
            r == Self::hash_of(*a, *b),
    ;
}

/// The Pedersen hash over the Stark curve.
#[derive(Debug)]
pub struct Pedersen;

impl StarkHash for Pedersen {
    open spec fn hash_of(a: Felt, b: Felt) -> Felt {
        Felt::of(pedersen(a@, b@))
    }

    fn hash(a: &Felt, b: &Felt) -> (r: Felt) {
        proof {
            use_type_invariant(a);
            use_type_invariant(b);
        }
        let r = pedersen_hash(*a, *b);
        proof {
            r.lemma_of_view();
        }
        r
    }
}

/// The Poseidon hash.
#[derive(Debug)]
pub struct Poseidon;

impl StarkHash for Poseidon {
    open spec fn hash_of(a: Felt, b: Felt) -> Felt {
        Felt::of(poseidon(a@, b@))
    }

    fn hash(a: &Felt, b: &Felt) -> (r: Felt) {
        proof {
            use_type_invariant(a);
            use_type_invariant(b);
        }
        let r = poseidon_hash(*a, *b);
        proof {
            r.lemma_of_view();
        }
        r
    }
}

} // verus!
