//! Texts: what can be read back from them.

use crate::felt::Felt;
use crate::text::{bits_text, decimal, felt_text, groups, hexadecimal};
use crate::trie::partial_trie::PartialTrieErrorView;
use crate::trie::proofs::VerificationErrorView;
use vstd::prelude::*;

verus! {

/// The value of a sign as a digit, if it is one.
pub open spec fn digit_value(sign: char) -> Option<nat> {
    if '0' <= sign <= '9' {
        Some((sign as nat - '0' as nat) as nat)
    } else if 'a' <= sign <= 'f' {
        Some((sign as nat - 'a' as nat + 10) as nat)
    } else {
        None
    }
}

/// The number that digits spell in a base, most significant digit first, if all signs are digits
/// of the base.
pub open spec fn spelled(digits: Seq<char>, base: nat) -> Option<nat>
    decreases digits.len(),
{
    if digits.len() == 0 {
        Some(0)
    } else {
        match (spelled(digits.drop_last(), base), digit_value(digits.last())) {
            (Some(upper), Some(lower)) => if lower < base {
                Some(upper * base + lower)
            } else {
                None
            },
            _ => None,
        }
    }
}

/// A number is written in decimal digits, which spell it, without zeros in front.
pub proof fn law_decimal_spells_number(value: nat)
    ensures
        decimal(value).len() > 0,
        spelled(decimal(value), 10) == Some(value),
        value > 0 ==> decimal(value)[0] != '0',
        value == 0 ==> decimal(value).len() == 1,
    decreases value,
{
    reveal_with_fuel(spelled, 2);
    if value < 10 {
        assert(decimal(value).drop_last() =~= Seq::<char>::empty());
    } else {
        law_decimal_spells_number(value / 10);
        assert(decimal(value).drop_last() =~= decimal(value / 10));
        assert(decimal(value)[0] == decimal(value / 10)[0]);
    }
}

/// A number is written in hexadecimal digits, which spell it, without zeros in front.
pub proof fn law_hexadecimal_spells_number(value: nat)
    ensures
        hexadecimal(value).len() > 0,
        spelled(hexadecimal(value), 16) == Some(value),
        value > 0 ==> hexadecimal(value)[0] != '0',
        value == 0 ==> hexadecimal(value).len() == 1,
    decreases value,
{
    reveal_with_fuel(spelled, 2);
    if value < 16 {
        assert(hexadecimal(value).drop_last() =~= Seq::<char>::empty());
    } else {
        law_hexadecimal_spells_number(value / 16);
        assert(hexadecimal(value).drop_last() =~= hexadecimal(value / 16));
        assert(hexadecimal(value)[0] == hexadecimal(value / 16)[0]);
    }
}

/// A field element is written as its representative in hexadecimal digits after a prefix.
pub proof fn law_felt_text(felt: Felt)
    ensures
        felt_text(felt).len() > 2,
        felt_text(felt)[0] == '0',
        felt_text(felt)[1] == 'x',
        spelled(felt_text(felt).skip(2), 16) == Some(felt@),
        felt@ > 0 ==> felt_text(felt)[2] != '0',
        felt@ == 0 ==> felt_text(felt).len() == 3,
{
    reveal_strlit("0x");
    law_hexadecimal_spells_number(felt@);
    assert(felt_text(felt).skip(2) =~= hexadecimal(felt@));
}

/// The place of a bit in its text: after the bits before it, and after two more signs for each
/// group of eight before its own.
pub open spec fn place_of_bit(i: int) -> int {
    i + 2 * (i / 8)
}

/// Groups of bits: each bit stands in its place, and a comma and a space stand between two groups.
proof fn lemma_groups(bits: Seq<bool>, i: int)
    ensures
        groups(bits).len() == if bits.len() == 0 {
            0
        } else {
            place_of_bit(bits.len() - 1) + 1
        },
        0 <= i < bits.len() ==> groups(bits)[place_of_bit(i)] == if bits[i] {
            '1'
        } else {
            '0'
        },
        0 < i < bits.len() && i % 8 == 0 ==> groups(bits)[place_of_bit(i) - 2] == ','
            && groups(bits)[place_of_bit(i) - 1] == ' ',
    decreases bits.len(),
{
    reveal_strlit("0");
    reveal_strlit("1");
    reveal_strlit(", ");
    if bits.len() > 0 {
        let before = groups(bits.drop_last());
        lemma_groups(bits.drop_last(), i);
        if 0 <= i < bits.len() - 1 {
            assert(bits.drop_last()[i] == bits[i]);
            lemma_places(i, bits.len() - 2);
        }
        let last = bits.len() - 1;
        if last > 0 {
            assert(place_of_bit(last) == place_of_bit(last - 1) + if last % 8 == 0 {
                3int
            } else {
                1int
            });
        }
    }
}

/// Later bits stand in later places.
proof fn lemma_places(i: int, j: int)
    requires
        0 <= i <= j,
    ensures
        0 <= place_of_bit(i) <= place_of_bit(j),
{
}

/// A run of bits is written between brackets, each bit as a digit in its place, in groups of eight
/// that a comma and a space part.
pub proof fn law_bits_text(bits: Seq<bool>, i: int)
    ensures
        bits_text(bits).len() == if bits.len() == 0 {
            2
        } else {
            place_of_bit(bits.len() - 1) + 3
        },
        bits_text(bits)[0] == '[',
        bits_text(bits).last() == ']',
        0 <= i < bits.len() ==> bits_text(bits)[1 + place_of_bit(i)] == if bits[i] {
            '1'
        } else {
            '0'
        },
        0 < i < bits.len() && i % 8 == 0 ==> bits_text(bits)[place_of_bit(i) - 1] == ','
            && bits_text(bits)[place_of_bit(i)] == ' ',
{
    reveal_strlit("[");
    reveal_strlit("]");
    lemma_groups(bits, i);
    if 0 <= i < bits.len() {
        lemma_places(i, bits.len() - 1);
    }
}

/// What the errors of a verification say to a reader: the kind, and the particulars in order.
pub proof fn law_verification_messages(error: VerificationErrorView)
    ensures
        match error {
            VerificationErrorView::KeyLengthMismatch { path, expected, got } => error.text()
                == "Key length mismatch: key "@ + bits_text(path) + ", expected length "@
                + decimal(expected) + ", got "@ + decimal(got),
            VerificationErrorView::MissingNode { path, hash } => error.text()
                == "Missing node in proof: key "@ + bits_text(path) + ", hash "@ + felt_text(hash),
            VerificationErrorView::Overshot { path, expected_max_height } => error.text()
                == "Overshot the expected path: path "@ + bits_text(path)
                + ", expected max height "@ + decimal(expected_max_height),
            VerificationErrorView::HashMismatch { path, expected, got } => error.text()
                == "Node hash mismatch: path "@ + bits_text(path) + ", expected "@ + felt_text(
                expected,
            ) + ", got "@ + felt_text(got),
            VerificationErrorView::InvalidProof => error.text() == "Invalid proof"@,
        },
{
}

/// What the errors of a partial trie say to a reader.
pub proof fn law_partial_trie_messages(error: PartialTrieErrorView)
    ensures
        match error {
            PartialTrieErrorView::ProofVerificationError(inner) => error.text() == inner.text(),
            PartialTrieErrorView::NodeNotFound => error.text()
                == "Node not found in storage or proof"@,
            PartialTrieErrorView::KeyLength => error.text()
                == "Key length is not equal to max height"@,
            PartialTrieErrorView::SetValueZero => error.text() == "Set value is zero"@,
            PartialTrieErrorView::InvalidNodeHandle => error.text()
                == "Invalid node handle - expected hash but got in-memory node"@,
        },
{
}

} // verus!
