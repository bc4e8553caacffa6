//! Numbers and bits as text.

use crate::felt::{half_weight, Felt};
use vstd::prelude::*;
use vstd::string::StringExecFns;

verus! {

/// The sign of a digit.
pub open spec fn digit(value: nat) -> char {
    seq![
        '0',
        '1',
        '2',
        '3',
        '4',
        '5',
        '6',
        '7',
        '8',
        '9',
        'a',
        'b',
        'c',
        'd',
        'e',
        'f',
    ][value as int]
}

/// A number in decimal digits.
pub open spec fn decimal(value: nat) -> Seq<char>
    decreases value,
{
    if value < 10 {
        seq![digit(value)]
    } else {
        decimal(value / 10).push(digit(value % 10))
    }
}

/// A number in hexadecimal digits.
pub open spec fn hexadecimal(value: nat) -> Seq<char>
    decreases value,
{
    if value < 16 {
        seq![digit(value)]
    } else {
        hexadecimal(value / 16).push(digit(value % 16))
    }
}

/// The last `count` hexadecimal digits of a number, with zeros in front where it has fewer.
spec fn padded(value: nat, count: nat) -> Seq<char>
    decreases count,
{
    if count == 0 {
        Seq::empty()
    } else {
        padded(value / 16, (count - 1) as nat).push(digit(value % 16))
    }
}

/// The weight of the hexadecimal digit that `count` others follow.
spec fn weight(count: nat) -> nat
    decreases count,
{
    if count == 0 {
        1
    } else {
        16 * weight((count - 1) as nat)
    }
}

/// The digits of a number are those of its upper part and then those of its lower part.
proof fn lemma_hexadecimal_parts(upper: nat, lower: nat, count: nat)
    requires
        upper > 0,
        lower < weight(count),
    ensures
        hexadecimal(upper * weight(count) + lower) == hexadecimal(upper) + padded(lower, count),
    decreases count,
{
    if count == 0 {
        assert(hexadecimal(upper) + padded(lower, count) =~= hexadecimal(upper));
        assert(upper * weight(count) + lower == upper);
    } else {
        let below = weight((count - 1) as nat);
        let part = upper * below;
        let whole = upper * weight(count) + lower;
        assert(upper * (16 * below) == 16 * part) by (nonlinear_arith)
            requires
                part == upper * below,
        ;
        assert(part >= below) by (nonlinear_arith)
            requires
                part == upper * below,
                upper > 0,
        ;
        lemma_weight((count - 1) as nat);
        assert(whole == 16 * part + lower);
        assert(whole / 16 == part + lower / 16);
        assert(whole % 16 == lower % 16);
        lemma_hexadecimal_parts(upper, lower / 16, (count - 1) as nat);
        assert(hexadecimal(whole) =~= hexadecimal(upper) + padded(lower, count));
    }
}

proof fn lemma_weight(count: nat)
    ensures
        weight(count) > 0,
    decreases count,
{
    if count > 0 {
        lemma_weight((count - 1) as nat);
    }
}

/// Bits in groups of eight.
pub open spec fn groups(bits: Seq<bool>) -> Seq<char>
    decreases bits.len(),
{
    if bits.len() == 0 {
        Seq::empty()
    } else {
        let before = groups(bits.drop_last());
        let gap = if bits.len() > 1 && bits.len() % 8 == 1 {
            before + ", "@
        } else {
            before
        };
        gap + if bits.last() {
            "1"@
        } else {
            "0"@
        }
    }
}

/// A run of bits as text.
pub open spec fn bits_text(bits: Seq<bool>) -> Seq<char> {
    "["@ + groups(bits) + "]"@
}

/// A field element as text.
pub open spec fn felt_text(felt: Felt) -> Seq<char> {
    "0x"@ + hexadecimal(felt@)
}

/// The sign of a digit, as text.
fn digit_of(value: u8) -> (r: &'static str)
    requires
        value < 16,
    ensures
        r@ == seq![digit(value as nat)],
{
    proof {
        reveal_strlit("0");
        reveal_strlit("1");
        reveal_strlit("2");
        reveal_strlit("3");
        reveal_strlit("4");
        reveal_strlit("5");
        reveal_strlit("6");
        reveal_strlit("7");
        reveal_strlit("8");
        reveal_strlit("9");
        reveal_strlit("a");
        reveal_strlit("b");
        reveal_strlit("c");
        reveal_strlit("d");
        reveal_strlit("e");
        reveal_strlit("f");
    }
    let r = match value {
        0 => "0",
        1 => "1",
        2 => "2",
        3 => "3",
        4 => "4",
        5 => "5",
        6 => "6",
        7 => "7",
        8 => "8",
        9 => "9",
        10 => "a",
        11 => "b",
        12 => "c",
        13 => "d",
        14 => "e",
        _ => "f",
    };
    assert(r@ =~= seq![digit(value as nat)]);
    r
}

/// Adds a number in decimal digits to a text.
pub fn append_decimal(text: &mut String, value: usize)
    ensures
        final(text)@ == old(text)@ + decimal(value as nat),
    decreases value,
{
    let ghost before = text@;
    if value >= 10 {
        append_decimal(text, value / 10);
    }
    text.append(digit_of((value % 10) as u8));
    assert(text@ =~= before + decimal(value as nat));
}

/// Adds a number in hexadecimal digits to a text.
fn append_hexadecimal(text: &mut String, value: u128)
    ensures
        final(text)@ == old(text)@ + hexadecimal(value as nat),
    decreases value,
{
    let ghost before = text@;
    if value >= 16 {
        append_hexadecimal(text, value / 16);
    }
    text.append(digit_of((value % 16) as u8));
    assert(text@ =~= before + hexadecimal(value as nat));
}

/// Adds the last `count` hexadecimal digits of a number to a text.
fn append_padded(text: &mut String, value: u128, count: u8)
    ensures
        final(text)@ == old(text)@ + padded(value as nat, count as nat),
    decreases count,
{
    let ghost before = text@;
    if count > 0 {
        append_padded(text, value / 16, count - 1);
        text.append(digit_of((value % 16) as u8));
    }
    assert(text@ =~= before + padded(value as nat, count as nat));
}

/// Adds a field element to a text.
pub fn append_felt(text: &mut String, felt: &Felt)
    ensures
        final(text)@ == old(text)@ + felt_text(*felt),
{
    let ghost before = text@;
    text.append("0x");
    let (high, low) = felt.halves();
    if high > 0 {
        append_hexadecimal(text, high);
        append_padded(text, low, 32);
        proof {
            reveal_with_fuel(weight, 33);
            assert(weight(32) == half_weight());
            lemma_hexadecimal_parts(high as nat, low as nat, 32);
        }
    } else {
        append_hexadecimal(text, low);
    }
    assert(text@ =~= before + felt_text(*felt));
}

/// Adds a run of bits to a text.
pub fn append_bits(text: &mut String, bits: &[bool])
    ensures
        final(text)@ == old(text)@ + bits_text(bits@),
{
    let ghost before = text@;
    text.append("[");
    let mut i: usize = 0;
    while i < bits.len()
        invariant
            i <= bits@.len(),
            text@ == before + "["@ + groups(bits@.take(i as int)),
        decreases bits@.len() - i,
    {
        assert(bits@.take(i + 1).drop_last() =~= bits@.take(i as int));
        if i > 0 && i % 8 == 0 {
            text.append(", ");
        }
        if bits[i] {
            text.append("1");
        } else {
            text.append("0");
        }
        i += 1;
        assert(text@ =~= before + "["@ + groups(bits@.take(i as int)));
    }
    assert(bits@.take(i as int) =~= bits@);
    text.append("]");
    assert(text@ =~= before + bits_text(bits@));
}

} // verus!
