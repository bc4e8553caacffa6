//! The numbers that hashes are made of.

use crate::felt::{half_weight, pedersen, poseidon, prime, Felt, Pedersen, Poseidon, StarkHash};
use crate::trie::merkle_node::{
    binary_hash, edge_hash, node_hash, with_child, Direction, NodeView,
};
use crate::trie::model::Trie;
use crate::trie::path::bits_value;
use vstd::arithmetic::power2::{
    lemma2_to64, lemma2_to64_rest, lemma_pow2_adds, lemma_pow2_pos, lemma_pow2_strictly_increases,
    lemma_pow2_unfold, pow2,
};
use vstd::prelude::*;

verus! {

/// The prime of the field, and the weight of the high half of an element, by powers of two.
pub proof fn law_field()
    ensures
        prime() == pow2(251) + 17 * pow2(192) + 1,
        half_weight() == pow2(128),
{
    lemma2_to64();
    lemma2_to64_rest();
    lemma_pow2_adds(64, 64);
    lemma_pow2_adds(128, 64);
    lemma_pow2_adds(192, 59);
}

/// An element and its least non-negative representative determine each other.
pub proof fn law_representatives(felt: Felt, value: nat)
    ensures
        Felt::of(felt@) == felt,
        value < prime() ==> Felt::of(value)@ == value,
{
    felt.lemma_of_view();
    if value < prime() {
        Felt::lemma_view_of(value);
    }
}

/// The two hash functions are the outside ones, on the elements in the order in which they come.
pub proof fn law_hash_functions(a: Felt, b: Felt)
    ensures
        Pedersen::hash_of(a, b) == Felt::of(pedersen(a@, b@)),
        Poseidon::hash_of(a, b) == Felt::of(poseidon(a@, b@)),
{
}

/// A run of bits spells the number that its bits have by their places: a single bit is worth zero
/// or one, and what another run follows is worth as much as it is shifted by.
pub proof fn law_bits_spell_number(upper: Seq<bool>, lower: Seq<bool>)
    ensures
        bits_value(Seq::empty()) == 0,
        bits_value(seq![false]) == 0,
        bits_value(seq![true]) == 1,
        bits_value(upper + lower) == bits_value(upper) * pow2(lower.len()) + bits_value(lower),
        bits_value(lower) < pow2(lower.len()),
    decreases lower.len(),
{
    lemma2_to64();
    reveal_with_fuel(bits_value, 2);
    assert(seq![true].drop_last() =~= Seq::<bool>::empty());
    assert(seq![false].drop_last() =~= Seq::<bool>::empty());
    if lower.len() == 0 {
        assert(upper + lower =~= upper);
    } else {
        let before = lower.drop_last();
        assert((upper + lower).drop_last() =~= upper + before);
        assert((upper + lower).last() == lower.last());
        law_bits_spell_number(upper, before);
        lemma_pow2_unfold(lower.len());
        let (u, p) = (bits_value(upper), pow2(before.len()));
        assert(u * (2 * p) == 2 * (u * p)) by (nonlinear_arith);
    }
}

/// The bit at place `i` of a run is worth two to the power of the number of bits after it.
pub proof fn law_bit_has_its_weight(bits: Seq<bool>, i: int)
    requires
        0 <= i < bits.len(),
    ensures
        bits_value(bits.update(i, true)) == bits_value(bits.update(i, false)) + pow2(
            (bits.len() - 1 - i) as nat,
        ),
{
    let (upper, lower) = (bits.take(i), bits.skip(i + 1));
    lemma_one_bit(upper, true, lower);
    lemma_one_bit(upper, false, lower);
    assert(bits.update(i, true) =~= upper + seq![true] + lower);
    assert(bits.update(i, false) =~= upper + seq![false] + lower);
}

proof fn lemma_one_bit(upper: Seq<bool>, bit: bool, lower: Seq<bool>)
    ensures
        bits_value(upper + seq![bit] + lower) == 2 * bits_value(upper) * pow2(lower.len()) + (
        if bit {
            pow2(lower.len())
        } else {
            0
        }) + bits_value(lower),
{
    law_bits_spell_number(upper, seq![bit]);
    law_bits_spell_number(upper + seq![bit], lower);
    lemma2_to64();
    let (u, p) = (bits_value(upper), pow2(lower.len()));
    let w = bits_value(upper + seq![bit]);
    assert(w == 2 * u + bits_value(seq![bit])) by {
        assert(seq![bit].len() == 1);
        assert(pow2(1) == 2);
        assert(u * 2 == 2 * u);
    }
    if bit {
        assert(w * p == 2 * u * p + p) by (nonlinear_arith)
            requires
                w == 2 * u + 1,
        ;
    } else {
        assert(w * p == 2 * u * p) by (nonlinear_arith)
            requires
                w == 2 * u,
        ;
    }
}

/// Different runs of the same length spell different numbers.
pub proof fn law_bits_tell_apart(a: Seq<bool>, b: Seq<bool>)
    requires
        a.len() == b.len(),
        bits_value(a) == bits_value(b),
    ensures
        a == b,
    decreases a.len(),
{
    if a.len() > 0 {
        law_bits_tell_apart(a.drop_last(), b.drop_last());
        assert(a =~= a.drop_last().push(a.last()));
        assert(b =~= b.drop_last().push(b.last()));
    }
    assert(a =~= b);
}

/// The hash of a binary node is the hash of its left child and its right child, in this order.
pub proof fn law_binary_hash<H: StarkHash>(left: Felt, right: Felt)
    ensures
        binary_hash::<H>(left, right) == H::hash_of(left, right),
        binary_hash::<H>(right, left) == H::hash_of(right, left),
{
}

/// The hash of an edge is the hash of its child and of the number that its path spells, plus the
/// length of the path.
pub proof fn law_edge_hash<H: StarkHash>(path: Seq<bool>, child: Felt)
    ensures
        edge_hash::<H>(path, child) == Felt::of(
            (H::hash_of(child, Felt::of(bits_value(path) % prime()))@ + path.len()) % prime(),
        ),
{
}

/// The hash of a node is made of the hashes of its children, each in its place, and for an edge of
/// the number that its path spells and of its length.
pub proof fn law_node_hash<H: StarkHash>(node: NodeView)
    ensures
        match node {
            NodeView::Binary { left, right } => node_hash::<H>(node) == H::hash_of(left, right),
            NodeView::Edge { child, path } => node_hash::<H>(node) == Felt::of(
                (H::hash_of(child, Felt::of(bits_value(path) % prime()))@ + path.len()) % prime(),
            ),
        },
{
}

/// The hash of a trie is the hash of its topmost node, whose children are the tries below it.
pub proof fn law_trie_hash<H: StarkHash>(trie: Trie)
    ensures
        match trie {
            Trie::Digest(digest) => trie.hash::<H>() == digest,
            Trie::Binary { left, right } => {
                &&& trie.hash::<H>() == H::hash_of(left.hash::<H>(), right.hash::<H>())
                &&& trie.node::<H>() is Binary
                &&& trie.node::<H>()->left == left.hash::<H>()
                &&& trie.node::<H>()->right == right.hash::<H>()
            },
            Trie::Edge { path, child } => {
                &&& trie.hash::<H>() == Felt::of(
                    (H::hash_of(child.hash::<H>(), Felt::of(bits_value(path) % prime()))@
                        + path.len()) % prime(),
                )
                &&& trie.node::<H>() is Edge
                &&& trie.node::<H>()->child == child.hash::<H>()
                &&& trie.node::<H>()->path == path
            },
        },
{
}

/// Up to 251 bits, different paths of one length go into the hash of an edge as different
/// elements.
pub proof fn law_paths_tell_apart(a: Seq<bool>, b: Seq<bool>)
    requires
        a.len() == b.len() <= 251,
        Felt::of(bits_value(a) % prime()) == Felt::of(bits_value(b) % prime()),
    ensures
        a == b,
{
    law_field();
    law_bits_spell_number(Seq::empty(), a);
    law_bits_spell_number(Seq::empty(), b);
    if a.len() < 251 {
        lemma_pow2_strictly_increases(a.len(), 251);
    }
    lemma_pow2_pos(192);
    law_representatives(Felt::of(0), bits_value(a));
    law_representatives(Felt::of(0), bits_value(b));
    assert(bits_value(a) % prime() == bits_value(a)) by (nonlinear_arith)
        requires
            bits_value(a) < prime(),
    ;
    assert(bits_value(b) % prime() == bits_value(b)) by (nonlinear_arith)
        requires
            bits_value(b) < prime(),
    ;
    law_bits_tell_apart(a, b);
}

/// A clear bit selects the left child and a set bit the right one. Another hash in the place of a
/// child leaves everything else of a node.
pub proof fn law_directions(node: NodeView, bit: bool, new: Felt)
    ensures
        Direction::of(false) == Direction::Left,
        Direction::of(true) == Direction::Right,
        match node {
            NodeView::Binary { left, right } => {
                &&& with_child(node, bit, new) is Binary
                &&& with_child(node, bit, new)->left == (if bit {
                    left
                } else {
                    new
                })
                &&& with_child(node, bit, new)->right == (if bit {
                    new
                } else {
                    right
                })
            },
            NodeView::Edge { child, path } => {
                &&& with_child(node, bit, new) is Edge
                &&& with_child(node, bit, new)->child == new
                &&& with_child(node, bit, new)->path == path
            },
        },
{
}

} // verus!
