//! Nodes by their positions.

use crate::trie::merkle_node::NodeView;
use crate::trie::path::{common_path, lemma_common_len, lemma_prefix_common};
use crate::trie::proofs::ProofNode;
use crate::trie::tree::NodeKey;
use vstd::prelude::*;

verus! {

/// A map from positions in a tree to the nodes that stand there.
#[derive(Debug)]
pub struct PositionedNodes {
    entries: Vec<(NodeKey, ProofNode)>,
}

/// The place of a position among some entries.
spec fn place_of(entries: Seq<(NodeKey, ProofNode)>, position: Seq<bool>) -> int {
    choose|i: int| 0 <= i < entries.len() && (#[trigger] entries[i]).0@ == position
}

/// Whether some entries have a position.
spec fn has_place(entries: Seq<(NodeKey, ProofNode)>, position: Seq<bool>) -> bool {
    exists|i: int| 0 <= i < entries.len() && (#[trigger] entries[i]).0@ == position
}

impl View for PositionedNodes {
    type V = Map<Seq<bool>, NodeView>;

    closed spec fn view(&self) -> Map<Seq<bool>, NodeView> {
        Map::new(
            |position: Seq<bool>| has_place(self.entries@, position),
            |position: Seq<bool>| self.entries@[place_of(self.entries@, position)].1@,
        )
    }
}

/// Whether two runs of bits are the same.
fn same_bits(a: &[bool], b: &[bool]) -> (r: bool)
    ensures
        r == (a@ == b@),
{
    proof {
        assert(b@.skip(0) =~= b@);
        lemma_common_len(a@, b@);
        lemma_prefix_common(a@, b@);
        assert(b@.take(b@.len() as int) =~= b@);
    }
    a.len() == b.len() && common_path(a, b, 0) == a.len()
}

impl PositionedNodes {
    /// No position comes twice.
    #[verifier::type_invariant]
    spec fn well_formed(self) -> bool {
        forall|i: int, j: int|
            0 <= i < j < self.entries@.len() ==> (#[trigger] self.entries@[i]).0@ != (
            #[trigger] self.entries@[j]).0@
    }

    /// A map without nodes.
    pub fn new() -> (r: PositionedNodes)
        ensures
            r@ == Map::<Seq<bool>, NodeView>::empty(),
    {
        let r = PositionedNodes { entries: Vec::new() };
        assert(r@ =~= Map::<Seq<bool>, NodeView>::empty());
        r
    }

    /// The place of a position.
    fn find(&self, position: &[bool]) -> (r: Option<usize>)
        ensures
            match r {
                Some(i) => i < self.entries@.len() && self.entries@[i as int].0@ == position@,
                None => !has_place(self.entries@, position@),
            },
    {
        let mut i: usize = 0;
        while i < self.entries.len()
            invariant
                i <= self.entries@.len(),
                forall|j: int| 0 <= j < i ==> (#[trigger] self.entries@[j]).0@ != position@,
            decreases self.entries@.len() - i,
        {
            if same_bits(&self.entries[i].0.0, position) {
                return Some(i);
            }
            i += 1;
        }
        None
    }

    /// The node at a position.
    pub fn get(&self, position: &NodeKey) -> (r: Option<&ProofNode>)
        ensures
            r is Some <==> self@.contains_key(position@),
            r matches Some(node) ==> node@ == self@[position@],
    {
        proof {
            use_type_invariant(self);
        }
        match self.find(&position.0) {
            Some(i) => Some(&self.entries[i].1),
            None => None,
        }
    }

    /// Puts a node at a position, in place of any node that was there.
    pub fn insert(&mut self, position: NodeKey, node: ProofNode)
        ensures
            final(self)@ == old(self)@.insert(position@, node@),
    {
        proof {
            use_type_invariant(&*self);
        }
        let found = self.find(&position.0);
        let ghost before = self.entries@;
        let ghost (key, new) = (position@, node@);
        let mut taken = PositionedNodes::new();
        std::mem::swap(self, &mut taken);
        let PositionedNodes { mut entries } = taken;
        let place: usize = match found {
            Some(i) => {
                entries.set(i, (position, node));
                i
            },
            None => {
                entries.push((position, node));
                entries.len() - 1
            },
        };
        *self = PositionedNodes { entries };
        proof {
            let after = self.entries@;
            assert(after[place as int].0@ == key && after[place as int].1@ == new);
            assert forall|p: Seq<bool>|
                has_place(after, p) <==> has_place(before, p) || p == key by {
                if has_place(before, p) {
                    let i = place_of(before, p);
                    assert(after[i].0@ == p);
                }
                if has_place(after, p) && p != key {
                    let i = place_of(after, p);
                    assert(before[i].0@ == p);
                }
            }
            assert forall|p: Seq<bool>| has_place(before, p) && p != key implies #[trigger] after[
            place_of(after, p)].1@ == before[place_of(before, p)].1@ by {
                let i = place_of(before, p);
                let j = place_of(after, p);
                assert(after[i].0@ == p);
                assert(after[j].0@ == p);
            }
            assert(self@ =~= old(self)@.insert(key, new));
        }
    }
}

impl Clone for PositionedNodes {
    fn clone(&self) -> (r: PositionedNodes)
        ensures
            r@ == self@,
    {
        proof {
            use_type_invariant(self);
        }
        let mut entries: Vec<(NodeKey, ProofNode)> = Vec::new();
        let mut i: usize = 0;
        while i < self.entries.len()
            invariant
                i <= self.entries@.len(),
                entries@.len() == i,
                forall|j: int|
                    0 <= j < i ==> (#[trigger] entries@[j]).0@ == self.entries@[j].0@
                        && entries@[j].1@ == self.entries@[j].1@,
            decreases self.entries@.len() - i,
        {
            let entry = &self.entries[i];
            entries.push((entry.0.clone(), entry.1.clone()));
            i += 1;
        }
        let r = PositionedNodes { entries };
        proof {
            let (a, b) = (self.entries@, r.entries@);
            assert forall|p: Seq<bool>| has_place(a, p) <==> has_place(b, p) by {
                if has_place(a, p) {
                    assert(b[place_of(a, p)].0@ == p);
                }
                if has_place(b, p) {
                    assert(a[place_of(b, p)].0@ == p);
                }
            }
            assert forall|p: Seq<bool>| has_place(a, p) implies #[trigger] b[place_of(b, p)].1@
                == a[place_of(a, p)].1@ by {
                let i = place_of(a, p);
                let j = place_of(b, p);
                assert(b[i].0@ == p);
                assert(b[j].0@ == p);
            }
            assert(r@ =~= self@);
        }
        r
    }
}

} // verus!
