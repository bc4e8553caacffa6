//! Nodes by their hashes.

use crate::collections::PositionMap;
use crate::felt::Felt;
use crate::trie::merkle_node::NodeView;
use crate::trie::proofs::ProofNode;
use vstd::prelude::*;

verus! {

/// A map from hashes to nodes, which keeps the order in which the hashes first came.
#[derive(Debug)]
pub struct NodeMap {
    entries: Vec<(Felt, ProofNode)>,
    positions: PositionMap,
}

impl View for NodeMap {
    type V = Map<Felt, NodeView>;

    closed spec fn view(&self) -> Map<Felt, NodeView> {
        Map::new(
            |hash: Felt| self.positions@.contains_key(hash.key()),
            |hash: Felt| self.entries@[self.positions@[hash.key()] as int].1@,
        )
    }
}

impl NodeMap {
    /// Every entry is found at its position under its hash, and nothing else is.
    #[verifier::type_invariant]
    spec fn well_formed(self) -> bool {
        &&& forall|i: int|
            0 <= i < self.entries@.len() ==> {
                let key = (#[trigger] self.entries@[i]).0.key();
                self.positions@.contains_key(key) && self.positions@[key] == i
            }
        &&& forall|key: (u128, u128)| #[trigger]
            self.positions@.contains_key(key) ==> self.positions@[key] < self.entries@.len()
                && self.entries@[self.positions@[key] as int].0.key() == key
    }

    /// The hashes, in the order in which they first came.
    pub closed spec fn order(self) -> Seq<Felt> {
        self.entries@.map_values(|entry: (Felt, ProofNode)| entry.0)
    }

    /// A map without nodes.
    pub fn new() -> (r: NodeMap)
        ensures
            r@ == Map::<Felt, NodeView>::empty(),
            r.order() == Seq::<Felt>::empty(),
    {
        let r = NodeMap { entries: Vec::new(), positions: PositionMap::new() };
        assert(r@ =~= Map::<Felt, NodeView>::empty());
        assert(r.order() =~= Seq::<Felt>::empty());
        r
    }

    /// The number of nodes.
    pub fn len(&self) -> (r: usize)
        ensures
            self@.dom().finite(),
            r == self@.len(),
            r == self.order().len(),
            self@.dom() == self.order().to_set(),
            self.order().no_duplicates(),
    {
        proof {
            use_type_invariant(self);
            let positions = self.positions@;
            assert(self.order().no_duplicates()) by {
                assert forall|i: int, j: int|
                    0 <= i < self.order().len() && 0 <= j < self.order().len() && i
                        != j implies self.order()[i] != self.order()[j] by {
                    assert(positions[self.entries@[i].0.key()] == i);
                    assert(positions[self.entries@[j].0.key()] == j);
                }
            }
            assert forall|hash: Felt| #[trigger]
                self@.contains_key(hash) implies self.order().contains(hash) by {
                broadcast use Felt::lemma_key_injective;

                assert(self.order()[positions[hash.key()] as int] == hash);
            }
            assert forall|hash: Felt| #[trigger]
                self.order().contains(hash) implies self@.contains_key(hash) by {
                let i = choose|i: int| 0 <= i < self.order().len() && self.order()[i] == hash;
                assert(positions.contains_key(self.entries@[i].0.key()));
            }
            assert(self@.dom() =~= self.order().to_set());
            self.order().unique_seq_to_set();
        }
        self.entries.len()
    }

    /// The hash that came at a place of the order, and its node.
    pub fn entry(&self, place: usize) -> (r: (Felt, &ProofNode))
        requires
            place < self.order().len(),
        ensures
            r.0 == self.order()[place as int],
            self@.contains_key(r.0),
            r.1@ == self@[r.0],
    {
        proof {
            use_type_invariant(self);
        }
        let entry = &self.entries[place];
        assert(self.positions@[self.entries@[place as int].0.key()] == place);
        (entry.0, &entry.1)
    }

    /// The hash that came first.
    pub fn first(&self) -> (r: Option<Felt>)
        ensures
            r == (if self.order().len() == 0 {
                None
            } else {
                Some(self.order()[0])
            }),
    {
        if self.entries.len() == 0 {
            None
        } else {
            Some(self.entries[0].0)
        }
    }

    /// The node under a hash.
    pub fn get(&self, hash: &Felt) -> (r: Option<&ProofNode>)
        ensures
            r is Some <==> self@.contains_key(*hash),
            r matches Some(node) ==> node@ == self@[*hash],
    {
        proof {
            use_type_invariant(self);
        }
        let ghost positions = self.positions@;
        match self.positions.get(hash.halves()) {
            Some(position) => Some(&self.entries[position].1),
            None => None,
        }
    }

    /// Puts a node under a hash, in place of any node that was there.
    pub fn insert(&mut self, hash: Felt, node: ProofNode)
        ensures
            final(self)@ == old(self)@.insert(hash, node@),
            final(self).order() == if old(self)@.contains_key(hash) {
                old(self).order()
            } else {
                old(self).order().push(hash)
            },
    {
        proof {
            use_type_invariant(&*self);
        }
        let mut taken = NodeMap::new();
        std::mem::swap(self, &mut taken);
        let NodeMap { mut entries, mut positions } = taken;
        let ghost before = positions@;
        match positions.get(hash.halves()) {
            Some(position) => {
                entries.set(position, (hash, node));
            },
            None => {
                positions.insert(hash.halves(), entries.len());
                entries.push((hash, node));
            },
        }
        proof {
            broadcast use Felt::lemma_key_injective;

            assert(positions@ == positions.view());
        }
        *self = NodeMap { entries, positions };
        proof {
            broadcast use Felt::lemma_key_injective;

            assert(self@ =~= old(self)@.insert(hash, node@));
            assert(self.order() =~= if old(self)@.contains_key(hash) {
                old(self).order()
            } else {
                old(self).order().push(hash)
            });
        }
    }
}

impl Clone for NodeMap {
    fn clone(&self) -> (r: NodeMap)
        ensures
            r@ == self@,
            r.order() == self.order(),
    {
        proof {
            use_type_invariant(self);
        }
        let ghost positions = self.positions@;
        let mut r = NodeMap::new();
        let mut i: usize = 0;
        while i < self.entries.len()
            invariant
                i <= self.entries@.len(),
                self.well_formed(),
                positions == self.positions@,
                r.order() == self.order().take(i as int),
                forall|hash: Felt|
                    #![trigger r@.contains_key(hash)]
                    r@.contains_key(hash) <==> positions.contains_key(hash.key())
                        && positions[hash.key()] < i,
                forall|hash: Felt| #[trigger]
                    r@.contains_key(hash) ==> r@[hash]
                        == self.entries@[positions[hash.key()] as int].1@,
            decreases self.entries@.len() - i,
        {
            proof {
                broadcast use Felt::lemma_key_injective;

                let hash = self.entries@[i as int].0;
                assert(positions.contains_key(hash.key()));
                assert(!r@.contains_key(hash));
                assert(self.order().take(i + 1) =~= self.order().take(i as int).push(hash));
                assert forall|other: Felt|
                    positions.contains_key(other.key()) && positions[other.key()]
                        == i implies other == hash by {}
            }
            r.insert(self.entries[i].0, self.entries[i].1.clone());
            i += 1;
        }
        assert(r@ =~= self@);
        assert(self.order().take(i as int) =~= self.order());
        r
    }
}

} // verus!
