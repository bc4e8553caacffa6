//! How the nodes of a proof lead from the root hash to what is told of a key.

use crate::felt::{Felt, StarkHash};
use crate::laws::proving::{lemma_walk_failures, lemma_walk_limit};
use crate::trie::merkle_node::{node_hash, NodeView};
use crate::trie::proofs::{
    finding, walk, MultiProof, ProofVerificationError, VerificationErrorView,
};
use vstd::prelude::*;

verus! {

/// The nodes hold one with the hash `hash`, and it has that hash.
pub open spec fn holds_hash<H: StarkHash>(nodes: Map<Felt, NodeView>, hash: Felt) -> bool {
    nodes.contains_key(hash) && node_hash::<H>(nodes[hash]) == hash
}

/// One node leads from a place to the next on the way to `key`. A place is a number of bits of the
/// key, and the hash that stands after them.
pub open spec fn leads<H: StarkHash>(
    nodes: Map<Felt, NodeView>,
    key: Seq<bool>,
    from: (nat, Felt),
    to: (nat, Felt),
) -> bool {
    &&& from.0 < key.len()
    &&& holds_hash::<H>(nodes, from.1)
    &&& match nodes[from.1] {
        NodeView::Binary { left, right } => to.0 == from.0 + 1 && to.1 == (if key[from.0 as int] {
            right
        } else {
            left
        }),
        NodeView::Edge { child, path } => {
            &&& to.0 == from.0 + path.len()
            &&& to.0 <= key.len()
            &&& path == key.subrange(from.0 as int, to.0 as int)
            &&& to.1 == child
        },
    }
}

/// The nodes lead from each place of a trail to the next.
pub open spec fn is_trail<H: StarkHash>(
    nodes: Map<Felt, NodeView>,
    key: Seq<bool>,
    trail: Seq<(nat, Felt)>,
) -> bool {
    &&& trail.len() > 0
    &&& forall|i: int|
        0 <= i < trail.len() - 1 ==> leads::<H>(nodes, key, #[trigger] trail[i], trail[i + 1])
}

/// The way to `key` ends at a place, with what it tells: at the end of the key the hash there is
/// the value, at an edge that the key leaves the value is zero, and no value is told where a node
/// is missing or does not have its hash.
pub open spec fn ends<H: StarkHash>(
    nodes: Map<Felt, NodeView>,
    key: Seq<bool>,
    place: (nat, Felt),
    told: Result<Felt, VerificationErrorView>,
) -> bool {
    let (depth, at) = place;
    match told {
        Ok(value) => if depth == key.len() {
            value == at
        } else {
            &&& depth < key.len()
            &&& holds_hash::<H>(nodes, at)
            &&& nodes[at] matches NodeView::Edge { path, .. } && !path.is_prefix_of(
                key.skip(depth as int),
            )
            &&& value@ == 0
        },
        Err(VerificationErrorView::MissingNode { path, hash }) => {
            &&& depth < key.len()
            &&& path == key.take(depth as int)
            &&& hash == at
            &&& !nodes.contains_key(at)
        },
        Err(VerificationErrorView::HashMismatch { path, expected, got }) => {
            &&& depth < key.len()
            &&& path == key.take(depth as int)
            &&& expected == at
            &&& nodes.contains_key(at)
            &&& got == node_hash::<H>(nodes[at])
            &&& got != at
        },
        Err(_) => false,
    }
}

/// Where a trail ends, a walk along it ends too.
proof fn lemma_trail_tells<H: StarkHash>(
    nodes: Map<Felt, NodeView>,
    limit: nat,
    key: Seq<bool>,
    trail: Seq<(nat, Felt)>,
    spare: nat,
    told: Result<Felt, VerificationErrorView>,
)
    requires
        is_trail::<H>(nodes, key, trail),
        ends::<H>(nodes, key, trail.last(), told),
        trail.len() <= limit,
        trail.len() <= spare,
    ensures
        walk::<H>(nodes, limit, key, trail[0].1, trail[0].0, spare) == told,
    decreases trail.len(),
{
    let (depth, at) = trail[0];
    if trail.len() == 1 {
        if let Ok(value) = told {
            if depth < key.len() {
                value.lemma_of_view();
            }
        }
    } else {
        let rest = trail.skip(1);
        assert(leads::<H>(nodes, key, trail[0], trail[1]));
        assert forall|i: int| 0 <= i < rest.len() - 1 implies leads::<H>(
            nodes,
            key,
            #[trigger] rest[i],
            rest[i + 1],
        ) by {
            assert(leads::<H>(nodes, key, trail[i + 1], trail[i + 2]));
        }
        assert(rest.last() == trail.last());
        match nodes[at] {
            NodeView::Binary { .. } => {
                lemma_trail_tells::<H>(nodes, limit, key, rest, limit, told);
            },
            NodeView::Edge { path, .. } => {
                assert(path =~= key.skip(depth as int).take(path.len() as int));
                if path.len() > 0 {
                    lemma_trail_tells::<H>(nodes, limit, key, rest, limit, told);
                } else {
                    lemma_trail_tells::<H>(nodes, limit, key, rest, (spare - 1) as nat, told);
                }
            },
        }
    }
}

/// A walk that comes to an end goes along a trail.
proof fn lemma_walk_trail<H: StarkHash>(
    nodes: Map<Felt, NodeView>,
    limit: nat,
    key: Seq<bool>,
    at: Felt,
    depth: nat,
    spare: nat,
) -> (trail: Seq<(nat, Felt)>)
    requires
        depth <= key.len(),
        !(walk::<H>(nodes, limit, key, at, depth, spare) matches Err(error)
            && error is InvalidProof),
    ensures
        is_trail::<H>(nodes, key, trail),
        trail[0] == (depth, at),
        ends::<H>(
            nodes,
            key,
            trail.last(),
            walk::<H>(nodes, limit, key, at, depth, spare),
        ),
    decreases key.len() - depth, spare,
{
    let here = seq![(depth, at)];
    Felt::lemma_view_of(0);
    if depth == key.len() || !nodes.contains_key(at) || node_hash::<H>(nodes[at]) != at {
        here
    } else {
        let rest = match nodes[at] {
            NodeView::Binary { left, right } => {
                let child = if key[depth as int] {
                    right
                } else {
                    left
                };
                lemma_walk_trail::<H>(nodes, limit, key, child, depth + 1, limit)
            },
            NodeView::Edge { child, path } => {
                if !path.is_prefix_of(key.skip(depth as int)) {
                    Seq::empty()
                } else {
                    assert(path =~= key.subrange(depth as int, (depth + path.len()) as int));
                    if path.len() > 0 {
                        lemma_walk_trail::<H>(nodes, limit, key, child, depth + path.len(), limit)
                    } else {
                        lemma_walk_trail::<H>(
                            nodes,
                            limit,
                            key,
                            child,
                            depth,
                            (spare - 1) as nat,
                        )
                    }
                }
            },
        };
        let trail = here + rest;
        if rest.len() > 0 {
            assert(leads::<H>(nodes, key, (depth, at), rest[0]));
            assert(trail.last() == rest.last());
        }
        assert forall|i: int| 0 <= i < trail.len() - 1 implies leads::<H>(
            nodes,
            key,
            #[trigger] trail[i],
            trail[i + 1],
        ) by {
            if i > 0 {
                assert(leads::<H>(nodes, key, rest[i - 1], rest[i]));
            }
        }
        trail
    }
}

/// A key that does not have as many bits as the trie has levels is reported with its length and
/// the height of the trie, and no other key is. So a value is told only of keys of that height.
pub proof fn law_key_length<H: StarkHash>(
    multi_proof: MultiProof,
    root: Felt,
    key: Seq<bool>,
    height: u8,
    result: Result<Felt, ProofVerificationError>,
)
    requires
        finding(result) == multi_proof.finding::<H>(root, key, height),
    ensures
        match result {
            Ok(_) => key.len() == height,
            Err(ProofVerificationError::KeyLengthMismatch { path, expected, got }) => {
                key.len() != height && path@ == key && expected == height && got == key.len()
            },
            Err(error) => key.len() == height && !(error is Overshot),
        },
{
    let limit = multi_proof@.len();
    lemma_walk_failures::<H>(multi_proof@, limit, key, root, 0, limit);
}

/// A verification that comes to an end has gone from the root hash down to it, through nodes that
/// have their own hashes. The last place tells the finding.
pub proof fn law_finding_has_trail<H: StarkHash>(
    multi_proof: MultiProof,
    root: Felt,
    key: Seq<bool>,
    height: u8,
) -> (trail: Seq<(nat, Felt)>)
    requires
        key.len() == height,
        !(multi_proof.finding::<H>(root, key, height) matches Err(error)
            && error is InvalidProof),
    ensures
        is_trail::<H>(multi_proof@, key, trail),
        trail[0] == (0nat, root),
        ends::<H>(
            multi_proof@,
            key,
            trail.last(),
            multi_proof.finding::<H>(root, key, height),
        ),
{
    let limit = multi_proof@.len();
    lemma_walk_trail::<H>(multi_proof@, limit, key, root, 0, limit)
}

/// If nodes that have their own hashes lead from the root hash to a place where the way to a key
/// ends, then what that place tells is what is found.
pub proof fn law_trail_tells<H: StarkHash>(
    multi_proof: MultiProof,
    root: Felt,
    key: Seq<bool>,
    height: u8,
    trail: Seq<(nat, Felt)>,
    told: Result<Felt, VerificationErrorView>,
)
    requires
        multi_proof@.dom().finite(),
        key.len() == height,
        is_trail::<H>(multi_proof@, key, trail),
        trail[0] == (0nat, root),
        ends::<H>(multi_proof@, key, trail.last(), told),
    ensures
        multi_proof.finding::<H>(root, key, height) == told,
{
    let limit = multi_proof@.len();
    let other = limit + trail.len();
    lemma_trail_tells::<H>(multi_proof@, other, key, trail, other, told);
    lemma_walk_limit::<H>(multi_proof@, limit, other, key, root, 0);
}

/// The nodes are reported to form no trie only if the way to the key never ends: from every place
/// that they lead to from the root hash, they lead on.
pub proof fn law_invalid_proof_has_no_end<H: StarkHash>(
    multi_proof: MultiProof,
    root: Felt,
    key: Seq<bool>,
    height: u8,
    trail: Seq<(nat, Felt)>,
) -> (next: (nat, Felt))
    requires
        multi_proof@.dom().finite(),
        multi_proof.finding::<H>(root, key, height) == Err::<Felt, VerificationErrorView>(
            VerificationErrorView::InvalidProof,
        ),
        is_trail::<H>(multi_proof@, key, trail),
        trail[0] == (0nat, root),
    ensures
        leads::<H>(multi_proof@, key, trail.last(), next),
{
    let nodes = multi_proof@;
    let (depth, at) = trail.last();
    assert(depth <= key.len()) by {
        if trail.len() > 1 {
            let i = trail.len() - 2;
            assert(leads::<H>(nodes, key, trail[i], trail[i + 1]));
        }
    }
    if depth == key.len() {
        law_trail_tells::<H>(multi_proof, root, key, height, trail, Ok(at));
    } else if !nodes.contains_key(at) {
        let told = VerificationErrorView::MissingNode { path: key.take(depth as int), hash: at };
        law_trail_tells::<H>(multi_proof, root, key, height, trail, Err(told));
    } else if node_hash::<H>(nodes[at]) != at {
        let told = VerificationErrorView::HashMismatch {
            path: key.take(depth as int),
            expected: at,
            got: node_hash::<H>(nodes[at]),
        };
        law_trail_tells::<H>(multi_proof, root, key, height, trail, Err(told));
    }
    match nodes[at] {
        NodeView::Binary { left, right } => (
            depth + 1,
            if key[depth as int] {
                right
            } else {
                left
            },
        ),
        NodeView::Edge { child, path } => {
            if !path.is_prefix_of(key.skip(depth as int)) {
                Felt::lemma_view_of(0);
                law_trail_tells::<H>(multi_proof, root, key, height, trail, Ok(Felt::of(0)));
            } else {
                assert(path =~= key.subrange(depth as int, (depth + path.len()) as int));
            }
            (depth + path.len(), child)
        },
    }
}

} // verus!
