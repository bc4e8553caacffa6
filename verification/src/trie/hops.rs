//! Edges without bits, which lead from a node to another one on the same level.

use crate::felt::Felt;
use crate::trie::merkle_node::NodeView;
use vstd::prelude::*;

verus! {

/// The hash that `n` edges without bits lead to from the node with the hash `at`, if there are as
/// many in a row.
pub open spec fn hop(nodes: Map<Felt, NodeView>, at: Felt, n: nat) -> Option<Felt>
    decreases n,
{
    if n == 0 {
        Some(at)
    } else {
        match hop(nodes, at, (n - 1) as nat) {
            None => None,
            Some(hash) => if nodes.contains_key(hash) {
                match nodes[hash] {
                    NodeView::Edge { child, path } => if path.len() == 0 {
                        Some(child)
                    } else {
                        None
                    },
                    NodeView::Binary { .. } => None,
                }
            } else {
                None
            },
        }
    }
}

/// Where hops end, there is a last one.
pub proof fn lemma_last_hop(nodes: Map<Felt, NodeView>, at: Felt, n: nat) -> (last: nat)
    requires
        hop(nodes, at, n) is None,
    ensures
        last < n,
        hop(nodes, at, last) is Some,
        hop(nodes, at, last + 1) is None,
    decreases n,
{
    if hop(nodes, at, (n - 1) as nat) is Some {
        (n - 1) as nat
    } else {
        lemma_last_hop(nodes, at, (n - 1) as nat)
    }
}

/// Hops that met once stay together.
pub proof fn lemma_hops_meet(
    nodes: Map<Felt, NodeView>,
    at: Felt,
    i: nat,
    j: nat,
    n: nat,
)
    requires
        hop(nodes, at, i) == hop(nodes, at, j),
    ensures
        hop(nodes, at, i + n) == hop(nodes, at, j + n),
    decreases n,
{
    if n > 0 {
        lemma_hops_meet(nodes, at, i, j, (n - 1) as nat);
    }
}

/// More hops in a row than there are nodes go round in a circle.
pub proof fn lemma_hops_circle(nodes: Map<Felt, NodeView>, at: Felt, n: nat)
    requires
        nodes.dom().finite(),
        hop(nodes, at, nodes.len() + 1) is Some,
    ensures
        hop(nodes, at, n) is Some,
    decreases n,
{
    let count = nodes.len();
    let visited = Seq::new(count + 1, |i: int| hop(nodes, at, i as nat)->0);
    assert forall|i: nat| i <= count + 1 implies #[trigger] hop(nodes, at, i) is Some by {
        if hop(nodes, at, i) is None {
            lemma_hops_end(nodes, at, i, count + 1);
        }
    }
    assert forall|hash: Felt| #[trigger]
        visited.to_set().contains(hash) implies nodes.dom().contains(hash) by {
        let i = choose|i: int| 0 <= i < visited.len() && visited[i] == hash;
        assert(hop(nodes, at, (i + 1) as nat) is Some);
    }
    if visited.no_duplicates() {
        visited.unique_seq_to_set();
        vstd::set_lib::lemma_len_subset(visited.to_set(), nodes.dom());
    }
    let (i, j) = choose|i: int, j: int|
        0 <= i < visited.len() && 0 <= j < visited.len() && i != j && visited[i] == visited[j];
    let (i, j) = if i < j {
        (i as nat, j as nat)
    } else {
        (j as nat, i as nat)
    };
    assert(hop(nodes, at, i) is Some && hop(nodes, at, j) is Some);
    if n > count {
        lemma_hops_meet(nodes, at, i, j, (n - j) as nat);
        lemma_hops_circle(nodes, at, (i + (n - j)) as nat);
    } else {
        assert(hop(nodes, at, n) is Some);
    }
}

/// After the last hop there are no more.
pub proof fn lemma_hops_end(nodes: Map<Felt, NodeView>, at: Felt, i: nat, n: nat)
    requires
        i <= n,
        hop(nodes, at, i) is None,
    ensures
        hop(nodes, at, n) is None,
    decreases n,
{
    if i < n {
        lemma_hops_end(nodes, at, i, (n - 1) as nat);
    }
}

/// Hops after the first one are hops from where it leads.
pub proof fn lemma_hop_first(nodes: Map<Felt, NodeView>, at: Felt, n: nat)
    requires
        hop(nodes, at, 1) is Some,
    ensures
        hop(nodes, hop(nodes, at, 1)->0, n) == hop(nodes, at, n + 1),
    decreases n,
{
    if n > 0 {
        lemma_hop_first(nodes, at, (n - 1) as nat);
    }
}

/// After exactly `n` edges without bits there is a node of another kind.
pub open spec fn lands_after(nodes: Map<Felt, NodeView>, at: Felt, n: nat) -> bool {
    &&& hop(nodes, at, n) matches Some(hash) && nodes.contains_key(hash)
    &&& hop(nodes, at, n + 1) is None
}

/// The edges without bits, if there are any, lead to a node of another kind. They do not if they
/// lead in a circle, or to a hash without a node.
pub open spec fn lands(nodes: Map<Felt, NodeView>, at: Felt) -> bool {
    exists|n: nat| lands_after(nodes, at, n)
}

/// The number of edges without bits in a row that lead to a node of another kind.
pub open spec fn hops(nodes: Map<Felt, NodeView>, at: Felt) -> nat {
    if lands(nodes, at) {
        choose|n: nat| lands_after(nodes, at, n)
    } else {
        0
    }
}

/// The number of edges without bits is the one after which there is a node of another kind.
pub proof fn lemma_hops_unique(nodes: Map<Felt, NodeView>, at: Felt, n: nat)
    requires
        lands_after(nodes, at, n),
    ensures
        lands(nodes, at),
        hops(nodes, at) == n,
{
    let m = hops(nodes, at);
    assert(lands_after(nodes, at, m));
    if m < n {
        lemma_hops_end(nodes, at, m + 1, n);
    } else if n < m {
        lemma_hops_end(nodes, at, n + 1, m);
    }
}

/// An edge without bits leads to where its child leads, in one step more.
pub proof fn lemma_hops_step(nodes: Map<Felt, NodeView>, at: Felt)
    requires
        hop(nodes, at, 1) is Some,
    ensures
        lands(nodes, at) <==> lands(nodes, hop(nodes, at, 1)->0),
        lands(nodes, at) ==> hops(nodes, at) == hops(nodes, hop(nodes, at, 1)->0) + 1,
{
    let child = hop(nodes, at, 1)->0;
    if lands(nodes, at) {
        let n = hops(nodes, at);
        assert(lands_after(nodes, at, n));
        assert(n > 0);
        lemma_hop_first(nodes, at, (n - 1) as nat);
        lemma_hop_first(nodes, at, n);
        lemma_hops_unique(nodes, child, (n - 1) as nat);
    }
    if lands(nodes, child) {
        let n = hops(nodes, child);
        assert(lands_after(nodes, child, n));
        lemma_hop_first(nodes, at, n);
        lemma_hop_first(nodes, at, n + 1);
        lemma_hops_unique(nodes, at, n + 1);
    }
}

} // verus!
