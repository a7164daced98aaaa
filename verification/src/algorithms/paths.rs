//! Walks along edges, and what they say about two nodes: whether one can be
//! reached from the other, and in how many steps at least.

use vstd::prelude::*;
use crate::traits::{Edge, Node};

verus! {

/// There is an edge from entry `i` of `p` to the next entry.
pub open spec fn walk_step(es: Seq<Edge>, p: Seq<Node>, i: int) -> bool {
    es.contains(Edge(p[i], p[i + 1]))
}

/// `p` names at least one node, and from each to the next there is an edge.
pub open spec fn is_walk(es: Seq<Edge>, p: Seq<Node>) -> bool {
    &&& p.len() >= 1
    &&& forall|i: int| 0 <= i < p.len() - 1 ==> #[trigger] walk_step(es, p, i)
}

/// `p` is a walk that begins at `from` and ends at `to`.
pub open spec fn walk_between(es: Seq<Edge>, p: Seq<Node>, from: Node, to: Node) -> bool {
    &&& is_walk(es, p)
    &&& p[0] == from
    &&& p[p.len() - 1] == to
}

/// Some walk of exactly `steps` edges leads from `from` to `to`.
pub open spec fn has_walk(es: Seq<Edge>, from: Node, to: Node, steps: nat) -> bool {
    exists|p: Seq<Node>| #[trigger] walk_between(es, p, from, to) && p.len() == steps + 1
}

/// Some walk leads from `from` to `to`. Every node reaches itself.
pub open spec fn reachable(es: Seq<Edge>, from: Node, to: Node) -> bool {
    exists|steps: nat| has_walk(es, from, to, steps)
}

/// The number of edges of a shortest walk from `from` to `to`. It means
/// nothing where `to` cannot be reached.
#[verifier::opaque]
pub open spec fn distance(es: Seq<Edge>, from: Node, to: Node) -> nat {
    choose|steps: nat|
        has_walk(es, from, to, steps) && forall|fewer: nat|
            fewer < steps ==> !has_walk(es, from, to, fewer)
}

/// A walk of `steps` edges, where none of fewer exists, gives the distance.
pub proof fn lemma_distance(es: Seq<Edge>, from: Node, to: Node, steps: nat)
    requires
        has_walk(es, from, to, steps),
        forall|fewer: nat| fewer < steps ==> !has_walk(es, from, to, fewer),
    ensures
        distance(es, from, to) == steps,
        reachable(es, from, to),
{
    reveal(distance);
    let found = distance(es, from, to);
    assert(has_walk(es, from, to, found) && forall|fewer: nat|
        fewer < found ==> !has_walk(es, from, to, fewer));
    if found < steps {
        assert(!has_walk(es, from, to, found));
    }
    if steps < found {
        assert(!has_walk(es, from, to, steps));
    }
}

/// A walk that is made one edge longer is a walk.
pub proof fn lemma_walk_push(es: Seq<Edge>, p: Seq<Node>, w: Node)
    requires
        is_walk(es, p),
        es.contains(Edge(p[p.len() - 1], w)),
    ensures
        is_walk(es, p.push(w)),
{
    let q = p.push(w);
    assert forall|i: int| 0 <= i < q.len() - 1 implies #[trigger] walk_step(es, q, i) by {
        if i < p.len() - 1 {
            assert(walk_step(es, p, i));
        }
    }
}

} // verus!
