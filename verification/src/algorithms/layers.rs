//! What the record of a breadth-first exploration says about walks: the
//! nodes it has seen can be reached, each in as many steps as the record
//! takes from parent to parent and in no fewer; and once the exploration is
//! finished, no other node can be reached.

use vstd::prelude::*;
use crate::algorithms::discovery::{explored, exploring, Discovery};
use crate::algorithms::paths::{
    distance, has_walk, is_walk, lemma_distance, lemma_walk_push, reachable, walk_between,
    walk_step,
};
use crate::model::{lemma_neighbor_below_node_count, lemma_out_neighbors_contains, out_neighbors};
use crate::traits::{Edge, Node};

verus! {

/// The place of a node in a record that holds it.
pub proof fn lemma_index_of(d: Discovery, start: Node, i: int)
    requires
        d.well_shaped(start),
        0 <= i < d.len(),
    ensures
        d.order.contains(d.order[i]),
        d.order.index_of(d.order[i]) == i,
{
    assert(d.order.contains(d.order[i]));
    let at = d.order.index_of(d.order[i]);
    assert(d.order[at] == d.order[i]);
}

/// A node is seen from one that was seen before it, over an edge.
pub proof fn lemma_parent_edge(
    es: Seq<Edge>,
    start: Node,
    d: Discovery,
    head: int,
    seen: int,
    i: int,
)
    requires
        exploring(es, start, d, head, seen),
        1 <= i < d.len(),
    ensures
        0 <= d.parent[i] < i,
        es.contains(Edge(d.order[d.parent[i]], d.order[i])),
        d.depth(i) == d.depth(d.parent[i]) + 1,
{
    assert(d.seen_at(es, i));
    lemma_neighbor_below_node_count(es, d.order[d.parent[i]], d.slot[i]);
}

/// Later in the record means no less deep.
pub proof fn lemma_depth_monotone(
    es: Seq<Edge>,
    start: Node,
    d: Discovery,
    head: int,
    seen: int,
    i: int,
    j: int,
)
    requires
        exploring(es, start, d, head, seen),
        0 <= i <= j < d.len(),
    ensures
        d.depth(i) <= d.depth(j),
    decreases j,
{
    if 1 <= i && i < j {
        assert(d.seen_at(es, i));
        assert(d.seen_at(es, j));
        assert(d.seen_before(i, d.parent[j], d.slot[j]));
        lemma_depth_monotone(es, start, d, head, seen, d.parent[i], d.parent[j]);
    }
}

/// A node that is a neighbor of a node in the record, and is in the record
/// itself, is at most one step deeper.
pub proof fn lemma_neighbor_depth(
    es: Seq<Edge>,
    start: Node,
    d: Discovery,
    head: int,
    seen: int,
    k: int,
    i: int,
)
    requires
        exploring(es, start, d, head, seen),
        0 <= k < d.len(),
        0 <= i < d.len(),
        es.contains(Edge(d.order[k], d.order[i])),
    ensures
        d.depth(i) <= d.depth(k) + 1,
{
    if i >= 1 {
        assert(d.seen_at(es, i));
        lemma_out_neighbors_contains(es, d.order[k], d.order[i]);
        assert(d.parent[i] <= k);
        lemma_depth_monotone(es, start, d, head, seen, d.parent[i], k);
    }
}

/// From the start to every node in the record there is a walk along the
/// parents, of as many steps as the node is deep.
pub proof fn lemma_depth_walk(
    es: Seq<Edge>,
    start: Node,
    d: Discovery,
    head: int,
    seen: int,
    i: int,
) -> (p: Seq<Node>)
    requires
        exploring(es, start, d, head, seen),
        0 <= i < d.len(),
    ensures
        walk_between(es, p, start, d.order[i]),
        p.len() == d.depth(i) + 1,
        has_walk(es, start, d.order[i], d.depth(i)),
    decreases i,
{
    if i == 0 {
        let p = seq![start];
        assert(walk_between(es, p, start, d.order[i]));
        p
    } else {
        lemma_parent_edge(es, start, d, head, seen, i);
        let before = lemma_depth_walk(es, start, d, head, seen, d.parent[i]);
        lemma_walk_push(es, before, d.order[i]);
        let p = before.push(d.order[i]);
        assert(walk_between(es, p, start, d.order[i]));
        p
    }
}

/// Along a walk from the start, the first node whose neighbors have not all
/// been looked at: it is in the record, no deeper than it is far along the
/// walk. If there is no such node up to position `r`, this holds of the
/// node at `r`.
pub proof fn lemma_walk_front(
    es: Seq<Edge>,
    start: Node,
    d: Discovery,
    head: int,
    seen: int,
    p: Seq<Node>,
    r: int,
) -> (t: int)
    requires
        exploring(es, start, d, head, seen),
        is_walk(es, p),
        p[0] == start,
        0 <= r < p.len(),
    ensures
        0 <= t <= r,
        d.order.contains(p[t]),
        d.depth(d.order.index_of(p[t])) <= t,
        t < r ==> d.order.index_of(p[t]) >= head,
    decreases r,
{
    if r == 0 {
        lemma_index_of(d, start, 0);
        0
    } else {
        let t = lemma_walk_front(es, start, d, head, seen, p, r - 1);
        let k = d.order.index_of(p[t]);
        assert(d.order[k] == p[t]);
        if t < r - 1 || k >= head {
            t
        } else {
            assert(walk_step(es, p, r - 1));
            lemma_out_neighbors_contains(es, p[r - 1], p[r]);
            let ns = out_neighbors(es, d.order[k]);
            let b = choose|b: int| 0 <= b < ns.len() && ns[b] == p[r];
            assert(d.covers(es, k, ns.len() as int));
            assert(d.order.contains(out_neighbors(es, d.order[k])[b]));
            let i = d.order.index_of(p[r]);
            assert(d.order[i] == p[r]);
            lemma_neighbor_depth(es, start, d, head, seen, k, i);
            r
        }
    }
}

/// No walk from the start to a node in the record has fewer steps than the
/// node is deep.
pub proof fn lemma_walks_no_shorter(
    es: Seq<Edge>,
    start: Node,
    d: Discovery,
    head: int,
    seen: int,
    i: int,
    p: Seq<Node>,
)
    requires
        exploring(es, start, d, head, seen),
        0 <= i < d.len(),
        walk_between(es, p, start, d.order[i]),
    ensures
        d.depth(i) <= p.len() - 1,
{
    let last = p.len() - 1;
    let t = lemma_walk_front(es, start, d, head, seen, p, last);
    let k = d.order.index_of(p[t]);
    assert(d.order[k] == p[t]);
    lemma_index_of(d, start, i);
    if t < last && i >= 1 {
        assert(d.seen_before(i, head, seen));
        lemma_parent_edge(es, start, d, head, seen, i);
        lemma_depth_monotone(es, start, d, head, seen, d.parent[i], head);
        lemma_depth_monotone(es, start, d, head, seen, head, k);
    }
}

/// The depth of a node in the record is its distance from the start.
pub proof fn lemma_depth_is_distance(
    es: Seq<Edge>,
    start: Node,
    d: Discovery,
    head: int,
    seen: int,
    i: int,
)
    requires
        exploring(es, start, d, head, seen),
        0 <= i < d.len(),
    ensures
        reachable(es, start, d.order[i]),
        distance(es, start, d.order[i]) == d.depth(i),
{
    let p = lemma_depth_walk(es, start, d, head, seen, i);
    assert forall|fewer: nat| fewer < d.depth(i) implies !has_walk(es, start, d.order[i], fewer) by {
        if has_walk(es, start, d.order[i], fewer) {
            let q = choose|q: Seq<Node>| #[trigger]
                walk_between(es, q, start, d.order[i]) && q.len() == fewer + 1;
            lemma_walks_no_shorter(es, start, d, head, seen, i, q);
        }
    }
    lemma_distance(es, start, d.order[i], d.depth(i));
}

/// A finished exploration has seen exactly the nodes that can be reached
/// from its start.
pub proof fn lemma_explored_reaches(es: Seq<Edge>, start: Node, d: Discovery, v: Node)
    requires
        explored(es, start, d),
    ensures
        d.order.contains(v) <==> reachable(es, start, v),
{
    if d.order.contains(v) {
        let i = d.order.index_of(v);
        assert(d.order[i] == v);
        lemma_depth_is_distance(es, start, d, d.len(), 0, i);
    }
    if reachable(es, start, v) {
        let steps = choose|steps: nat| has_walk(es, start, v, steps);
        let p = choose|p: Seq<Node>| #[trigger] walk_between(es, p, start, v) && p.len() == steps + 1;
        let t = lemma_walk_front(es, start, d, d.len(), 0, p, p.len() - 1);
        let k = d.order.index_of(p[t]);
        assert(d.order[k] == p[t]);
    }
}

/// Two finished explorations of the same edges from the same start agree
/// on their first `upto` nodes and on where each of them was seen.
proof fn lemma_explored_agree(es: Seq<Edge>, start: Node, d1: Discovery, d2: Discovery, upto: int)
    requires
        explored(es, start, d1),
        explored(es, start, d2),
        0 <= upto <= d1.len(),
    ensures
        upto <= d2.len(),
        forall|k: int|
            0 <= k < upto ==> d1.order[k] == d2.order[k] && d1.parent[k] == d2.parent[k]
                && d1.slot[k] == d2.slot[k],
    decreases upto,
{
    if upto >= 2 {
        lemma_explored_agree(es, start, d1, d2, upto - 1);
        let m = upto - 1;
        let (m2, a) = lemma_seen_elsewhere(es, start, d1, d2, m);
        let (m1, b) = lemma_seen_elsewhere(es, start, d2, d1, m);
        assert(d1.seen_at(es, m));
        assert(d2.seen_at(es, m));
        assert(d1.seen_at(es, m1));
        assert(d2.seen_at(es, m2));
        if m2 > m {
            // Then the two records hold two nodes in opposite orders.
            assert(m1 > m) by {
                if m1 == m {
                    assert(d2.order[m2] == d2.order[m]);
                }
            }
            assert(d1.seen_before(m, d1.parent[m1], d1.slot[m1]));
            assert(d2.seen_before(m, d2.parent[m2], d2.slot[m2]));
            assert(false);
        }
    } else if upto == 1 {
    }
}

/// The node at `m` of one finished exploration, in another that agrees with
/// it before `m`: it stands at `m` or later, and was seen from the same
/// place.
proof fn lemma_seen_elsewhere(es: Seq<Edge>, start: Node, d1: Discovery, d2: Discovery, m: int) -> (r:
    (int, int))
    requires
        explored(es, start, d1),
        explored(es, start, d2),
        1 <= m < d1.len(),
        m <= d2.len(),
        forall|k: int|
            0 <= k < m ==> d1.order[k] == d2.order[k] && d1.parent[k] == d2.parent[k] && d1.slot[k]
                == d2.slot[k],
    ensures
        m <= r.0 < d2.len(),
        d2.order[r.0] == d1.order[m],
        d2.parent[r.0] == d1.parent[m] == r.1,
        d2.slot[r.0] == d1.slot[m],
{
    let x = d1.order[m];
    assert(d1.seen_at(es, m));
    let a = d1.parent[m];
    let ns = out_neighbors(es, d1.order[a]);
    // The other exploration looked at all neighbors of the node at `a`.
    assert(d2.covers(es, a, out_neighbors(es, d2.order[a]).len() as int));
    assert(d2.order.contains(out_neighbors(es, d2.order[a])[d1.slot[m]]));
    let m2 = d2.order.index_of(x);
    assert(d2.order[m2] == x);
    if m2 < m {
        assert(d1.order[m2] == x);
    }
    assert(d2.seen_at(es, m2));
    let a2 = d2.parent[m2];
    assert(ns.contains(x));
    if a2 < a {
        assert(out_neighbors(es, d1.order[a2]).contains(x));
    }
    if a < a2 {
        assert(!out_neighbors(es, d2.order[a]).contains(x));
    }
    (m2, a)
}

/// A finished breadth-first exploration is determined by the edges and the
/// start.
pub proof fn lemma_explored_unique(es: Seq<Edge>, start: Node, d1: Discovery, d2: Discovery)
    requires
        explored(es, start, d1),
        explored(es, start, d2),
    ensures
        d1 == d2,
{
    lemma_explored_agree(es, start, d1, d2, d1.len());
    lemma_explored_agree(es, start, d2, d1, d2.len());
    assert(d1.order =~= d2.order);
    assert(d1.parent =~= d2.parent);
    assert(d1.slot =~= d2.slot);
}

} // verus!
