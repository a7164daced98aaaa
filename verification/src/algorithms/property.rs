//! Two properties decided by one breadth-first exploration from node 0.
//! Both look only at what can be reached from node 0.

use std::collections::VecDeque;
use vstd::prelude::*;
use crate::algorithms::discovery::{
    explored, exploring, lemma_distinct_below, lemma_explore_find, lemma_explore_next,
    lemma_explore_skip, lemma_explore_start, queue_holds, Discovery,
};
use crate::algorithms::layers::{lemma_depth_is_distance, lemma_explored_reaches};
use crate::algorithms::paths::{distance, reachable};
use crate::model::{
    lemma_neighbor_below_node_count, lemma_out_neighbors_contains, node_count, out_neighbors,
};
use crate::traits::{Edge, Node, StaticGraph};

verus! {

/// Every edge that leaves a node within reach of `start` leads from an even
/// distance to an odd one or from an odd distance to an even one.
pub open spec fn layers_alternate(es: Seq<Edge>, start: Node) -> bool {
    forall|e: Edge| #[trigger]
        es.contains(e) && reachable(es, start, e.0) ==> distance(es, start, e.0) % 2 != distance(
            es,
            start,
            e.1,
        ) % 2
}

/// Entry `j` among the neighbors of `v` is `target`, and `v` is within
/// reach of `start`.
pub open spec fn leads_to(es: Seq<Edge>, start: Node, v: Node, j: int, target: Node) -> bool {
    &&& reachable(es, start, v)
    &&& 0 <= j < out_neighbors(es, v).len()
    &&& out_neighbors(es, v)[j] == target
}

/// An exploration from `start` would meet `target` a second time: an edge
/// from within reach leads to it and it is the start, or two different such
/// edges lead to it.
pub open spec fn met_again(es: Seq<Edge>, start: Node, target: Node) -> bool {
    exists|v: Node, j: int, v2: Node, j2: int|
        #![trigger leads_to(es, start, v, j, target), leads_to(es, start, v2, j2, target)]
        leads_to(es, start, v, j, target) && (target == start || (leads_to(
            es,
            start,
            v2,
            j2,
            target,
        ) && (v != v2 || j != j2)))
}

/// An exploration from `start` would meet some node a second time.
pub open spec fn revisits(es: Seq<Edge>, start: Node) -> bool {
    exists|target: Node| met_again(es, start, target)
}

/// `visited` marks exactly the nodes of the record.
spec fn marks(visited: Seq<bool>, d: Discovery) -> bool {
    forall|v: int| 0 <= v < visited.len() ==> (#[trigger] visited[v] <==> d.order.contains(v as Node))
}

/// Every node of the record has a color: `true` at even depth, `false` at
/// odd depth.
spec fn colored_by_depth(color: Seq<Option<bool>>, d: Discovery) -> bool {
    forall|i: int|
        0 <= i < d.len() ==> color[(#[trigger] d.order[i]) as int] == Some(d.depth(i) % 2 == 0)
}

/// `w` is in the record, at a depth of the other parity than the node at `k`.
spec fn other_parity(d: Discovery, k: int, w: Node) -> bool {
    exists|i: int| 0 <= i < d.len() && #[trigger] d.order[i] == w && d.depth(i) % 2 != d.depth(k) % 2
}

/// The first `upto` neighbors of the node at `k` are of the other parity.
spec fn alternates(es: Seq<Edge>, d: Discovery, k: int, upto: int) -> bool {
    forall|b: int|
        0 <= b < upto ==> other_parity(d, k, #[trigger] out_neighbors(es, d.order[k])[b])
}

/// All neighbors of the first `head` nodes are of the other parity.
spec fn alternates_upto(es: Seq<Edge>, d: Discovery, head: int) -> bool {
    forall|k: int|
        0 <= k < head ==> #[trigger] alternates(es, d, k, out_neighbors(es, d.order[k]).len() as int)
}

/// A record that grows keeps the depths it has.
proof fn lemma_depth_found(d: Discovery, w: Node, parent: int, slot: int, i: int)
    requires
        d.parent.len() == d.order.len(),
        0 <= i < d.len(),
    ensures
        d.found(w, parent, slot).depth(i) == d.depth(i),
    decreases i,
{
    let e = d.found(w, parent, slot);
    assert(e.parent[i] == d.parent[i]);
    if i > 0 && 0 <= d.parent[i] < i {
        lemma_depth_found(d, w, parent, slot, d.parent[i]);
    }
}

/// Seeing a new node from the node at `head` keeps every parity found so
/// far, and the new node is of the other parity than the node at `head`.
proof fn lemma_alternates_found(
    es: Seq<Edge>,
    start: Node,
    d: Discovery,
    head: int,
    seen: int,
    color: Seq<Option<bool>>,
)
    requires
        exploring(es, start, d, head, seen),
        head < d.len(),
        seen < out_neighbors(es, d.order[head]).len(),
        !d.order.contains(out_neighbors(es, d.order[head])[seen]),
        alternates_upto(es, d, head),
        alternates(es, d, head, seen),
        colored_by_depth(color, d),
        forall|i: int| 0 <= i < d.len() ==> d.order[i] < color.len(),
        out_neighbors(es, d.order[head])[seen] < color.len(),
    ensures
        ({
            let w = out_neighbors(es, d.order[head])[seen];
            let e = d.found(w, head, seen);
            &&& alternates_upto(es, e, head)
            &&& alternates(es, e, head, seen + 1)
            &&& colored_by_depth(color.update(w as int, Some(!(d.depth(head) % 2 == 0))), e)
        }),
{
    let w = out_neighbors(es, d.order[head])[seen];
    let e = d.found(w, head, seen);
    let last = d.len();
    assert forall|i: int| 0 <= i < last implies e.depth(i) == d.depth(i) && e.order[i]
        == d.order[i] by {
        lemma_depth_found(d, w, head, seen, i);
    }
    assert(e.depth(last) == d.depth(head) + 1) by {
        assert(e.parent[last] == head);
    }
    assert forall|k: int, x: Node| 0 <= k < last && other_parity(d, k, x) implies other_parity(
        e,
        k,
        x,
    ) by {
        let i = choose|i: int|
            0 <= i < d.len() && #[trigger] d.order[i] == x && d.depth(i) % 2 != d.depth(k) % 2;
        assert(e.order[i] == x);
    }
    assert forall|k: int| 0 <= k < head implies #[trigger] alternates(
        es,
        e,
        k,
        out_neighbors(es, e.order[k]).len() as int,
    ) by {
        assert(alternates(es, d, k, out_neighbors(es, d.order[k]).len() as int));
    }
    assert forall|b: int| 0 <= b < seen + 1 implies other_parity(
        e,
        head,
        #[trigger] out_neighbors(es, e.order[head])[b],
    ) by {
        if b == seen {
            assert(e.order[last] == w);
        }
    }
    let color2 = color.update(w as int, Some(!(d.depth(head) % 2 == 0)));
    assert forall|i: int| 0 <= i < e.len() implies color2[(#[trigger] e.order[i]) as int] == Some(
        e.depth(i) % 2 == 0,
    ) by {
        if i < last {
            assert(d.order.contains(d.order[i]));
        }
    }
}

/// A neighbor that is in the record with the other color is of the other
/// parity.
proof fn lemma_alternates_skip(
    es: Seq<Edge>,
    start: Node,
    d: Discovery,
    head: int,
    seen: int,
    color: Seq<Option<bool>>,
)
    requires
        exploring(es, start, d, head, seen),
        head < d.len(),
        seen < out_neighbors(es, d.order[head]).len(),
        d.order.contains(out_neighbors(es, d.order[head])[seen]),
        alternates(es, d, head, seen),
        colored_by_depth(color, d),
        color[d.order[head] as int] != color[out_neighbors(es, d.order[head])[seen] as int],
    ensures
        alternates(es, d, head, seen + 1),
{
    let w = out_neighbors(es, d.order[head])[seen];
    let i = d.order.index_of(w);
    assert(d.order[i] == w);
    assert(color[d.order[head] as int] == Some(d.depth(head) % 2 == 0));
}

/// Two nodes of the record with the same color, joined by an edge: the
/// layers do not alternate.
proof fn lemma_same_color(
    es: Seq<Edge>,
    start: Node,
    d: Discovery,
    head: int,
    seen: int,
    color: Seq<Option<bool>>,
)
    requires
        exploring(es, start, d, head, seen),
        head < d.len(),
        seen < out_neighbors(es, d.order[head]).len(),
        d.order.contains(out_neighbors(es, d.order[head])[seen]),
        colored_by_depth(color, d),
        color[d.order[head] as int] == color[out_neighbors(es, d.order[head])[seen] as int],
    ensures
        !layers_alternate(es, start),
{
    let v = d.order[head];
    let w = out_neighbors(es, v)[seen];
    let i = d.order.index_of(w);
    assert(d.order[i] == w);
    assert(color[d.order[head] as int] == Some(d.depth(head) % 2 == 0));
    lemma_depth_is_distance(es, start, d, head, seen, head);
    lemma_depth_is_distance(es, start, d, head, seen, i);
    lemma_neighbor_below_node_count(es, v, seen);
    assert(es.contains(Edge(v, w)));
}

/// When the exploration is finished and every neighbor was of the other
/// parity, the layers alternate.
proof fn lemma_alternates_done(es: Seq<Edge>, start: Node, d: Discovery)
    requires
        explored(es, start, d),
        alternates_upto(es, d, d.len()),
    ensures
        layers_alternate(es, start),
{
    assert forall|e: Edge| #[trigger] es.contains(e) && reachable(es, start, e.0) implies distance(
        es,
        start,
        e.0,
    ) % 2 != distance(es, start, e.1) % 2 by {
        lemma_explored_reaches(es, start, d, e.0);
        let k = d.order.index_of(e.0);
        assert(d.order[k] == e.0);
        lemma_out_neighbors_contains(es, e.0, e.1);
        let ns = out_neighbors(es, d.order[k]);
        let b = choose|b: int| 0 <= b < ns.len() && ns[b] == e.1;
        assert(alternates(es, d, k, ns.len() as int));
        assert(other_parity(d, k, out_neighbors(es, d.order[k])[b]));
        let i = choose|i: int|
            0 <= i < d.len() && #[trigger] d.order[i] == e.1 && d.depth(i) % 2 != d.depth(k) % 2;
        lemma_depth_is_distance(es, start, d, d.len(), 0, k);
        lemma_depth_is_distance(es, start, d, d.len(), 0, i);
    }
}

/// Whether the part of `graph` within reach of node 0 falls into two
/// classes such that every edge leads from one class to the other. The
/// classes are the nodes at even and at odd distance from node 0. A graph
/// of at most one node counts as bipartite, whatever its edges.
///
/// What node 0 does not reach is not looked at: an odd cycle there goes
/// unnoticed.
pub fn is_bipartite<T: StaticGraph>(graph: &T) -> (bipartite: bool)
    requires
        graph.well_formed(),
    ensures
        bipartite == (node_count(graph@) <= 1 || layers_alternate(graph@, 0)),
{
    let n = graph.num_nodes();
    if n <= 1 {
        return true;
    }
    let mut q: VecDeque<Node> = VecDeque::new();

    let mut color: Vec<Option<bool>> = vec![None; n];
    let mut visited: Vec<bool> = vec![false; n];

    visited[0] = true;
    color[0] = Some(true);

    q.push_front(0);

    let ghost es = graph@;
    let ghost mut d = Discovery::at_start(0);
    let ghost mut head: int = 0;
    proof {
        lemma_explore_start(es, 0);
        lemma_marks_start(visited@);
    }

    while q.len() > 0
        invariant
            graph.well_formed(),
            es == graph@,
            n == node_count(es),
            n > 1,
            visited.len() == n,
            color.len() == n,
            exploring(es, 0, d, head, 0),
            queue_holds(q@, d, head),
            forall|i: int| 0 <= i < d.len() ==> d.order[i] < n,
            marks(visited@, d),
            colored_by_depth(color@, d),
            alternates_upto(es, d, head),
        decreases n - head,
    {
        let v = q.pop_back().unwrap();
        let ns = graph.neighbors(v);
        proof {
            lemma_distinct_below(d.order, n as nat);
        }
        let mut j: usize = 0;
        while j < ns.len()
            invariant
                es == graph@,
                n == node_count(es),
                n > 1,
                visited.len() == n,
                color.len() == n,
                0 <= j <= ns.len(),
                0 <= head < d.len(),
                v == d.order[head],
                ns@ == out_neighbors(es, v),
                exploring(es, 0, d, head, j as int),
                queue_holds(q@, d, head + 1),
                forall|i: int| 0 <= i < d.len() ==> d.order[i] < n,
                marks(visited@, d),
                colored_by_depth(color@, d),
                alternates_upto(es, d, head),
                alternates(es, d, head, j as int),
            decreases ns.len() - j,
        {
            let u = ns[j];
            proof {
                lemma_neighbor_below_node_count(es, v, j as int);
                assert(color@[d.order[head] as int] == Some(d.depth(head) % 2 == 0));
            }
            if !visited[u] {
                proof {
                    lemma_explore_find(es, 0, d, head, j as int);
                    lemma_alternates_found(es, 0, d, head, j as int, color@);
                    lemma_marks_found(visited@, d, u, head, j as int);
                    d = d.found(u, head, j as int);
                }
                color[u] = Some(!color[v].unwrap());
                visited[u] = true;
                q.push_front(u);
            } else {
                if color[v] == color[u] {
                    proof {
                        lemma_same_color(es, 0, d, head, j as int, color@);
                    }
                    return false;
                }
                proof {
                    lemma_explore_skip(es, 0, d, head, j as int);
                    lemma_alternates_skip(es, 0, d, head, j as int, color@);
                }
            }
            j += 1;
        }
        proof {
            lemma_explore_next(es, 0, d, head, j as int);
            head = head + 1;
        }
    }

    proof {
        assert(head == d.len());
        lemma_alternates_done(es, 0, d);
    }
    true
}

/// The node at `m` was seen as neighbor `b` of the node at `k`.
spec fn seen_from(d: Discovery, m: int, k: int, b: int) -> bool {
    1 <= m < d.len() && d.parent[m] == k && d.slot[m] == b
}

/// Looking at neighbor `b` of the node at `k` found a node not seen before.
spec fn was_new(d: Discovery, k: int, b: int) -> bool {
    exists|m: int| #[trigger] seen_from(d, m, k, b)
}

/// Each of the first `upto` neighbors of the node at `k` was a node not
/// seen before.
spec fn all_new(d: Discovery, k: int, upto: int) -> bool {
    forall|b: int| 0 <= b < upto ==> #[trigger] was_new(d, k, b)
}

/// Every neighbor of the first `head` nodes was a node not seen before.
spec fn all_new_upto(es: Seq<Edge>, d: Discovery, head: int) -> bool {
    forall|k: int|
        0 <= k < head ==> #[trigger] all_new(d, k, out_neighbors(es, d.order[k]).len() as int)
}

/// Seeing one more new node keeps what was new.
proof fn lemma_all_new_found(
    es: Seq<Edge>,
    start: Node,
    d: Discovery,
    head: int,
    seen: int,
)
    requires
        exploring(es, start, d, head, seen),
        head < d.len(),
        seen < out_neighbors(es, d.order[head]).len(),
        all_new_upto(es, d, head),
        all_new(d, head, seen),
    ensures
        ({
            let e = d.found(out_neighbors(es, d.order[head])[seen], head, seen);
            &&& all_new_upto(es, e, head)
            &&& all_new(e, head, seen + 1)
        }),
{
    let e = d.found(out_neighbors(es, d.order[head])[seen], head, seen);
    let last = d.len();
    assert forall|k: int, b: int| was_new(d, k, b) implies was_new(e, k, b) by {
        let m = choose|m: int| #[trigger] seen_from(d, m, k, b);
        assert(seen_from(e, m, k, b));
    }
    assert forall|k: int| 0 <= k < head implies #[trigger] all_new(
        e,
        k,
        out_neighbors(es, e.order[k]).len() as int,
    ) by {
        assert(all_new(d, k, out_neighbors(es, d.order[k]).len() as int));
    }
    assert forall|b: int| 0 <= b < seen + 1 implies #[trigger] was_new(e, head, b) by {
        if b == seen {
            assert(seen_from(e, last, head, seen));
        } else {
            assert(was_new(d, head, b));
        }
    }
}

/// A neighbor that is in the record already is met again.
proof fn lemma_seen_twice(es: Seq<Edge>, start: Node, d: Discovery, head: int, seen: int)
    requires
        exploring(es, start, d, head, seen),
        head < d.len(),
        seen < out_neighbors(es, d.order[head]).len(),
        d.order.contains(out_neighbors(es, d.order[head])[seen]),
    ensures
        revisits(es, start),
{
    let v = d.order[head];
    let u = out_neighbors(es, v)[seen];
    let m = d.order.index_of(u);
    assert(d.order[m] == u);
    lemma_depth_is_distance(es, start, d, head, seen, head);
    assert(leads_to(es, start, v, seen, u));
    if m == 0 {
        assert(met_again(es, start, u));
    } else {
        assert(d.seen_at(es, m));
        assert(d.seen_before(m, head, seen));
        let a = d.parent[m];
        lemma_depth_is_distance(es, start, d, head, seen, a);
        assert(leads_to(es, start, d.order[a], d.slot[m], u));
        if a == head {
            assert(d.slot[m] != seen);
        } else {
            assert(d.order[a] != d.order[head]);
        }
        assert(met_again(es, start, u));
    }
}

/// In a finished exploration in which every neighbor was a new node, an
/// edge from within reach leads to the node that was seen through it.
proof fn lemma_lead_is_sighting(
    es: Seq<Edge>,
    start: Node,
    d: Discovery,
    v: Node,
    j: int,
    target: Node,
) -> (m: int)
    requires
        explored(es, start, d),
        all_new_upto(es, d, d.len()),
        leads_to(es, start, v, j, target),
    ensures
        1 <= m < d.len(),
        d.order[m] == target,
        0 <= d.parent[m] < m,
        d.order[d.parent[m]] == v,
        d.slot[m] == j,
{
    lemma_explored_reaches(es, start, d, v);
    let k = d.order.index_of(v);
    assert(d.order[k] == v);
    assert(all_new(d, k, out_neighbors(es, d.order[k]).len() as int));
    assert(was_new(d, k, j));
    let m = choose|m: int| #[trigger] seen_from(d, m, k, j);
    assert(d.seen_at(es, m));
    m
}

/// A finished exploration in which every neighbor was a new node has met
/// no node a second time.
proof fn lemma_never_twice(es: Seq<Edge>, start: Node, d: Discovery)
    requires
        explored(es, start, d),
        all_new_upto(es, d, d.len()),
    ensures
        !revisits(es, start),
{
    if revisits(es, start) {
        let target = choose|target: Node| met_again(es, start, target);
        let (v, j, v2, j2) = choose|v: Node, j: int, v2: Node, j2: int|
            #![trigger leads_to(es, start, v, j, target), leads_to(es, start, v2, j2, target)]
            leads_to(es, start, v, j, target) && (target == start || (leads_to(
                es,
                start,
                v2,
                j2,
                target,
            ) && (v != v2 || j != j2)));
        let m = lemma_lead_is_sighting(es, start, d, v, j, target);
        if target == start {
            assert(d.order[0] == d.order[m]);
        } else {
            let m2 = lemma_lead_is_sighting(es, start, d, v2, j2, target);
            assert(m == m2);
        }
    }
}

/// Whether an exploration from node 0 meets a node a second time: whether
/// an edge leads back to node 0 from a node within its reach, or two
/// different edges from within its reach lead to one node. On a graph
/// without nodes the answer is no.
///
/// This asks for less than a directed cycle: two walks that part and meet
/// again count, and so does an edge that occurs twice. A cycle that node 0
/// does not reach does not count.
pub fn has_cycle<T: StaticGraph>(graph: &T) -> (cyclic: bool)
    requires
        graph.well_formed(),
    ensures
        cyclic == (node_count(graph@) > 0 && revisits(graph@, 0)),
{
    let n = graph.num_nodes();
    if n <= 0 {
        return false;
    }
    let mut q: VecDeque<Node> = VecDeque::new();
    let mut visited: Vec<bool> = vec![false; n];

    visited[0] = true;

    q.push_front(0);

    let ghost es = graph@;
    let ghost mut d = Discovery::at_start(0);
    let ghost mut head: int = 0;
    proof {
        lemma_explore_start(es, 0);
        lemma_marks_start(visited@);
    }

    while q.len() > 0
        invariant
            graph.well_formed(),
            es == graph@,
            n == node_count(es),
            n > 0,
            visited.len() == n,
            exploring(es, 0, d, head, 0),
            queue_holds(q@, d, head),
            forall|i: int| 0 <= i < d.len() ==> d.order[i] < n,
            marks(visited@, d),
            all_new_upto(es, d, head),
        decreases n - head,
    {
        let v = q.pop_back().unwrap();
        let ns = graph.neighbors(v);
        proof {
            lemma_distinct_below(d.order, n as nat);
        }
        let mut j: usize = 0;
        while j < ns.len()
            invariant
                es == graph@,
                n == node_count(es),
                n > 0,
                visited.len() == n,
                0 <= j <= ns.len(),
                0 <= head < d.len(),
                v == d.order[head],
                ns@ == out_neighbors(es, v),
                exploring(es, 0, d, head, j as int),
                queue_holds(q@, d, head + 1),
                forall|i: int| 0 <= i < d.len() ==> d.order[i] < n,
                marks(visited@, d),
                all_new_upto(es, d, head),
                all_new(d, head, j as int),
            decreases ns.len() - j,
        {
            let u = ns[j];
            proof {
                lemma_neighbor_below_node_count(es, v, j as int);
            }
            if visited[u] {
                proof {
                    lemma_seen_twice(es, 0, d, head, j as int);
                }
                return true;
            }
            proof {
                lemma_explore_find(es, 0, d, head, j as int);
                lemma_all_new_found(es, 0, d, head, j as int);
                lemma_marks_found(visited@, d, u, head, j as int);
                d = d.found(u, head, j as int);
            }
            visited[u] = true;
            q.push_front(u);
            j += 1;
        }
        proof {
            lemma_explore_next(es, 0, d, head, j as int);
            head = head + 1;
        }
    }

    proof {
        assert(head == d.len());
        lemma_never_twice(es, 0, d);
    }
    false
}

/// At the start of an exploration from node 0, node 0 alone is marked.
proof fn lemma_marks_start(visited: Seq<bool>)
    requires
        0 < visited.len() <= usize::MAX,
        forall|v: int| 0 <= v < visited.len() ==> (visited[v] <==> v == 0),
    ensures
        marks(visited, Discovery::at_start(0)),
{
    let d = Discovery::at_start(0);
    assert(d.order[0] == 0);
    assert forall|v: int| 0 <= v < visited.len() implies (#[trigger] visited[v] <==> d.order.contains(
        v as Node,
    )) by {
        if v == 0 {
            assert(d.order.contains(0));
        }
    }
}

/// Marking a node as it joins the record keeps the marks right.
proof fn lemma_marks_found(visited: Seq<bool>, d: Discovery, w: Node, parent: int, slot: int)
    requires
        marks(visited, d),
        w < visited.len() <= usize::MAX,
    ensures
        marks(visited.update(w as int, true), d.found(w, parent, slot)),
{
    let e = d.found(w, parent, slot);
    let after = visited.update(w as int, true);
    assert(e.order[d.len()] == w);
    assert forall|x: int| 0 <= x < after.len() implies (#[trigger] after[x] <==> e.order.contains(
        x as Node,
    )) by {
        if x == w {
            assert(e.order.contains(w));
        } else {
            assert(visited[x] <==> d.order.contains(x as Node));
            if d.order.contains(x as Node) {
                let i = d.order.index_of(x as Node);
                assert(e.order[i] == x);
            } else if e.order.contains(x as Node) {
                let i = e.order.index_of(x as Node);
                assert(d.order[i] == x);
            }
        }
    }
}

} // verus!
