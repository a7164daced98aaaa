//! What holds of every graph, whatever its representation.

use vstd::prelude::*;
use crate::algorithms::discovery::{explored, is_bfs_tree, Discovery};
use crate::algorithms::paths::{
    distance, has_walk, lemma_distance, lemma_walk_push, reachable, walk_between, walk_step,
};
use crate::algorithms::property::{layers_alternate, leads_to, met_again, revisits};
use crate::model::{
    grouped, higher_end, lemma_grouped_same_adjacency, lemma_node_count_attained,
    lemma_node_count_covers, lemma_out_neighbors_empty, lemma_same_adjacency_multiset,
    lemma_same_adjacency_node_count, lemma_same_adjacency_push, node_count, out_neighbors,
    same_adjacency,
};
use crate::traits::{Edge, Node, StaticGraph};

verus! {

/// The number of nodes: 0 without edges; otherwise above every id that
/// occurs, and just one above some id that occurs.
pub proof fn lemma_node_count(es: Seq<Edge>)
    ensures
        es.len() == 0 ==> node_count(es) == 0,
        forall|i: int|
            0 <= i < es.len() ==> (#[trigger] es[i]).0 < node_count(es) && es[i].1 < node_count(es),
        es.len() > 0 ==> exists|i: int|
            0 <= i < es.len() && node_count(es) == higher_end(#[trigger] es[i]) + 1,
{
    assert forall|i: int| 0 <= i < es.len() implies (#[trigger] es[i]).0 < node_count(es) && es[i].1
        < node_count(es) by {
        lemma_node_count_covers(es, i);
    }
    if es.len() > 0 {
        let i = lemma_node_count_attained(es);
    }
}

/// A graph without edges: no nodes, no edge to find, no neighbors, and
/// nothing to group.
pub proof fn lemma_no_edges(es: Seq<Edge>)
    requires
        es.len() == 0,
    ensures
        node_count(es) == 0,
        forall|e: Edge| !es.contains(e),
        forall|v: Node| #[trigger] out_neighbors(es, v) == Seq::<Node>::empty(),
        grouped(es) == es,
{
    assert(es =~= Seq::<Edge>::empty());
    assert forall|v: Node| #[trigger] out_neighbors(es, v) == Seq::<Node>::empty() by {
        lemma_out_neighbors_empty(v);
    }
    assert(grouped(es) =~= es);
}

/// Having the same adjacency goes both ways and carries over.
pub proof fn lemma_same_adjacency_equivalence(a: Seq<Edge>, b: Seq<Edge>, c: Seq<Edge>)
    ensures
        same_adjacency(a, a),
        same_adjacency(a, b) ==> same_adjacency(b, a),
        same_adjacency(a, b) && same_adjacency(b, c) ==> same_adjacency(a, c),
{
    if same_adjacency(a, b) {
        assert forall|v: Node| out_neighbors(b, v) == out_neighbors(a, v) by {
            assert(out_neighbors(a, v) == out_neighbors(b, v));
        }
        if same_adjacency(b, c) {
            assert forall|v: Node| out_neighbors(a, v) == out_neighbors(c, v) by {
                assert(out_neighbors(a, v) == out_neighbors(b, v));
                assert(out_neighbors(b, v) == out_neighbors(c, v));
            }
        }
    }
}

/// Edges that are arranged anew with the same adjacency are the same edges,
/// each as often as before, and imply as many nodes.
pub proof fn lemma_same_adjacency(a: Seq<Edge>, b: Seq<Edge>)
    requires
        same_adjacency(a, b),
    ensures
        a.to_multiset() == b.to_multiset(),
        a.len() == b.len(),
        node_count(a) == node_count(b),
        forall|e: Edge| a.contains(e) <==> b.contains(e),
{
    lemma_same_adjacency_multiset(a, b);
    lemma_same_adjacency_node_count(a, b);
}

/// Grouping by source keeps the edges, each as often as before, and the
/// number of nodes.
pub proof fn lemma_grouped(es: Seq<Edge>)
    requires
        node_count(es) <= usize::MAX,
    ensures
        same_adjacency(grouped(es), es),
        grouped(es).to_multiset() == es.to_multiset(),
        grouped(es).len() == es.len(),
        node_count(grouped(es)) == node_count(es),
{
    lemma_grouped_same_adjacency(es);
    lemma_same_adjacency(grouped(es), es);
}

/// Converting a graph keeps its edges. Whatever representation `source`
/// has, and whatever representation was built from it with
/// `from_generator`: the result holds the same edges, each as often as the
/// source does, gives every node the same neighbors in the same order, and
/// has as many nodes and edges.
pub proof fn lemma_conversion<G: StaticGraph>(source: G, converted: Seq<Edge>)
    requires
        source.well_formed(),
        exists|es: Seq<Edge>| #[trigger] source.yields(es) && same_adjacency(converted, es),
    ensures
        same_adjacency(converted, source@),
        converted.to_multiset() == source@.to_multiset(),
        converted.len() == source@.len(),
        node_count(converted) == node_count(source@),
        forall|e: Edge| converted.contains(e) <==> source@.contains(e),
{
    let es = choose|es: Seq<Edge>| #[trigger] source.yields(es) && same_adjacency(converted, es);
    source.lemma_yields_view(es);
    lemma_same_adjacency(converted, source@);
}

/// A graph that began without edges and took the edges `added` one by one
/// holds exactly those: as many edges as were added, each as often as it was
/// added, and for every node its neighbors in the order in which they were
/// added. `views[i]` is the graph after `i` edges.
pub proof fn lemma_edges_added(views: Seq<Seq<Edge>>, added: Seq<Edge>)
    requires
        views.len() == added.len() + 1,
        views[0].len() == 0,
        forall|i: int|
            0 <= i < added.len() ==> same_adjacency(#[trigger] views[i + 1], views[i].push(added[i])),
    ensures
        same_adjacency(views[added.len() as int], added),
        views[added.len() as int].len() == added.len(),
        views[added.len() as int].to_multiset() == added.to_multiset(),
    decreases added.len(),
{
    let k = added.len() as int;
    if k == 0 {
        assert(views[0] =~= added);
        lemma_same_adjacency_equivalence(added, added, added);
    } else {
        let earlier = added.drop_last();
        lemma_edges_added(views.drop_last(), earlier);
        assert(views.drop_last()[k - 1] == views[k - 1]);
        assert(same_adjacency(views[k - 1 + 1], views[k - 1].push(added[k - 1])));
        lemma_same_adjacency_push(views[k - 1], earlier, added[k - 1]);
        assert(earlier.push(added[k - 1]) =~= added);
        lemma_same_adjacency_equivalence(views[k], views[k - 1].push(added[k - 1]), added);
    }
    lemma_same_adjacency(views[k], added);
}

/// A finished exploration of some edges is one of any edges with the same
/// adjacency.
proof fn lemma_explored_same_adjacency(a: Seq<Edge>, b: Seq<Edge>, start: Node, d: Discovery)
    requires
        same_adjacency(a, b),
        explored(a, start, d),
    ensures
        explored(b, start, d),
{
    assert forall|v: Node| out_neighbors(b, v) == out_neighbors(a, v) by {
        assert(out_neighbors(a, v) == out_neighbors(b, v));
    }
    assert forall|i: int| 1 <= i < d.len() implies #[trigger] d.seen_at(b, i) by {
        assert(d.seen_at(a, i));
    }
    assert forall|k: int| 0 <= k < d.len() implies #[trigger] d.covers(
        b,
        k,
        out_neighbors(b, d.order[k]).len() as int,
    ) by {
        assert(d.covers(a, k, out_neighbors(a, d.order[k]).len() as int));
    }
}

/// Walks, reach and distance are the same for edges with the same adjacency.
proof fn lemma_walks_same_adjacency(a: Seq<Edge>, b: Seq<Edge>, from: Node, to: Node)
    requires
        same_adjacency(a, b),
    ensures
        forall|steps: nat| has_walk(a, from, to, steps) ==> has_walk(b, from, to, steps),
        reachable(a, from, to) ==> reachable(b, from, to),
{
    lemma_same_adjacency(a, b);
    assert forall|steps: nat| has_walk(a, from, to, steps) implies has_walk(b, from, to, steps) by {
        let p = choose|p: Seq<Node>| #[trigger] walk_between(a, p, from, to) && p.len() == steps + 1;
        assert forall|i: int| 0 <= i < p.len() - 1 implies #[trigger] walk_step(b, p, i) by {
            assert(walk_step(a, p, i));
        }
        assert(walk_between(b, p, from, to));
    }
    if reachable(a, from, to) {
        let steps = choose|steps: nat| has_walk(a, from, to, steps);
        assert(has_walk(b, from, to, steps));
    }
}

/// A node that can be reached is as far away in edges with the same
/// adjacency.
proof fn lemma_distance_same_adjacency(a: Seq<Edge>, b: Seq<Edge>, from: Node, to: Node)
    requires
        same_adjacency(a, b),
        reachable(a, from, to),
    ensures
        reachable(b, from, to),
        distance(a, from, to) == distance(b, from, to),
{
    lemma_same_adjacency_equivalence(a, b, a);
    lemma_walks_same_adjacency(a, b, from, to);
    lemma_walks_same_adjacency(b, a, from, to);
    let some = choose|steps: nat| has_walk(a, from, to, steps);
    let least = lemma_least_walk(a, from, to, some);
    lemma_distance(a, from, to, least);
    lemma_distance(b, from, to, least);
}

/// Where a walk exists, one of the fewest steps exists.
proof fn lemma_least_walk(es: Seq<Edge>, from: Node, to: Node, steps: nat) -> (least: nat)
    requires
        has_walk(es, from, to, steps),
    ensures
        has_walk(es, from, to, least),
        forall|fewer: nat| fewer < least ==> !has_walk(es, from, to, fewer),
    decreases steps,
{
    if exists|fewer: nat| fewer < steps && has_walk(es, from, to, fewer) {
        let fewer = choose|fewer: nat| fewer < steps && has_walk(es, from, to, fewer);
        lemma_least_walk(es, from, to, fewer)
    } else {
        steps
    }
}

/// What the algorithms find depends on the adjacency alone, not on the
/// representation: for edges with the same adjacency a breadth-first search
/// returns the same array, and the two properties are decided alike.
pub proof fn lemma_algorithms_agree(a: Seq<Edge>, b: Seq<Edge>, start: Node)
    requires
        same_adjacency(a, b),
    ensures
        forall|pred: Seq<Option<Node>>|
            #[trigger] is_bfs_tree(a, start, pred) <==> is_bfs_tree(b, start, pred),
        layers_alternate(a, start) <==> layers_alternate(b, start),
        revisits(a, start) <==> revisits(b, start),
{
    lemma_same_adjacency_equivalence(a, b, a);
    lemma_agree_one_way(a, b, start);
    lemma_agree_one_way(b, a, start);
}

proof fn lemma_agree_one_way(a: Seq<Edge>, b: Seq<Edge>, start: Node)
    requires
        same_adjacency(a, b),
        same_adjacency(b, a),
    ensures
        forall|pred: Seq<Option<Node>>|
            #[trigger] is_bfs_tree(a, start, pred) ==> is_bfs_tree(b, start, pred),
        layers_alternate(a, start) ==> layers_alternate(b, start),
        revisits(a, start) ==> revisits(b, start),
{
    lemma_same_adjacency_node_count(a, b);
    assert forall|pred: Seq<Option<Node>>| #[trigger]
        is_bfs_tree(a, start, pred) implies is_bfs_tree(b, start, pred) by {
        let d = choose|d: Discovery| #[trigger] explored(a, start, d) && pred == d.tree(node_count(a));
        lemma_explored_same_adjacency(a, b, start, d);
    }
    if layers_alternate(a, start) {
        assert forall|e: Edge| #[trigger] b.contains(e) && reachable(b, start, e.0) implies distance(
            b,
            start,
            e.0,
        ) % 2 != distance(b, start, e.1) % 2 by {
            lemma_edge_same_adjacency(a, b, start, e);
        }
    }
    if revisits(a, start) {
        let target = choose|target: Node| met_again(a, start, target);
        lemma_met_again_same_adjacency(a, b, start, target);
    }
}

/// The two ends of an edge from within reach are as far away in edges with
/// the same adjacency.
proof fn lemma_edge_same_adjacency(a: Seq<Edge>, b: Seq<Edge>, start: Node, e: Edge)
    requires
        same_adjacency(a, b),
        same_adjacency(b, a),
        b.contains(e),
        reachable(b, start, e.0),
    ensures
        a.contains(e),
        reachable(a, start, e.0),
        distance(a, start, e.0) == distance(b, start, e.0),
        distance(a, start, e.1) == distance(b, start, e.1),
{
    lemma_same_adjacency_multiset(a, b);
    lemma_distance_same_adjacency(b, a, start, e.0);
    lemma_reach_over_edge(a, start, e);
    lemma_distance_same_adjacency(a, b, start, e.1);
}

/// What can be reached by a walk can be reached by one edge more.
proof fn lemma_reach_over_edge(es: Seq<Edge>, start: Node, e: Edge)
    requires
        es.contains(e),
        reachable(es, start, e.0),
    ensures
        reachable(es, start, e.1),
{
    let near = choose|steps: nat| has_walk(es, start, e.0, steps);
    let p = choose|p: Seq<Node>| #[trigger] walk_between(es, p, start, e.0) && p.len() == near + 1;
    lemma_walk_push(es, p, e.1);
    assert(walk_between(es, p.push(e.1), start, e.1));
    assert(has_walk(es, start, e.1, near + 1));
}

/// A node that is met again is met again in edges with the same adjacency.
proof fn lemma_met_again_same_adjacency(a: Seq<Edge>, b: Seq<Edge>, start: Node, target: Node)
    requires
        same_adjacency(a, b),
        met_again(a, start, target),
    ensures
        met_again(b, start, target),
        revisits(b, start),
{
    let (v, j, v2, j2) = choose|v: Node, j: int, v2: Node, j2: int|
        #![trigger leads_to(a, start, v, j, target), leads_to(a, start, v2, j2, target)]
        leads_to(a, start, v, j, target) && (target == start || (leads_to(a, start, v2, j2, target)
            && (v != v2 || j != j2)));
    lemma_walks_same_adjacency(a, b, start, v);
    assert(out_neighbors(a, v) == out_neighbors(b, v));
    assert(leads_to(b, start, v, j, target));
    if target != start {
        lemma_walks_same_adjacency(a, b, start, v2);
        assert(out_neighbors(a, v2) == out_neighbors(b, v2));
        assert(leads_to(b, start, v2, j2, target));
    }
    assert(met_again(b, start, target));
}

} // verus!
