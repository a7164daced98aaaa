//! Breadth-first search.

use std::collections::VecDeque;
use vstd::prelude::*;
use crate::algorithms::discovery::{
    explored, exploring, is_bfs_tree, lemma_distinct_below, lemma_explore_find, lemma_explore_next,
    lemma_explore_skip, lemma_explore_start, lemma_tree_found, queue_holds, Discovery,
};
use crate::algorithms::layers::{
    lemma_depth_is_distance, lemma_explored_reaches, lemma_explored_unique, lemma_index_of,
    lemma_parent_edge,
};
use crate::algorithms::paths::{distance, reachable};
use crate::model::{lemma_neighbor_below_node_count, node_count, out_neighbors};
use crate::traits::{Edge, Node, StaticGraph};

verus! {

/// Searches `graph` breadth-first from `start`. The result has an entry for
/// every node: the node from which it was first seen, `start` for `start`
/// itself, and `None` for a node that the search did not reach.
///
/// The search looks at the nodes in the order in which it saw them, and at
/// the neighbors of each in the order of the representation; `is_bfs_tree`
/// says so, and the graph and the start determine the result. What follows
/// from that is stated as well: a node has a predecessor exactly if it can
/// be reached from `start`, and following the predecessors from it leads to
/// `start` in as many steps as a shortest walk has edges.
pub fn breadth_first_search<T: StaticGraph>(graph: &T, start: Node) -> (pred: Vec<Option<Node>>)
    requires
        graph.well_formed(),
        start < node_count(graph@),
    ensures
        is_bfs_tree(graph@, start, pred@),
        pred@.len() == node_count(graph@),
        pred@[start as int] == Some(start),
        forall|v: Node|
            v < pred@.len() ==> (#[trigger] pred@[v as int] is Some <==> reachable(graph@, start, v)),
        forall|v: Node|
            v < pred@.len() && #[trigger] pred@[v as int] is Some ==> ancestor(
                pred@,
                v,
                distance(graph@, start, v),
            ) == Some(start),
        forall|v: Node|
            v < pred@.len() && v != start && #[trigger] pred@[v as int] is Some ==> {
                let u = pred@[v as int]->0;
                &&& u < pred@.len()
                &&& graph@.contains(Edge(u, v))
                &&& distance(graph@, start, v) == distance(graph@, start, u) + 1
            },
{
    let n = graph.num_nodes();
    let mut q: VecDeque<Node> = VecDeque::new();
    let mut pred: Vec<Option<Node>> = vec![None; n];

    q.push_front(start);
    pred[start] = Some(start);

    let ghost es = graph@;
    let ghost mut d = Discovery::at_start(start);
    let ghost mut head: int = 0;
    proof {
        lemma_explore_start(es, start);
        assert(pred@ =~= d.tree(n as nat)) by {
            assert forall|v: int| 0 <= v < n implies pred@[v] == d.tree(n as nat)[v] by {
                if v == start {
                    assert(d.order[0] == start);
                    assert(d.order.contains(start));
                }
            }
        }
    }

    while q.len() > 0
        invariant
            graph.well_formed(),
            es == graph@,
            n == node_count(es),
            exploring(es, start, d, head, 0),
            queue_holds(q@, d, head),
            forall|i: int| 0 <= i < d.len() ==> d.order[i] < n,
            pred@ == d.tree(n as nat),
        decreases n - head,
    {
        let v = q.pop_back().unwrap();
        let ns = graph.neighbors(v);
        proof {
            lemma_distinct_below(d.order, n as nat);
        }
        let mut j: usize = 0;
        while j < ns.len()
            invariant
                es == graph@,
                n == node_count(es),
                0 <= j <= ns.len(),
                0 <= head < d.len(),
                v == d.order[head],
                ns@ == out_neighbors(es, v),
                exploring(es, start, d, head, j as int),
                queue_holds(q@, d, head + 1),
                forall|i: int| 0 <= i < d.len() ==> d.order[i] < n,
                pred@ == d.tree(n as nat),
            decreases ns.len() - j,
        {
            let u = ns[j];
            proof {
                lemma_neighbor_below_node_count(es, v, j as int);
            }
            if pred[u].is_none() {
                proof {
                    lemma_explore_find(es, start, d, head, j as int);
                    lemma_tree_found(es, d, start, n as nat, u, head, j as int);
                    d = d.found(u, head, j as int);
                }
                pred[u] = Some(v);
                q.push_front(u);
            } else {
                proof {
                    lemma_explore_skip(es, start, d, head, j as int);
                }
            }
            j += 1;
        }
        proof {
            lemma_explore_next(es, start, d, head, j as int);
            head = head + 1;
        }
    }
    proof {
        assert(head == d.len());
        assert(explored(es, start, d));
        lemma_bfs_tree(es, start, pred@);
    }
    pred
}

/// The node that `steps` steps from a node to its predecessor lead to from
/// `v`, if there are that many.
pub open spec fn ancestor(pred: Seq<Option<Node>>, v: Node, steps: nat) -> Option<Node>
    decreases steps,
{
    if steps == 0 {
        Some(v)
    } else if v < pred.len() {
        match pred[v as int] {
            Some(u) => ancestor(pred, u, (steps - 1) as nat),
            None => None,
        }
    } else {
        None
    }
}

/// Every node of a finished exploration is below the node count, and its
/// entry in the predecessor array is its parent.
proof fn lemma_tree_entry(es: Seq<Edge>, start: Node, d: Discovery, i: int)
    requires
        explored(es, start, d),
        start < node_count(es) <= usize::MAX,
        0 <= i < d.len(),
    ensures
        d.order[i] < node_count(es),
        0 <= d.parent[i] < d.len(),
        d.tree(node_count(es))[d.order[i] as int] == Some(d.order[d.parent[i]]),
{
    lemma_index_of(d, start, i);
    if i >= 1 {
        assert(d.seen_at(es, i));
        lemma_neighbor_below_node_count(es, d.order[d.parent[i]], d.slot[i]);
    }
}

/// From a node of a finished exploration, as many steps along the
/// predecessor array as the node is deep lead to the start.
proof fn lemma_ancestor(es: Seq<Edge>, start: Node, d: Discovery, i: int)
    requires
        explored(es, start, d),
        start < node_count(es) <= usize::MAX,
        0 <= i < d.len(),
    ensures
        ancestor(d.tree(node_count(es)), d.order[i], d.depth(i)) == Some(start),
    decreases i,
{
    if i >= 1 {
        lemma_tree_entry(es, start, d, i);
        lemma_parent_edge(es, start, d, d.len(), 0, i);
        lemma_ancestor(es, start, d, d.parent[i]);
    }
}

/// What a breadth-first search returns. The array has an entry for every
/// node. The start is its own predecessor. A node has a predecessor exactly
/// if it can be reached from the start, and then following the predecessors
/// leads back to the start in as many steps as the node is far from it.
/// Every other predecessor is one edge before its node and one step nearer
/// to the start: the predecessors form a tree of shortest walks.
pub proof fn lemma_bfs_tree(es: Seq<Edge>, start: Node, pred: Seq<Option<Node>>)
    requires
        start < node_count(es) <= usize::MAX,
        is_bfs_tree(es, start, pred),
    ensures
        pred.len() == node_count(es),
        pred[start as int] == Some(start),
        forall|v: Node| v < pred.len() ==> (#[trigger] pred[v as int] is Some <==> reachable(es, start, v)),
        forall|v: Node|
            v < pred.len() && #[trigger] pred[v as int] is Some ==> ancestor(
                pred,
                v,
                distance(es, start, v),
            ) == Some(start),
        forall|v: Node|
            v < pred.len() && v != start && #[trigger] pred[v as int] is Some ==> {
                let u = pred[v as int]->0;
                &&& u < pred.len()
                &&& pred[u as int] is Some
                &&& es.contains(Edge(u, v))
                &&& distance(es, start, v) == distance(es, start, u) + 1
            },
{
    let n = node_count(es);
    let d = choose|d: Discovery| #[trigger] explored(es, start, d) && pred == d.tree(n);
    lemma_tree_entry(es, start, d, 0);
    assert forall|v: Node| v < pred.len() implies (#[trigger] pred[v as int] is Some <==> reachable(
        es,
        start,
        v,
    )) by {
        lemma_explored_reaches(es, start, d, v);
    }
    assert forall|v: Node| v < pred.len() && #[trigger] pred[v as int] is Some implies ancestor(
        pred,
        v,
        distance(es, start, v),
    ) == Some(start) by {
        let i = d.order.index_of(v);
        assert(d.order[i] == v);
        lemma_ancestor(es, start, d, i);
        lemma_depth_is_distance(es, start, d, d.len(), 0, i);
    }
    assert forall|v: Node| v < pred.len() && v != start && #[trigger] pred[v as int] is Some implies {
        let u = pred[v as int]->0;
        &&& u < pred.len()
        &&& pred[u as int] is Some
        &&& es.contains(Edge(u, v))
        &&& distance(es, start, v) == distance(es, start, u) + 1
    } by {
        let i = d.order.index_of(v);
        assert(d.order[i] == v);
        lemma_tree_entry(es, start, d, i);
        lemma_parent_edge(es, start, d, d.len(), 0, i);
        lemma_tree_entry(es, start, d, d.parent[i]);
        lemma_depth_is_distance(es, start, d, d.len(), 0, i);
        lemma_depth_is_distance(es, start, d, d.len(), 0, d.parent[i]);
    }
}

/// The edges and the start determine what a breadth-first search returns.
pub proof fn lemma_bfs_tree_unique(
    es: Seq<Edge>,
    start: Node,
    pred1: Seq<Option<Node>>,
    pred2: Seq<Option<Node>>,
)
    requires
        is_bfs_tree(es, start, pred1),
        is_bfs_tree(es, start, pred2),
    ensures
        pred1 == pred2,
{
    let n = node_count(es);
    let d1 = choose|d: Discovery| #[trigger] explored(es, start, d) && pred1 == d.tree(n);
    let d2 = choose|d: Discovery| #[trigger] explored(es, start, d) && pred2 == d.tree(n);
    lemma_explored_unique(es, start, d1, d2);
}

} // verus!
