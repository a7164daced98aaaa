//! The mathematical model of a graph: a sequence of edges, and what every
//! representation must answer about it.

use vstd::multiset::Multiset;
use vstd::prelude::*;
use crate::traits::{Edge, Node};

verus! {

/// The greater of the two ids of an edge.
pub open spec fn higher_end(e: Edge) -> nat {
    if e.0 >= e.1 { e.0 as nat } else { e.1 as nat }
}

/// The number of nodes that a sequence of edges implies: none without edges,
/// otherwise one more than the greatest id at either end of any edge.
pub open spec fn node_count(es: Seq<Edge>) -> nat
    decreases es.len(),
{
    if es.len() == 0 {
        0
    } else {
        let rest = node_count(es.drop_last());
        let here = higher_end(es.last()) + 1;
        if rest >= here { rest } else { here }
    }
}

/// The targets of the edges that leave `v`, in the order of `es`, one entry
/// for each edge.
pub open spec fn out_neighbors(es: Seq<Edge>, v: Node) -> Seq<Node> {
    es.filter(|e: Edge| e.0 == v).map_values(|e: Edge| e.1)
}

/// Two edge sequences that give every node the same neighbors in the same
/// order. They may differ in how edges of different sources interleave.
pub open spec fn same_adjacency(a: Seq<Edge>, b: Seq<Edge>) -> bool {
    forall|v: Node| #![trigger out_neighbors(a, v)] #![trigger out_neighbors(b, v)]
        out_neighbors(a, v) == out_neighbors(b, v)
}

/// The edges from `u` to each of `targets`, in their order.
pub open spec fn fan(u: Node, targets: Seq<Node>) -> Seq<Edge> {
    targets.map_values(|t: Node| Edge(u, t))
}

/// The edges of an adjacency structure, in which bucket `u` holds the
/// targets of node `u`: all of bucket 0, then all of bucket 1, and so on.
pub open spec fn flatten(buckets: Seq<Seq<Node>>) -> Seq<Edge>
    decreases buckets.len(),
{
    if buckets.len() == 0 {
        Seq::empty()
    } else {
        flatten(buckets.drop_last()) + fan((buckets.len() - 1) as usize, buckets.last())
    }
}

/// The adjacency structure of `es` over the nodes below `n`.
pub open spec fn by_source(es: Seq<Edge>, n: nat) -> Seq<Seq<Node>> {
    Seq::new(n, |u: int| out_neighbors(es, u as usize))
}

/// The edges of `es` ordered by source. Edges of one source keep their order.
pub open spec fn grouped(es: Seq<Edge>) -> Seq<Edge> {
    flatten(by_source(es, node_count(es)))
}

/// Adding an edge at the end raises the node count to cover its two ends.
pub proof fn lemma_node_count_push(es: Seq<Edge>, e: Edge)
    ensures
        node_count(es.push(e)) == if node_count(es) >= higher_end(e) + 1 {
            node_count(es)
        } else {
            higher_end(e) + 1
        },
{
    assert(es.push(e).drop_last() =~= es);
}

/// Every id that occurs in `es` is below the node count.
pub proof fn lemma_node_count_covers(es: Seq<Edge>, i: int)
    requires
        0 <= i < es.len(),
    ensures
        es[i].0 < node_count(es),
        es[i].1 < node_count(es),
    decreases es.len(),
{
    if i < es.len() - 1 {
        lemma_node_count_covers(es.drop_last(), i);
    }
}

/// With at least one edge, the node count is one more than an id that occurs.
pub proof fn lemma_node_count_attained(es: Seq<Edge>) -> (i: int)
    requires
        es.len() > 0,
    ensures
        0 <= i < es.len(),
        node_count(es) == higher_end(es[i]) + 1,
    decreases es.len(),
{
    let rest = es.drop_last();
    if node_count(rest) >= higher_end(es.last()) + 1 {
        lemma_node_count_attained(rest)
    } else {
        es.len() - 1
    }
}

/// The node count of a prefix is at most that of the whole.
pub proof fn lemma_node_count_take(es: Seq<Edge>, k: int)
    requires
        0 <= k <= es.len(),
    ensures
        node_count(es.take(k)) <= node_count(es),
    decreases es.len() - k,
{
    if k < es.len() {
        lemma_node_count_take(es, k + 1);
        assert(es.take(k + 1).drop_last() =~= es.take(k));
    } else {
        assert(es.take(k) =~= es);
    }
}

/// The neighbors over a concatenation are the neighbors over its parts, in turn.
pub proof fn lemma_out_neighbors_add(a: Seq<Edge>, b: Seq<Edge>, v: Node)
    ensures
        out_neighbors(a + b, v) == out_neighbors(a, v) + out_neighbors(b, v),
{
    let leaves = |e: Edge| e.0 == v;
    Seq::filter_distributes_over_add(a, b, leaves);
    assert(out_neighbors(a + b, v) =~= out_neighbors(a, v) + out_neighbors(b, v));
}

/// A single edge is a neighbor entry of its source and of no other node.
pub proof fn lemma_out_neighbors_one(e: Edge, v: Node)
    ensures
        out_neighbors(seq![e], v) == if e.0 == v { seq![e.1] } else { Seq::<Node>::empty() },
{
    let leaves = |e: Edge| e.0 == v;
    Seq::<Edge>::empty().lemma_filter_push(e, leaves);
    assert(Seq::<Edge>::empty().push(e) =~= seq![e]);
    reveal(Seq::filter);
    assert(Seq::<Edge>::empty().filter(leaves) =~= Seq::<Edge>::empty());
    assert(out_neighbors(seq![e], v) =~= if e.0 == v { seq![e.1] } else { Seq::<Node>::empty() });
}

/// Adding an edge at the end adds its target at the end of its source's neighbors.
pub proof fn lemma_out_neighbors_push(es: Seq<Edge>, e: Edge, v: Node)
    ensures
        out_neighbors(es.push(e), v) == if e.0 == v {
            out_neighbors(es, v).push(e.1)
        } else {
            out_neighbors(es, v)
        },
{
    lemma_out_neighbors_add(es, seq![e], v);
    lemma_out_neighbors_one(e, v);
    assert(es.push(e) =~= es + seq![e]);
    assert(out_neighbors(es.push(e), v) =~= if e.0 == v {
        out_neighbors(es, v).push(e.1)
    } else {
        out_neighbors(es, v)
    });
}

/// No edges, no neighbors.
pub proof fn lemma_out_neighbors_empty(v: Node)
    ensures
        out_neighbors(Seq::<Edge>::empty(), v) == Seq::<Node>::empty(),
{
    reveal(Seq::filter);
    assert(out_neighbors(Seq::<Edge>::empty(), v) =~= Seq::<Node>::empty());
}

/// The neighbors from position `i` on: the target at `i` if that edge leaves
/// `v`, then the neighbors from `i + 1` on.
pub proof fn lemma_out_neighbors_skip(es: Seq<Edge>, v: Node, i: int)
    requires
        0 <= i < es.len(),
    ensures
        out_neighbors(es.skip(i), v) == if es[i].0 == v {
            seq![es[i].1] + out_neighbors(es.skip(i + 1), v)
        } else {
            out_neighbors(es.skip(i + 1), v)
        },
{
    assert(es.skip(i) =~= seq![es[i]] + es.skip(i + 1));
    lemma_out_neighbors_add(seq![es[i]], es.skip(i + 1), v);
    lemma_out_neighbors_one(es[i], v);
    assert(out_neighbors(es.skip(i), v) =~= if es[i].0 == v {
        seq![es[i].1] + out_neighbors(es.skip(i + 1), v)
    } else {
        out_neighbors(es.skip(i + 1), v)
    });
}

/// `w` is a neighbor of `v` exactly if the edge from `v` to `w` occurs.
pub proof fn lemma_out_neighbors_contains(es: Seq<Edge>, v: Node, w: Node)
    ensures
        out_neighbors(es, v).contains(w) <==> es.contains(Edge(v, w)),
    decreases es.len(),
{
    if es.len() == 0 {
        lemma_out_neighbors_empty(v);
        assert(es =~= Seq::<Edge>::empty());
    } else {
        let rest = es.drop_last();
        let e = es.last();
        lemma_out_neighbors_contains(rest, v, w);
        lemma_out_neighbors_push(rest, e, v);
        assert(rest.push(e) =~= es);
        if out_neighbors(es, v).contains(w) {
            let j = choose|j: int| 0 <= j < out_neighbors(es, v).len() && out_neighbors(es, v)[j] == w;
            if e.0 == v && j == out_neighbors(rest, v).len() {
                assert(es[es.len() - 1] == Edge(v, w));
            } else {
                assert(out_neighbors(rest, v)[j] == w);
                let k = choose|k: int| 0 <= k < rest.len() && rest[k] == Edge(v, w);
                assert(es[k] == Edge(v, w));
            }
        }
        if es.contains(Edge(v, w)) {
            let k = choose|k: int| 0 <= k < es.len() && es[k] == Edge(v, w);
            if k == es.len() - 1 {
                assert(out_neighbors(es, v)[out_neighbors(rest, v).len() as int] == w);
            } else {
                assert(rest[k] == Edge(v, w));
                let j = choose|j: int| 0 <= j < out_neighbors(rest, v).len() && out_neighbors(rest, v)[j] == w;
                assert(out_neighbors(es, v)[j] == w);
            }
        }
    }
}

/// The neighbors of a node are no more than the edges.
pub proof fn lemma_out_neighbors_len(es: Seq<Edge>, v: Node)
    ensures
        out_neighbors(es, v).len() <= es.len(),
{
    es.lemma_filter_len(|e: Edge| e.0 == v);
}

/// A node at or above the node count has no neighbors.
pub proof fn lemma_out_neighbors_beyond(es: Seq<Edge>, v: Node)
    requires
        v >= node_count(es),
    ensures
        out_neighbors(es, v) == Seq::<Node>::empty(),
{
    if out_neighbors(es, v).len() > 0 {
        let w = out_neighbors(es, v)[0];
        assert(out_neighbors(es, v).contains(w));
        lemma_out_neighbors_contains(es, v, w);
        let k = choose|k: int| 0 <= k < es.len() && es[k] == Edge(v, w);
        lemma_node_count_covers(es, k);
    }
    assert(out_neighbors(es, v) =~= Seq::<Node>::empty());
}

/// The neighbors over a prefix are a prefix of the neighbors.
pub proof fn lemma_out_neighbors_take(es: Seq<Edge>, v: Node, k: int)
    requires
        0 <= k <= es.len(),
    ensures
        out_neighbors(es.take(k), v).is_prefix_of(out_neighbors(es, v)),
        out_neighbors(es, v) == out_neighbors(es.take(k), v) + out_neighbors(es.skip(k), v),
{
    assert(es =~= es.take(k) + es.skip(k));
    lemma_out_neighbors_add(es.take(k), es.skip(k), v);
}

/// How often an edge occurs is how often its target occurs among the
/// neighbors of its source.
pub proof fn lemma_count_by_neighbors(es: Seq<Edge>, e: Edge)
    ensures
        es.to_multiset().count(e) == out_neighbors(es, e.0).to_multiset().count(e.1),
    decreases es.len(),
{
    broadcast use vstd::multiset::group_multiset_axioms;

    if es.len() == 0 {
        lemma_out_neighbors_empty(e.0);
        assert(es =~= Seq::<Edge>::empty());
        es.to_multiset_ensures();
        out_neighbors(es, e.0).to_multiset_ensures();
        vstd::seq_lib::to_multiset_len(es);
        vstd::seq_lib::to_multiset_len(out_neighbors(es, e.0));
        assert(es.to_multiset() =~= Multiset::<Edge>::empty());
        assert(out_neighbors(es, e.0).to_multiset() =~= Multiset::<Node>::empty());
    } else {
        let rest = es.drop_last();
        let last = es.last();
        lemma_count_by_neighbors(rest, e);
        assert(rest.push(last) =~= es);
        vstd::seq_lib::to_multiset_build(rest, last);
        lemma_out_neighbors_push(rest, last, e.0);
        if last.0 == e.0 {
            vstd::seq_lib::to_multiset_build(out_neighbors(rest, e.0), last.1);
        }
    }
}

/// Sequences with the same adjacency hold the same edges, each as often.
pub proof fn lemma_same_adjacency_multiset(a: Seq<Edge>, b: Seq<Edge>)
    requires
        same_adjacency(a, b),
    ensures
        a.to_multiset() == b.to_multiset(),
        a.len() == b.len(),
        forall|e: Edge| a.contains(e) <==> b.contains(e),
{
    assert forall|e: Edge| a.to_multiset().count(e) == b.to_multiset().count(e) by {
        lemma_count_by_neighbors(a, e);
        lemma_count_by_neighbors(b, e);
        assert(out_neighbors(a, e.0) == out_neighbors(b, e.0));
    }
    assert(a.to_multiset() =~= b.to_multiset());
    vstd::seq_lib::to_multiset_len(a);
    vstd::seq_lib::to_multiset_len(b);
    assert forall|e: Edge| a.contains(e) <==> b.contains(e) by {
        lemma_out_neighbors_contains(a, e.0, e.1);
        lemma_out_neighbors_contains(b, e.0, e.1);
        assert(out_neighbors(a, e.0) == out_neighbors(b, e.0));
    }
}

/// Sequences with the same adjacency imply the same number of nodes.
pub proof fn lemma_same_adjacency_node_count(a: Seq<Edge>, b: Seq<Edge>)
    requires
        same_adjacency(a, b),
    ensures
        node_count(a) == node_count(b),
{
    lemma_same_adjacency_multiset(a, b);
    if a.len() > 0 {
        let i = lemma_node_count_attained(a);
        assert(a.contains(a[i]));
        let k = choose|k: int| 0 <= k < b.len() && b[k] == a[i];
        lemma_node_count_covers(b, k);
        let j = lemma_node_count_attained(b);
        assert(b.contains(b[j]));
        let l = choose|l: int| 0 <= l < a.len() && a[l] == b[j];
        lemma_node_count_covers(a, l);
    }
}

/// The edges of a fan that leave `v`: all of them or none.
pub proof fn lemma_out_neighbors_fan(u: Node, targets: Seq<Node>, v: Node)
    ensures
        out_neighbors(fan(u, targets), v) == if u == v { targets } else { Seq::<Node>::empty() },
    decreases targets.len(),
{
    if targets.len() == 0 {
        assert(fan(u, targets) =~= Seq::<Edge>::empty());
        lemma_out_neighbors_empty(v);
        assert(targets =~= Seq::<Node>::empty());
    } else {
        let rest = targets.drop_last();
        lemma_out_neighbors_fan(u, rest, v);
        assert(fan(u, targets) =~= fan(u, rest).push(Edge(u, targets.last())));
        lemma_out_neighbors_push(fan(u, rest), Edge(u, targets.last()), v);
        assert(rest.push(targets.last()) =~= targets);
    }
}

/// In a flattened adjacency structure the neighbors of a node are its bucket.
pub proof fn lemma_flatten_neighbors(buckets: Seq<Seq<Node>>, v: Node)
    requires
        buckets.len() <= usize::MAX,
    ensures
        out_neighbors(flatten(buckets), v) == if v < buckets.len() {
            buckets[v as int]
        } else {
            Seq::<Node>::empty()
        },
    decreases buckets.len(),
{
    if buckets.len() == 0 {
        lemma_out_neighbors_empty(v);
    } else {
        let rest = buckets.drop_last();
        let u = (buckets.len() - 1) as usize;
        lemma_flatten_neighbors(rest, v);
        lemma_out_neighbors_add(flatten(rest), fan(u, buckets.last()), v);
        lemma_out_neighbors_fan(u, buckets.last(), v);
        assert(out_neighbors(flatten(buckets), v) =~= if v < buckets.len() {
            buckets[v as int]
        } else {
            Seq::<Node>::empty()
        });
    }
}

/// Flattening the first `k + 1` buckets is flattening the first `k` and
/// then fanning out bucket `k`.
pub proof fn lemma_flatten_take(buckets: Seq<Seq<Node>>, k: int)
    requires
        0 <= k < buckets.len() <= usize::MAX,
    ensures
        flatten(buckets.take(k + 1)) == flatten(buckets.take(k)) + fan(k as usize, buckets[k]),
        flatten(buckets.take(k)).len() + buckets[k].len() == flatten(buckets.take(k + 1)).len(),
{
    assert(buckets.take(k + 1).drop_last() =~= buckets.take(k));
}

/// The flattened first `k` buckets are a prefix of the whole.
pub proof fn lemma_flatten_prefix(buckets: Seq<Seq<Node>>, k: int)
    requires
        0 <= k <= buckets.len() <= usize::MAX,
    ensures
        flatten(buckets.take(k)).is_prefix_of(flatten(buckets)),
    decreases buckets.len() - k,
{
    if k < buckets.len() {
        lemma_flatten_prefix(buckets, k + 1);
        lemma_flatten_take(buckets, k);
    } else {
        assert(buckets.take(k) =~= buckets);
    }
}

/// Where entry `j` of bucket `u` lies in the flattened structure: behind all
/// earlier buckets, at offset `j`.
pub proof fn lemma_flatten_index(buckets: Seq<Seq<Node>>, u: int, j: int)
    requires
        0 <= u < buckets.len() <= usize::MAX,
        0 <= j < buckets[u].len(),
    ensures
        flatten(buckets.take(u)).len() + j < flatten(buckets).len(),
        flatten(buckets)[flatten(buckets.take(u)).len() + j] == Edge(u as usize, buckets[u][j]),
{
    lemma_flatten_take(buckets, u);
    lemma_flatten_prefix(buckets, u + 1);
    let upto = flatten(buckets.take(u + 1));
    let at = flatten(buckets.take(u)).len() + j;
    assert(upto[at] == fan(u as usize, buckets[u])[j]);
}

/// Empty buckets at the end add no edges.
pub proof fn lemma_flatten_padding(short: Seq<Seq<Node>>, long: Seq<Seq<Node>>)
    requires
        short.len() <= long.len() <= usize::MAX,
        forall|u: int| 0 <= u < short.len() ==> long[u] == short[u],
        forall|u: int| short.len() <= u < long.len() ==> long[u].len() == 0,
    ensures
        flatten(long) == flatten(short),
    decreases long.len(),
{
    if short.len() == long.len() {
        assert(long =~= short);
    } else {
        lemma_flatten_padding(short, long.drop_last());
        assert(fan((long.len() - 1) as usize, long.last()) =~= Seq::<Edge>::empty());
        assert(flatten(long) =~= flatten(long.drop_last()));
    }
}

/// An adjacency structure whose buckets are the neighbors in `es`, and
/// which leaves out only nodes without neighbors, flattens to `es` grouped.
pub proof fn lemma_flatten_grouped(buckets: Seq<Seq<Node>>, es: Seq<Edge>)
    requires
        buckets.len() <= usize::MAX,
        node_count(es) <= usize::MAX,
        forall|u: int| 0 <= u < buckets.len() ==> buckets[u] == out_neighbors(es, u as usize),
        forall|u: Node| u >= buckets.len() ==> out_neighbors(es, u).len() == 0,
    ensures
        flatten(buckets) == grouped(es),
{
    let n = node_count(es);
    let len = if buckets.len() >= n { buckets.len() } else { n };
    let both = by_source(es, len);
    assert forall|u: int| n <= u < both.len() implies both[u].len() == 0 by {
        lemma_out_neighbors_beyond(es, u as usize);
    }
    lemma_flatten_padding(buckets, both);
    lemma_flatten_padding(by_source(es, n), both);
}

/// Grouping by source keeps every node's neighbors and their order.
pub proof fn lemma_grouped_same_adjacency(es: Seq<Edge>)
    requires
        node_count(es) <= usize::MAX,
    ensures
        same_adjacency(grouped(es), es),
{
    let n = node_count(es);
    assert forall|v: Node| out_neighbors(grouped(es), v) == out_neighbors(es, v) by {
        lemma_flatten_neighbors(by_source(es, n), v);
        if v >= n {
            lemma_out_neighbors_beyond(es, v);
        }
    }
}

/// Every neighbor is below the node count.
pub proof fn lemma_neighbor_below_node_count(es: Seq<Edge>, v: Node, j: int)
    requires
        0 <= j < out_neighbors(es, v).len(),
    ensures
        out_neighbors(es, v)[j] < node_count(es),
        v < node_count(es),
        es.contains(Edge(v, out_neighbors(es, v)[j])),
{
    let w = out_neighbors(es, v)[j];
    assert(out_neighbors(es, v).contains(w));
    lemma_out_neighbors_contains(es, v, w);
    let k = choose|k: int| 0 <= k < es.len() && es[k] == Edge(v, w);
    lemma_node_count_covers(es, k);
}

/// Having the same adjacency survives adding the same edge to both.
pub proof fn lemma_same_adjacency_push(a: Seq<Edge>, b: Seq<Edge>, e: Edge)
    requires
        same_adjacency(a, b),
    ensures
        same_adjacency(a.push(e), b.push(e)),
{
    assert forall|v: Node| out_neighbors(a.push(e), v) == out_neighbors(b.push(e), v) by {
        lemma_out_neighbors_push(a, e, v);
        lemma_out_neighbors_push(b, e, v);
        assert(out_neighbors(a, v) == out_neighbors(b, v));
    }
}

/// Grouping depends on the adjacency alone.
pub proof fn lemma_same_adjacency_grouped(a: Seq<Edge>, b: Seq<Edge>)
    requires
        same_adjacency(a, b),
    ensures
        grouped(a) == grouped(b),
{
    lemma_same_adjacency_node_count(a, b);
    let n = node_count(a);
    assert forall|u: int| 0 <= u < n implies by_source(a, n)[u] == by_source(b, n)[u] by {
        assert(out_neighbors(a, u as usize) == out_neighbors(b, u as usize));
    }
    assert(by_source(a, n) =~= by_source(b, n));
}

/// If every id in `es` is below `n`, so is the node count.
pub proof fn lemma_node_count_least(es: Seq<Edge>, n: nat)
    requires
        forall|i: int| 0 <= i < es.len() ==> es[i].0 < n && es[i].1 < n,
    ensures
        node_count(es) <= n,
{
    if es.len() > 0 {
        let i = lemma_node_count_attained(es);
    }
}

} // verus!
