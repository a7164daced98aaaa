//! One bucket of targets for each source.

use vstd::prelude::*;
use crate::model::{
    fan, flatten, grouped, lemma_flatten_grouped, lemma_flatten_neighbors, lemma_flatten_padding,
    lemma_flatten_prefix, lemma_flatten_take, lemma_grouped_same_adjacency,
    lemma_node_count_covers, lemma_node_count_push, lemma_node_count_take,
    lemma_out_neighbors_contains, lemma_out_neighbors_push, lemma_same_adjacency_grouped,
    lemma_same_adjacency_multiset, lemma_same_adjacency_node_count, lemma_same_adjacency_push,
    node_count, out_neighbors,
};
use crate::traits::{Edge, Generator, Graph, Node, StaticGraph};

verus! {

/// The views of the buckets of an adjacency array.
pub open spec fn bucket_views(adj: Seq<Vec<Node>>) -> Seq<Seq<Node>> {
    Seq::new(adj.len(), |u: int| adj[u]@)
}

/// A graph as an array of buckets: bucket `u` holds the targets of the edges
/// that leave `u`, in the order in which they were added. The node count is
/// kept up to date with every edge.
#[derive(Clone, Debug)]
pub struct AdjacencyList {
    adj: Vec<Vec<Node>>,
    num_nodes: usize,
}

impl View for AdjacencyList {
    type V = Seq<Edge>;

    closed spec fn view(&self) -> Seq<Edge> {
        flatten(bucket_views(self.adj@))
    }
}

impl AdjacencyList {
    /// The neighbors of `vertex` as they lie in its bucket, without a copy.
    /// A node without a bucket has none.
    pub fn neighbors(&self, vertex: Node) -> (ns: &[Node])
        requires
            self.well_formed(),
        ensures
            ns@ == out_neighbors(self@, vertex),
    {
        proof {
            assert(self.adj@.len() == self.adj.len());
            lemma_flatten_neighbors(bucket_views(self.adj@), vertex);
        }
        if vertex >= self.adj.len() {
            &[]
        } else {
            self.adj[vertex].as_slice()
        }
    }
}

impl Generator for AdjacencyList {
    closed spec fn well_formed(&self) -> bool {
        &&& node_count(self@) <= usize::MAX
        &&& self@.len() <= usize::MAX
        &&& self.adj@.len() == 0 ==> self.num_nodes == 0
        &&& self.adj@.len() > 0 ==> self.adj@.last()@.len() > 0 && self.num_nodes + 1 == node_count(
            self@,
        )
    }

    open spec fn yields(&self, es: Seq<Edge>) -> bool {
        es == self@
    }

    fn edges(&self) -> (es: Vec<Edge>) {
        let ghost buckets = bucket_views(self.adj@);
        let mut es: Vec<Edge> = Vec::new();
        let mut u: usize = 0;
        proof {
            assert(buckets.take(0) =~= Seq::<Seq<Node>>::empty());
        }
        while u < self.adj.len()
            invariant
                0 <= u <= self.adj.len(),
                buckets == bucket_views(self.adj@),
                es@ == flatten(buckets.take(u as int)),
            decreases self.adj.len() - u,
        {
            let bucket = &self.adj[u];
            let mut j: usize = 0;
            proof {
                lemma_flatten_take(buckets, u as int);
                assert(fan(u, bucket@.take(0)) =~= Seq::<Edge>::empty());
            }
            while j < bucket.len()
                invariant
                    0 <= j <= bucket.len(),
                    u < self.adj.len(),
                    bucket@ == buckets[u as int],
                    es@ == flatten(buckets.take(u as int)) + fan(u, bucket@.take(j as int)),
                decreases bucket.len() - j,
            {
                es.push(Edge::new(u, bucket[j]));
                proof {
                    assert(bucket@.take(j + 1) =~= bucket@.take(j as int).push(bucket@[j as int]));
                    assert(fan(u, bucket@.take(j + 1)) =~= fan(u, bucket@.take(j as int)).push(
                        Edge(u, bucket@[j as int]),
                    ));
                }
                j += 1;
            }
            proof {
                assert(bucket@.take(bucket.len() as int) =~= bucket@);
            }
            u += 1;
        }
        proof {
            assert(buckets.take(self.adj.len() as int) =~= buckets);
        }
        es
    }
}

impl StaticGraph for AdjacencyList {
    proof fn lemma_yields_view(&self, es: Seq<Edge>) {
    }

    fn from_generator<T: Generator>(gen: &T) -> (g: Self)
        ensures
            exists|es: Seq<Edge>| #[trigger] gen.yields(es) && g@ == grouped(es),
    {
        let es = gen.edges();
        let mut al = AdjacencyList::new();
        let mut k: usize = 0;
        proof {
            assert(es@.take(0) =~= Seq::<Edge>::empty());
            assert(grouped(Seq::<Edge>::empty()) =~= Seq::<Edge>::empty());
        }
        while k < es.len()
            invariant
                0 <= k <= es.len(),
                node_count(es@) <= usize::MAX,
                al.well_formed(),
                al@ == grouped(es@.take(k as int)),
            decreases es.len() - k,
        {
            let e = es[k];
            proof {
                let sofar = es@.take(k as int);
                lemma_node_count_covers(es@, k as int);
                lemma_node_count_take(es@, k as int);
                lemma_grouped_same_adjacency(sofar);
                lemma_same_adjacency_multiset(grouped(sofar), sofar);
                lemma_same_adjacency_push(grouped(sofar), sofar, e);
                lemma_same_adjacency_grouped(grouped(sofar).push(e), sofar.push(e));
                assert(es@.take(k + 1) =~= sofar.push(e));
            }
            al.add_edge(e.source(), e.target());
            k += 1;
        }
        proof {
            assert(es@.take(es.len() as int) =~= es@);
            lemma_grouped_same_adjacency(es@);
            assert(gen.yields(es@));
        }
        al
    }

    fn num_nodes(&self) -> (n: usize) {
        if self.adj.len() == 0 {
            0
        } else {
            self.num_nodes + 1
        }
    }

    fn num_edges(&self) -> (m: usize) {
        let ghost buckets = bucket_views(self.adj@);
        let mut num_edges: usize = 0;
        let mut u: usize = 0;
        proof {
            assert(buckets.take(0) =~= Seq::<Seq<Node>>::empty());
        }
        while u < self.adj.len()
            invariant
                0 <= u <= self.adj.len(),
                buckets == bucket_views(self.adj@),
                flatten(buckets).len() <= usize::MAX,
                num_edges == flatten(buckets.take(u as int)).len(),
            decreases self.adj.len() - u,
        {
            proof {
                lemma_flatten_take(buckets, u as int);
                lemma_flatten_prefix(buckets, u + 1);
            }
            num_edges += self.adj[u].len();
            u += 1;
        }
        proof {
            assert(buckets.take(self.adj.len() as int) =~= buckets);
        }
        num_edges
    }

    fn has_edge(&self, from: Node, to: Node) -> (found: bool) {
        proof {
            assert(self.adj@.len() == self.adj.len());
            lemma_out_neighbors_contains(self@, from, to);
            lemma_flatten_neighbors(bucket_views(self.adj@), from);
        }
        if self.adj.len() <= from {
            return false;
        }
        let bucket = &self.adj[from];
        let mut i: usize = 0;
        while i < bucket.len()
            invariant
                0 <= i <= bucket.len(),
                bucket@.contains(to) <==> self@.contains(Edge(from, to)),
                forall|j: int| 0 <= j < i ==> bucket@[j] != to,
            decreases bucket.len() - i,
        {
            if bucket[i] == to {
                assert(bucket@.contains(to));
                return true;
            }
            i += 1;
        }
        false
    }

    fn neighbors(&self, vertex: Node) -> (ns: Vec<Node>) {
        proof {
            assert(self.adj@.len() == self.adj.len());
            lemma_flatten_neighbors(bucket_views(self.adj@), vertex);
        }
        if vertex >= self.adj.len() {
            Vec::new()
        } else {
            let ns = self.adj[vertex].clone();
            assert(ns@ =~= self.adj@[vertex as int]@);
            ns
        }
    }

    fn clear(&mut self) {
        self.adj.clear();
        self.num_nodes = 0;
        proof {
            assert(bucket_views(self.adj@) =~= Seq::<Seq<Node>>::empty());
        }
    }
}

impl Graph for AdjacencyList {
    fn new() -> (g: Self) {
        let g = AdjacencyList { adj: Vec::new(), num_nodes: 0 };
        proof {
            assert(bucket_views(g.adj@) =~= Seq::<Seq<Node>>::empty());
        }
        g
    }

    fn add_edge(&mut self, from: Node, to: Node)
        ensures
            final(self)@ == grouped(old(self)@.push(Edge(from, to))),
    {
        let ghost before = bucket_views(self.adj@);
        let ghost wider = Seq::new(
            if before.len() > from { before.len() } else { (from + 1) as nat },
            |u: int| if u < before.len() { before[u] } else { Seq::<Node>::empty() },
        );
        while self.adj.len() <= from
            invariant
                from < usize::MAX,
                self.num_nodes == old(self).num_nodes,
                before.len() <= self.adj@.len() <= wider.len(),
                from < wider.len(),
                forall|u: int| before.len() <= u < wider.len() ==> (#[trigger] wider[u]).len() == 0,
                forall|u: int| 0 <= u < self.adj@.len() ==> self.adj@[u]@ =~= #[trigger] wider[u],
            decreases from + 1 - self.adj.len(),
        {
            self.adj.push(Vec::new());
        }
        proof {
            assert(bucket_views(self.adj@) =~= wider);
            lemma_flatten_padding(before, wider);
        }
        self.adj[from].push(to);
        if self.num_nodes < from {
            self.num_nodes = from;
        }
        if self.num_nodes < to {
            self.num_nodes = to;
        }
        proof {
            let e = Edge(from, to);
            let old_view = old(self)@;
            let after = bucket_views(self.adj@);
            assert(after =~= wider.update(from as int, wider[from as int].push(to)));
            assert forall|u: int| 0 <= u < after.len() implies after[u] == out_neighbors(
                old_view.push(e),
                u as usize,
            ) by {
                lemma_out_neighbors_push(old_view, e, u as usize);
                lemma_flatten_neighbors(before, u as usize);
            }
            assert forall|u: Node| u >= after.len() implies out_neighbors(old_view.push(e), u).len()
                == 0 by {
                lemma_out_neighbors_push(old_view, e, u);
                lemma_flatten_neighbors(before, u);
            }
            lemma_node_count_push(old_view, e);
            lemma_flatten_grouped(after, old_view.push(e));
            lemma_grouped_same_adjacency(old_view.push(e));
            lemma_same_adjacency_node_count(grouped(old_view.push(e)), old_view.push(e));
            lemma_same_adjacency_multiset(grouped(old_view.push(e)), old_view.push(e));
            if before.len() == 0 {
                assert(old_view =~= Seq::<Edge>::empty());
            }
        }
    }
}

} // verus!
