//! The edges in the order in which they were added.

use vstd::prelude::*;
use crate::model::{
    lemma_node_count_covers, lemma_node_count_push, lemma_node_count_take,
    lemma_out_neighbors_empty, lemma_out_neighbors_skip, node_count, out_neighbors,
};
use crate::traits::{Edge, Generator, Graph, Node, StaticGraph};

verus! {

/// An append-only list of edges. Adding is cheap, every query scans.
#[derive(Clone, Debug)]
pub struct EdgeList {
    edges: Vec<Edge>,
}

impl View for EdgeList {
    type V = Seq<Edge>;

    closed spec fn view(&self) -> Seq<Edge> {
        self.edges@
    }
}

impl EdgeList {
    /// An empty list with room for `edges` edges.
    pub fn with_capacity(edges: usize) -> (g: Self)
        ensures
            g.well_formed(),
            g@ == Seq::<Edge>::empty(),
    {
        EdgeList { edges: Vec::with_capacity(edges) }
    }

    /// The edges as they lie in the list, without a copy.
    pub fn edges(&self) -> (es: &[Edge])
        ensures
            es@ == self@,
    {
        self.edges.as_slice()
    }
}

impl Generator for EdgeList {
    open spec fn well_formed(&self) -> bool {
        node_count(self@) <= usize::MAX
    }

    open spec fn yields(&self, es: Seq<Edge>) -> bool {
        es == self@
    }

    fn edges(&self) -> (es: Vec<Edge>) {
        let es = self.edges.clone();
        assert(es@ =~= self.edges@);
        es
    }
}

impl StaticGraph for EdgeList {
    proof fn lemma_yields_view(&self, es: Seq<Edge>) {
    }

    fn from_generator<T: Generator>(gen: &T) -> (g: Self)
        ensures
            gen.yields(g@),
    {
        let es = gen.edges();
        let mut el = EdgeList::new();
        let mut i: usize = 0;
        while i < es.len()
            invariant
                0 <= i <= es.len(),
                el@ == es@.take(i as int),
                el.well_formed(),
                node_count(es@) <= usize::MAX,
            decreases es.len() - i,
        {
            let e = es[i];
            proof {
                lemma_node_count_covers(es@, i as int);
                assert(es@.take(i + 1) =~= es@.take(i as int).push(es@[i as int]));
            }
            el.add_edge(e.source(), e.target());
            i += 1;
        }
        proof {
            assert(es@.take(es.len() as int) =~= es@);
        }
        el
    }

    fn num_nodes(&self) -> (n: usize) {
        let mut max_node: usize = 0;
        let mut i: usize = 0;
        while i < self.edges.len()
            invariant
                0 <= i <= self.edges.len(),
                i == 0 ==> max_node == 0,
                i > 0 ==> max_node + 1 == node_count(self.edges@.take(i as int)),
                node_count(self.edges@) <= usize::MAX,
            decreases self.edges.len() - i,
        {
            let e = self.edges[i];
            proof {
                assert(self.edges@.take(i + 1) =~= self.edges@.take(i as int).push(e));
                lemma_node_count_push(self.edges@.take(i as int), e);
                lemma_node_count_take(self.edges@, i + 1);
            }
            if e.source() > max_node {
                max_node = e.source();
            }
            if e.target() > max_node {
                max_node = e.target();
            }
            i += 1;
        }
        proof {
            assert(self.edges@.take(self.edges.len() as int) =~= self.edges@);
        }
        if self.edges.len() > 0 {
            max_node + 1
        } else {
            0
        }
    }

    fn num_edges(&self) -> (m: usize) {
        self.edges.len()
    }

    fn has_edge(&self, u: Node, v: Node) -> (found: bool) {
        let mut i: usize = 0;
        while i < self.edges.len()
            invariant
                0 <= i <= self.edges.len(),
                forall|k: int| 0 <= k < i ==> self.edges@[k] != Edge(u, v),
            decreases self.edges.len() - i,
        {
            let edge = self.edges[i];
            if edge.source() == u && edge.target() == v {
                assert(self.edges@[i as int] == Edge(u, v));
                return true;
            }
            i += 1;
        }
        false
    }

    fn neighbors(&self, vertex: Node) -> (ns: Vec<Node>) {
        let mut it = EdgeListNeighborIterator::new(self, vertex);
        let mut ns: Vec<Node> = Vec::new();
        loop
            invariant
                it.well_formed(),
                ns@ + it.remaining() == out_neighbors(self@, vertex),
            ensures
                ns@ == out_neighbors(self@, vertex),
            decreases it.remaining().len(),
        {
            match it.next() {
                Some(v) => {
                    proof {
                        assert(ns@.push(v) + it.remaining() =~= ns@ + (seq![v] + it.remaining()));
                    }
                    ns.push(v);
                },
                None => {
                    assert(ns@ + it.remaining() =~= ns@);
                    break ;
                },
            }
        }
        ns
    }

    fn clear(&mut self) {
        self.edges.clear();
    }
}

impl Graph for EdgeList {
    fn new() -> (g: Self) {
        EdgeList { edges: Vec::new() }
    }

    fn add_edge(&mut self, u: Node, v: Node)
        ensures
            final(self)@ == old(self)@.push(Edge(u, v)),
    {
        proof {
            lemma_node_count_push(self@, Edge(u, v));
        }
        self.edges.push(Edge::new(u, v));
    }
}

/// A cursor over the neighbors of one node of an `EdgeList`. It finds each
/// neighbor only when asked for it.
pub struct EdgeListNeighborIterator<'a> {
    edges: &'a Vec<Edge>,
    node: Node,
    index: usize,
}

impl<'a> EdgeListNeighborIterator<'a> {
    /// The cursor stands inside its list.
    pub closed spec fn well_formed(&self) -> bool {
        self.index <= self.edges@.len()
    }

    /// The neighbors that the cursor has not handed out yet.
    pub closed spec fn remaining(&self) -> Seq<Node> {
        out_neighbors(self.edges@.skip(self.index as int), self.node)
    }

    /// A cursor before the first neighbor of `node`.
    pub fn new(edgelist: &'a EdgeList, node: Node) -> (it: Self)
        ensures
            it.well_formed(),
            it.remaining() == out_neighbors(edgelist@, node),
    {
        proof {
            assert(edgelist.edges@.skip(0) =~= edgelist.edges@);
        }
        EdgeListNeighborIterator { edges: &edgelist.edges, node, index: 0 }
    }

    /// Hands out the next neighbor, or `None` when there is none left.
    pub fn next(&mut self) -> (r: Option<Node>)
        requires
            old(self).well_formed(),
        ensures
            final(self).well_formed(),
            match r {
                Some(v) => old(self).remaining().len() > 0 && v == old(self).remaining()[0]
                    && final(self).remaining() == old(self).remaining().drop_first(),
                None => old(self).remaining().len() == 0 && final(self).remaining().len() == 0,
            },
    {
        let mut idx: usize = self.index;
        while idx < self.edges.len()
            invariant
                self.index <= idx <= self.edges.len(),
                out_neighbors(self.edges@.skip(idx as int), self.node) == self.remaining(),
                self.edges == old(self).edges,
                self.node == old(self).node,
                self.index == old(self).index,
            decreases self.edges.len() - idx,
        {
            proof {
                lemma_out_neighbors_skip(self.edges@, self.node, idx as int);
            }
            if self.edges[idx].source() == self.node {
                let v = self.edges[idx].target();
                self.index = idx + 1;
                assert(self.remaining() =~= old(self).remaining().drop_first());
                return Some(v);
            }
            idx += 1;
        }
        proof {
            assert(self.edges@.skip(idx as int) =~= Seq::<Edge>::empty());
            lemma_out_neighbors_empty(self.node);
        }
        self.index = self.edges.len();
        None
    }
}

} // verus!
