//! Nodes, edges and the capability traits that every representation meets.

use vstd::prelude::*;
use crate::model::{node_count, out_neighbors, same_adjacency};

verus! {

/// A node is a dense, non-negative integer identifier.
pub type Node = usize;

/// A directed edge from `self.0` to `self.1`.
#[derive(Copy, Clone, Hash, PartialEq, Eq, Structural, PartialOrd, Ord, Debug)]
pub struct Edge(pub Node, pub Node);

impl Edge {
    /// The edge from `from` to `to`.
    pub fn new(from: Node, to: Node) -> (e: Self)
        ensures
            e == Edge(from, to),
    {
        Edge(from, to)
    }

    /// The node that the edge leaves.
    pub fn source(&self) -> (u: Node)
        ensures
            u == self.0,
    {
        self.0
    }

    /// The node that the edge leads to.
    pub fn target(&self) -> (v: Node)
        ensures
            v == self.1,
    {
        self.1
    }
}

/// A producer of edges. Asking twice need not give the same edges twice:
/// a random generator samples anew each time.
pub trait Generator {
    /// The invariant of the implementing type. A type that states none
    /// has none.
    open spec fn well_formed(&self) -> bool {
        true
    }

    /// Whether one call of `edges` may hand out exactly `es`. A type that
    /// does not say may hand out anything.
    open spec fn yields(&self, es: Seq<Edge>) -> bool {
        true
    }

    /// Produces the whole edge sequence, from its start. No id in it is
    /// `usize::MAX`, so that the number of nodes fits a `usize`.
    fn edges(&self) -> (es: Vec<Edge>)
        requires
            self.well_formed(),
        ensures
            self.yields(es@),
            node_count(es@) <= usize::MAX,
    ;
}

/// A graph that is built in one step and then queried. Its view is the
/// sequence of its edges in the order in which `edges` hands them out; every
/// query answers about that sequence.
pub trait StaticGraph: Generator + View<V = Seq<Edge>> + Sized {
    /// A graph taken as a generator hands out its own edges, in its own
    /// order, and nothing else.
    proof fn lemma_yields_view(&self, es: Seq<Edge>)
        requires
            self.well_formed(),
        ensures
            self.yields(es) <==> es == self@,
    ;

    /// Builds a graph from the edges that one call of `gen.edges()` hands
    /// out. The graph holds each of them, as often as it was handed out, and
    /// gives every node its neighbors in the order in which they were handed
    /// out. How edges of different sources interleave is up to the
    /// representation.
    fn from_generator<T: Generator>(gen: &T) -> (g: Self)
        requires
            gen.well_formed(),
        ensures
            g.well_formed(),
            exists|es: Seq<Edge>| #[trigger] gen.yields(es) && same_adjacency(g@, es),
    ;

    /// The number of nodes: 0 without edges, otherwise one more than the
    /// greatest id at either end of any edge.
    fn num_nodes(&self) -> (n: usize)
        requires
            self.well_formed(),
        ensures
            n == node_count(self@),
    ;

    /// The number of edges. An edge that was added twice counts twice.
    fn num_edges(&self) -> (m: usize)
        requires
            self.well_formed(),
        ensures
            m == self@.len(),
    ;

    /// Whether at least one edge leads from `from` to `to`.
    fn has_edge(&self, from: Node, to: Node) -> (found: bool)
        requires
            self.well_formed(),
        ensures
            found == self@.contains(Edge(from, to)),
    ;

    /// The targets of the edges that leave `from`, one entry for each edge,
    /// in the order of the representation. A node without edges, or one
    /// that the graph does not have, has none.
    fn neighbors(&self, from: Node) -> (ns: Vec<Node>)
        requires
            self.well_formed(),
        ensures
            ns@ == out_neighbors(self@, from),
    ;

    /// Removes all edges and with them all nodes.
    fn clear(&mut self)
        ensures
            final(self).well_formed(),
            final(self)@ == Seq::<Edge>::empty(),
    ;
}

/// A graph that grows edge by edge.
pub trait Graph: StaticGraph {
    /// A graph without edges.
    fn new() -> (g: Self)
        ensures
            g.well_formed(),
            g@ == Seq::<Edge>::empty(),
    ;

    /// Adds one edge from `from` to `to`, behind the edges that leave `from`
    /// already. Neither id may be `usize::MAX`, and the number of edges must
    /// stay within `usize`.
    fn add_edge(&mut self, from: Node, to: Node)
        requires
            old(self).well_formed(),
            from < usize::MAX,
            to < usize::MAX,
            old(self)@.len() < usize::MAX,
        ensures
            final(self).well_formed(),
            final(self)@.len() == old(self)@.len() + 1,
            same_adjacency(final(self)@, old(self)@.push(Edge(from, to))),
    ;
}

} // verus!
