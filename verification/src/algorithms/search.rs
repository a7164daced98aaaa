//! The algorithms as methods of every graph.

use vstd::prelude::*;
use crate::algorithms::bfs::breadth_first_search;
use crate::algorithms::discovery::is_bfs_tree;
use crate::algorithms::property::{has_cycle, is_bipartite, layers_alternate, revisits};
use crate::model::node_count;
use crate::traits::{Node, StaticGraph};

verus! {

/// The algorithms of this crate in method form. Every graph has them.
pub trait Search: StaticGraph {
    /// The predecessor array of a breadth-first search from `start`.
    fn breadth_first_search(&self, start: Node) -> (pred: Vec<Option<Node>>)
        requires
            self.well_formed(),
            start < node_count(self@),
        ensures
            is_bfs_tree(self@, start, pred@),
    ;

    /// Whether what can be reached from node 0 is bipartite.
    fn is_bipartite(&self) -> (bipartite: bool)
        requires
            self.well_formed(),
        ensures
            bipartite == (node_count(self@) <= 1 || layers_alternate(self@, 0)),
    ;

    /// Whether an exploration from node 0 meets a node a second time.
    fn has_cycle(&self) -> (cyclic: bool)
        requires
            self.well_formed(),
        ensures
            cyclic == (node_count(self@) > 0 && revisits(self@, 0)),
    ;
}

impl<T: StaticGraph> Search for T {
    fn breadth_first_search(&self, start: Node) -> (pred: Vec<Option<Node>>) {
        breadth_first_search(self, start)
    }

    fn is_bipartite(&self) -> (bipartite: bool) {
        is_bipartite(self)
    }

    fn has_cycle(&self) -> (cyclic: bool) {
        has_cycle(self)
    }
}

} // verus!
