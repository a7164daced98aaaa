//! Edges at hand as a generator.

use vstd::prelude::*;
use crate::model::node_count;
use crate::traits::{Edge, Generator};

verus! {

/// A vector of edges generates just these edges, in their order. It can
/// stand wherever a generator is asked for: to build a graph from edges
/// that are at hand, or from what another generator handed out once.
impl Generator for Vec<Edge> {
    open spec fn well_formed(&self) -> bool {
        node_count(self@) <= usize::MAX
    }

    open spec fn yields(&self, es: Seq<Edge>) -> bool {
        es == self@
    }

    fn edges(&self) -> (es: Vec<Edge>) {
        let es = self.clone();
        assert(es@ =~= self@);
        es
    }
}

} // verus!
