//! The complete graph.

use vstd::arithmetic::div_mod::lemma_fundamental_div_mod_converse;
use vstd::prelude::*;
use crate::model::lemma_node_count_least;
use crate::traits::{Edge, Generator};

verus! {

/// Every ordered pair of nodes below `n`, loops included: first all pairs
/// that begin with node 0, in the order of their second node, then all that
/// begin with node 1, and so on.
pub open spec fn all_pairs(n: nat) -> Seq<Edge> {
    Seq::new(n * n, |i: int| Edge((i / n as int) as usize, (i % n as int) as usize))
}

/// The generator of the complete directed graph on `n` nodes.
pub struct CompleteGraph {
    n: usize,
}

impl CompleteGraph {
    /// The number of nodes.
    pub closed spec fn size(&self) -> nat {
        self.n as nat
    }

    /// The generator of the complete graph on `n` nodes.
    pub fn new(n: usize) -> (g: CompleteGraph)
        ensures
            g.size() == n,
    {
        CompleteGraph { n }
    }
}

impl Generator for CompleteGraph {
    /// All edges at once must be no more than a vector can hold.
    open spec fn well_formed(&self) -> bool {
        self.size() * self.size() <= usize::MAX
    }

    open spec fn yields(&self, es: Seq<Edge>) -> bool {
        es == all_pairs(self.size())
    }

    fn edges(&self) -> (es: Vec<Edge>) {
        let n = self.n;
        let mut es: Vec<Edge> = Vec::new();
        let mut u: usize = 0;
        while u < n
            invariant
                0 <= u <= n,
                es@.len() == u * n,
                forall|i: int| 0 <= i < es@.len() ==> es@[i] == all_pairs(n as nat)[i],
            decreases n - u,
        {
            let mut v: usize = 0;
            while v < n
                invariant
                    0 <= u < n,
                    0 <= v <= n,
                    es@.len() == u * n + v,
                    forall|i: int| 0 <= i < es@.len() ==> es@[i] == all_pairs(n as nat)[i],
                decreases n - v,
            {
                proof {
                    let i = u * n + v;
                    lemma_fundamental_div_mod_converse(i, n as int, u as int, v as int);
                    assert(i < n * n) by (nonlinear_arith)
                        requires
                            i == u * n + v,
                            0 <= u < n,
                            0 <= v < n,
                    ;
                }
                es.push(Edge::new(u, v));
                v += 1;
            }
            proof {
                assert((u + 1) * n == u * n + n) by (nonlinear_arith);
            }
            u += 1;
        }
        proof {
            assert(es@ =~= all_pairs(n as nat));
            assert forall|i: int| 0 <= i < es@.len() implies es@[i].0 < n && es@[i].1 < n by {
                assert(es@[i] == all_pairs(n as nat)[i]);
                lemma_pair_below(n as nat, i);
            }
            lemma_node_count_least(es@, n as nat);
        }
        es
    }
}

/// Both ends of every pair are below `n`.
pub proof fn lemma_pair_below(n: nat, i: int)
    requires
        0 <= i < n * n,
        n <= usize::MAX,
    ensures
        all_pairs(n)[i].0 < n,
        all_pairs(n)[i].1 < n,
{
    let d = n as int;
    assert(0 <= i / d < d && 0 <= i % d < d) by (nonlinear_arith)
        requires
            0 <= i < d * d,
            d > 0,
    ;
}

} // verus!
