//! The record of a breadth-first exploration, and the steps by which one
//! grows.
//!
//! An exploration keeps a cursor: the position `head` of the node whose
//! neighbors are being looked at, and the number `seen` of its neighbors
//! looked at so far. Every algorithm of this crate moves that cursor in the
//! same way; they differ in what they note down on the way.

use vstd::prelude::*;
use crate::model::{node_count, out_neighbors};
use crate::traits::{Edge, Node};

verus! {

/// What a breadth-first exploration has found: the nodes in the order in
/// which they were first seen, and for each node but the first where it was
/// first seen, as neighbor number `slot[i]` of the node at `parent[i]`.
#[verifier::ext_equal]
pub struct Discovery {
    pub order: Seq<Node>,
    pub parent: Seq<int>,
    pub slot: Seq<int>,
}

impl Discovery {
    /// The record of an exploration that has seen its start and nothing else.
    pub open spec fn at_start(start: Node) -> Discovery {
        Discovery { order: seq![start], parent: seq![0int], slot: seq![0int] }
    }

    /// The record after `w` was first seen, as neighbor `slot` of the node
    /// at `parent`.
    pub open spec fn found(self, w: Node, parent: int, slot: int) -> Discovery {
        Discovery {
            order: self.order.push(w),
            parent: self.parent.push(parent),
            slot: self.slot.push(slot),
        }
    }

    /// The number of nodes seen.
    pub open spec fn len(self) -> int {
        self.order.len() as int
    }

    /// The record begins with `start` and names no node twice.
    pub open spec fn well_shaped(self, start: Node) -> bool {
        &&& self.order.len() >= 1
        &&& self.parent.len() == self.order.len()
        &&& self.slot.len() == self.order.len()
        &&& self.order[0] == start
        &&& self.parent[0] == 0
        &&& self.slot[0] == 0
        &&& self.order.no_duplicates()
    }

    /// The node at `i` was first seen where the record says: it is neighbor
    /// `slot[i]` of the node at `parent[i]`, which stands before it, and it
    /// is no earlier neighbor of that node nor a neighbor of any node before
    /// that one.
    pub open spec fn seen_at(self, es: Seq<Edge>, i: int) -> bool {
        let ns = out_neighbors(es, self.order[self.parent[i]]);
        &&& 0 <= self.parent[i] < i
        &&& 0 <= self.slot[i] < ns.len()
        &&& ns[self.slot[i]] == self.order[i]
        &&& forall|b: int| 0 <= b < self.slot[i] ==> ns[b] != self.order[i]
        &&& forall|k: int|
            0 <= k < self.parent[i] ==> !(#[trigger] out_neighbors(es, self.order[k])).contains(
                self.order[i],
            )
    }

    /// Every node but the first was first seen where the record says.
    pub open spec fn first_sightings(self, es: Seq<Edge>) -> bool {
        forall|i: int| 1 <= i < self.len() ==> #[trigger] self.seen_at(es, i)
    }

    /// The place where the node at `i` was seen comes before `(parent, slot)`.
    pub open spec fn seen_before(self, i: int, parent: int, slot: int) -> bool {
        self.parent[i] < parent || (self.parent[i] == parent && self.slot[i] < slot)
    }

    /// The nodes stand in the order of the places where they were seen.
    pub open spec fn in_order(self) -> bool {
        forall|i: int, j: int|
            1 <= i < j < self.len() ==> #[trigger] self.seen_before(i, self.parent[j], self.slot[j])
    }

    /// The first `upto` neighbors of the node at `k` have all been seen.
    pub open spec fn covers(self, es: Seq<Edge>, k: int, upto: int) -> bool {
        forall|b: int|
            0 <= b < upto ==> self.order.contains(#[trigger] out_neighbors(es, self.order[k])[b])
    }

    /// All neighbors of the first `head` nodes have been seen.
    pub open spec fn closed_upto(self, es: Seq<Edge>, head: int) -> bool {
        forall|k: int|
            0 <= k < head ==> #[trigger] self.covers(
                es,
                k,
                out_neighbors(es, self.order[k]).len() as int,
            )
    }

    /// The predecessor array over `n` nodes that the record stands for: the
    /// start is its own predecessor, every other node that was seen has the
    /// node it was first seen from, and a node that was not seen has none.
    pub open spec fn tree(self, n: nat) -> Seq<Option<Node>> {
        Seq::new(
            n,
            |v: int|
                if self.order.contains(v as Node) {
                    Some(self.order[self.parent[self.order.index_of(v as Node)]])
                } else {
                    None
                },
        )
    }

    /// How many steps from parent to parent lead from the node at `i` to the
    /// start.
    pub open spec fn depth(self, i: int) -> nat
        decreases i,
    {
        if i <= 0 || !(0 <= self.parent[i] < i) {
            0
        } else {
            self.depth(self.parent[i]) + 1
        }
    }
}

/// `d` records a breadth-first exploration of `es` from `start` that has
/// looked at all neighbors of the first `head` nodes and at the first `seen`
/// neighbors of the node at `head`, and at nothing else.
pub open spec fn exploring(es: Seq<Edge>, start: Node, d: Discovery, head: int, seen: int) -> bool {
    &&& d.well_shaped(start)
    &&& d.first_sightings(es)
    &&& d.in_order()
    &&& 0 <= head <= d.len()
    &&& 0 <= seen
    &&& head < d.len() ==> seen <= out_neighbors(es, d.order[head]).len()
    &&& head == d.len() ==> seen == 0
    &&& d.closed_upto(es, head)
    &&& d.covers(es, head, seen)
    &&& forall|i: int| 1 <= i < d.len() ==> #[trigger] d.seen_before(i, head, seen)
}

/// `d` records a finished breadth-first exploration of `es` from `start`.
pub open spec fn explored(es: Seq<Edge>, start: Node, d: Discovery) -> bool {
    exploring(es, start, d, d.len(), 0)
}

/// `pred` is the predecessor array of a finished breadth-first exploration
/// of `es` from `start`.
pub open spec fn is_bfs_tree(es: Seq<Edge>, start: Node, pred: Seq<Option<Node>>) -> bool {
    exists|d: Discovery| #[trigger] explored(es, start, d) && pred == d.tree(node_count(es))
}

/// The queue holds the nodes from position `from` of the record on, the
/// one that was seen last at its front.
pub open spec fn queue_holds(q: Seq<Node>, d: Discovery, from: int) -> bool {
    &&& q.len() == d.len() - from
    &&& forall|i: int| 0 <= i < q.len() ==> q[i] == d.order[d.len() - 1 - i]
}

/// Distinct nodes below `n` are at most `n`.
pub proof fn lemma_distinct_below(s: Seq<Node>, n: nat)
    requires
        s.no_duplicates(),
        forall|i: int| 0 <= i < s.len() ==> s[i] < n,
    ensures
        s.len() <= n,
    decreases n,
{
    if s.len() > 0 {
        assert(s[0] < n);
        let top = (n - 1) as Node;
        if s.contains(top) {
            let k = choose|k: int| 0 <= k < s.len() && s[k] == top;
            let rest = s.remove(k);
            assert forall|i: int| 0 <= i < rest.len() implies rest[i] < n - 1 by {
                if i < k {
                    assert(rest[i] == s[i]);
                } else {
                    assert(rest[i] == s[i + 1]);
                }
            }
            assert(rest.no_duplicates());
            lemma_distinct_below(rest, (n - 1) as nat);
        } else {
            assert forall|i: int| 0 <= i < s.len() implies s[i] < n - 1 by {
                assert(s.contains(s[i]));
            }
            lemma_distinct_below(s, (n - 1) as nat);
        }
    }
}

/// The predecessor array after a node was first seen: the array before,
/// with the node's entry set to the node it was seen from.
pub proof fn lemma_tree_found(
    es: Seq<Edge>,
    d: Discovery,
    start: Node,
    n: nat,
    w: Node,
    head: int,
    seen: int,
)
    requires
        d.well_shaped(start),
        d.first_sightings(es),
        0 <= head < d.len(),
        !d.order.contains(w),
        w < n <= usize::MAX,
    ensures
        d.found(w, head, seen).tree(n) == d.tree(n).update(w as int, Some(d.order[head])),
{
    let e = d.found(w, head, seen);
    let last = d.len();
    assert(e.order[last] == w);
    assert forall|v: int| 0 <= v < n implies e.tree(n)[v] == d.tree(n).update(
        w as int,
        Some(d.order[head]),
    )[v] by {
        let x = v as Node;
        if x == w {
            assert(e.order.contains(w));
            let at = e.order.index_of(w);
            assert(e.order[at] == w);
            if at < last {
                assert(d.order[at] == w);
                assert(d.order.contains(w));
            }
            assert(e.order[e.parent[at]] == d.order[head]);
        } else if d.order.contains(x) {
            let i = d.order.index_of(x);
            assert(d.order[i] == x);
            assert(e.order[i] == x);
            assert(e.order.contains(x));
            let at = e.order.index_of(x);
            assert(e.order[at] == x);
            assert(at < last);
            assert(d.order[at] == x);
            assert(at == i);
            if i >= 1 {
                assert(d.seen_at(es, i));
            }
            assert(e.order[e.parent[at]] == d.order[d.parent[i]]);
        } else if e.order.contains(x) {
            let at = e.order.index_of(x);
            assert(e.order[at] == x);
            assert(d.order[at] == x);
            assert(d.order.contains(x));
        }
    }
    assert(e.tree(n) =~= d.tree(n).update(w as int, Some(d.order[head])));
}

/// An exploration begins with its start seen and the cursor before the
/// first neighbor of the start.
pub proof fn lemma_explore_start(es: Seq<Edge>, start: Node)
    ensures
        exploring(es, start, Discovery::at_start(start), 0, 0),
{
}

/// A neighbor that was seen before moves the cursor on and changes nothing.
pub proof fn lemma_explore_skip(es: Seq<Edge>, start: Node, d: Discovery, head: int, seen: int)
    requires
        exploring(es, start, d, head, seen),
        head < d.len(),
        seen < out_neighbors(es, d.order[head]).len(),
        d.order.contains(out_neighbors(es, d.order[head])[seen]),
    ensures
        exploring(es, start, d, head, seen + 1),
{
    assert forall|i: int| 1 <= i < d.len() implies #[trigger] d.seen_before(i, head, seen + 1) by {
        assert(d.seen_before(i, head, seen));
    }
}

/// A neighbor that was not seen before joins the record at its end, with
/// the cursor as the place where it was seen.
pub proof fn lemma_explore_find(es: Seq<Edge>, start: Node, d: Discovery, head: int, seen: int)
    requires
        exploring(es, start, d, head, seen),
        head < d.len(),
        seen < out_neighbors(es, d.order[head]).len(),
        !d.order.contains(out_neighbors(es, d.order[head])[seen]),
    ensures
        exploring(
            es,
            start,
            d.found(out_neighbors(es, d.order[head])[seen], head, seen),
            head,
            seen + 1,
        ),
{
    let ns = out_neighbors(es, d.order[head]);
    let w = ns[seen];
    let e = d.found(w, head, seen);
    let last = d.len();
    assert(e.len() == last + 1);
    assert forall|i: int| 0 <= i < last implies e.order[i] == d.order[i] && e.parent[i]
        == d.parent[i] && e.slot[i] == d.slot[i] by {}
    assert forall|x: Node| d.order.contains(x) implies e.order.contains(x) by {
        let i = choose|i: int| 0 <= i < d.order.len() && d.order[i] == x;
        assert(e.order[i] == x);
    }
    assert(e.order.no_duplicates()) by {
        assert forall|i: int, j: int| 0 <= i < e.order.len() && 0 <= j < e.order.len() && i != j implies
            e.order[i] != e.order[j] by {
            if i < last && j < last {
                assert(d.order[i] != d.order[j]);
            } else if i < last {
                assert(d.order.contains(d.order[i]));
            } else {
                assert(d.order.contains(d.order[j]));
            }
        }
    }
    assert forall|i: int| 1 <= i < e.len() implies #[trigger] e.seen_at(es, i) by {
        if i < last {
            assert(d.seen_at(es, i));
        } else {
            assert forall|b: int| 0 <= b < seen implies ns[b] != w by {
                assert(d.order.contains(out_neighbors(es, d.order[head])[b]));
            }
            assert forall|k: int| 0 <= k < head implies !(#[trigger] out_neighbors(
                es,
                e.order[k],
            )).contains(w) by {
                let nk = out_neighbors(es, d.order[k]);
                assert(d.covers(es, k, nk.len() as int));
                if nk.contains(w) {
                    let b = choose|b: int| 0 <= b < nk.len() && nk[b] == w;
                    assert(d.order.contains(out_neighbors(es, d.order[k])[b]));
                }
            }
        }
    }
    assert forall|i: int| 1 <= i < e.len() implies #[trigger] e.seen_before(i, head, seen + 1) by {
        if i < last {
            assert(d.seen_before(i, head, seen));
        }
    }
    assert forall|i: int, j: int| 1 <= i < j < e.len() implies #[trigger] e.seen_before(
        i,
        e.parent[j],
        e.slot[j],
    ) by {
        if j < last {
            assert(d.seen_before(i, d.parent[j], d.slot[j]));
        } else {
            assert(d.seen_before(i, head, seen));
        }
    }
    assert forall|k: int| 0 <= k < head implies #[trigger] e.covers(
        es,
        k,
        out_neighbors(es, e.order[k]).len() as int,
    ) by {
        assert(d.covers(es, k, out_neighbors(es, d.order[k]).len() as int));
    }
    assert forall|b: int| 0 <= b < seen + 1 implies e.order.contains(
        #[trigger] out_neighbors(es, e.order[head])[b],
    ) by {
        if b < seen {
            assert(d.order.contains(out_neighbors(es, d.order[head])[b]));
        } else {
            assert(e.order[last] == w);
        }
    }
}

/// When all neighbors of a node have been looked at, the cursor moves to
/// the node that was seen next.
pub proof fn lemma_explore_next(es: Seq<Edge>, start: Node, d: Discovery, head: int, seen: int)
    requires
        exploring(es, start, d, head, seen),
        head < d.len(),
        seen == out_neighbors(es, d.order[head]).len(),
    ensures
        exploring(es, start, d, head + 1, 0),
{
    assert forall|i: int| 1 <= i < d.len() implies #[trigger] d.seen_before(i, head + 1, 0) by {
        assert(d.seen_before(i, head, seen));
    }
    assert forall|k: int| 0 <= k < head + 1 implies #[trigger] d.covers(
        es,
        k,
        out_neighbors(es, d.order[k]).len() as int,
    ) by {}
}

} // verus!
