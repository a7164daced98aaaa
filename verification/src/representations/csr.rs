//! Compressed sparse rows: all targets in one array, ordered by source, and
//! one array that says where each node's targets begin.

use vstd::prelude::*;
use crate::model::{
    by_source, flatten, grouped, lemma_flatten_index, lemma_flatten_neighbors,
    lemma_flatten_prefix, lemma_flatten_take, lemma_grouped_same_adjacency, lemma_node_count_covers,
    lemma_out_neighbors_contains, lemma_out_neighbors_empty, lemma_out_neighbors_len,
    lemma_out_neighbors_push, lemma_out_neighbors_take, lemma_same_adjacency_multiset,
    lemma_same_adjacency_node_count, node_count, out_neighbors, same_adjacency,
};
use crate::representations::edge_list::EdgeList;
use crate::traits::{Edge, Generator, Node, StaticGraph};

verus! {

/// The buckets that row offsets cut out of a column array: bucket `u` is
/// `col[row[u]..row[u + 1]]`.
pub open spec fn row_buckets(row: Seq<usize>, col: Seq<Node>) -> Seq<Seq<Node>> {
    Seq::new(
        if row.len() == 0 { 0 } else { (row.len() - 1) as nat },
        |u: int| col.subrange(row[u] as int, row[u + 1] as int),
    )
}

/// Row offsets that cut a column array into consecutive buckets: they start
/// at 0, never decrease, and end at the length of the column array.
pub open spec fn rows_partition(row: Seq<usize>, col: Seq<Node>) -> bool {
    &&& 0 < row.len() <= usize::MAX
    &&& row[0] == 0
    &&& row[row.len() - 1] == col.len()
    &&& forall|i: int, j: int| 0 <= i <= j < row.len() ==> row[i] <= row[j]
}

/// The edges of the first `u` buckets are as many as `row[u]` says.
pub proof fn lemma_row_is_offset(row: Seq<usize>, col: Seq<Node>, u: int)
    requires
        rows_partition(row, col),
        0 <= u < row.len(),
    ensures
        flatten(row_buckets(row, col).take(u)).len() == row[u],
    decreases u,
{
    let buckets = row_buckets(row, col);
    if u == 0 {
        assert(buckets.take(0) =~= Seq::<Seq<Node>>::empty());
    } else {
        lemma_row_is_offset(row, col, u - 1);
        lemma_flatten_take(buckets, u - 1);
    }
}

/// The flattened buckets are the column array with a source at each entry:
/// the entry at `i` belongs to the node `u` with `row[u] <= i < row[u + 1]`.
pub proof fn lemma_row_buckets_index(row: Seq<usize>, col: Seq<Node>, u: int, i: int)
    requires
        rows_partition(row, col),
        0 <= u < row.len() - 1,
        row[u] <= i < row[u + 1],
    ensures
        flatten(row_buckets(row, col)).len() == col.len(),
        flatten(row_buckets(row, col))[i] == Edge(u as usize, col[i]),
{
    let buckets = row_buckets(row, col);
    lemma_row_is_offset(row, col, row.len() - 1);
    assert(buckets.take(row.len() - 1) =~= buckets);
    lemma_row_is_offset(row, col, u);
    lemma_flatten_index(buckets, u, i - row[u]);
}

/// How many edges of `es` leave a node below `u`: where the targets of `u`
/// begin once `es` is grouped by source.
pub open spec fn offset(es: Seq<Edge>, u: int) -> nat {
    flatten(by_source(es, node_count(es)).take(u)).len()
}

/// `counts[u]` is the number of edges among the first `k` that leave `u`.
spec fn counts_upto(es: Seq<Edge>, k: int, counts: Seq<usize>) -> bool {
    forall|u: Node|
        u < counts.len() ==> counts[u as int] == (#[trigger] out_neighbors(es.take(k), u)).len()
}

/// `row` holds the offset of every node of `es`, and the number of edges at
/// its end.
spec fn rows_are_offsets(es: Seq<Edge>, row: Seq<usize>) -> bool {
    &&& row.len() == node_count(es) + 1
    &&& forall|u: int| 0 <= u < row.len() ==> #[trigger] row[u] == offset(es, u)
}

/// Position `p` lies in the part of some row that the cursors `idx` have
/// passed.
spec fn filled(row: Seq<usize>, idx: Seq<usize>, p: int) -> bool {
    exists|u: int| 0 <= u < idx.len() && row[u] <= p < row[u] + #[trigger] idx[u]
}

/// Every filled position of `col` holds the target that `es`, grouped by
/// source, has there.
spec fn scattered(es: Seq<Edge>, row: Seq<usize>, idx: Seq<usize>, col: Seq<Node>) -> bool {
    forall|p: int| 0 <= p < col.len() && filled(row, idx, p) ==> #[trigger] col[p] == grouped(es)[p].1
}

/// Before any edge is counted, every count is 0.
proof fn lemma_counts_start(es: Seq<Edge>, counts: Seq<usize>)
    requires
        forall|u: int| 0 <= u < counts.len() ==> counts[u] == 0,
    ensures
        counts_upto(es, 0, counts),
{
    assert(es.take(0) =~= Seq::<Edge>::empty());
    assert forall|u: Node| u < counts.len() implies counts[u as int] == (#[trigger] out_neighbors(
        es.take(0),
        u,
    )).len() by {
        lemma_out_neighbors_empty(u);
    }
}

/// Counting the edge at `k` keeps the counts right, and does not overflow.
proof fn lemma_counts_step(es: Seq<Edge>, k: int, counts: Seq<usize>)
    requires
        0 <= k < es.len() <= usize::MAX,
        counts.len() == node_count(es),
        counts_upto(es, k, counts),
    ensures
        es[k].0 < counts.len(),
        counts[es[k].0 as int] < es.len(),
        counts_upto(es, k + 1, counts.update(es[k].0 as int, (counts[es[k].0 as int] + 1) as usize)),
{
    let e = es[k];
    lemma_node_count_covers(es, k);
    lemma_out_neighbors_len(es.take(k), e.0);
    assert(counts[e.0 as int] == out_neighbors(es.take(k), e.0).len());
    assert(es.take(k + 1) =~= es.take(k).push(e));
    let next = counts.update(e.0 as int, (counts[e.0 as int] + 1) as usize);
    assert forall|u: Node| u < next.len() implies next[u as int] == (#[trigger] out_neighbors(
        es.take(k + 1),
        u,
    )).len() by {
        lemma_out_neighbors_push(es.take(k), e, u);
        assert(counts[u as int] == out_neighbors(es.take(k), u).len());
    }
}

/// The offset of the next node is the offset of this one and its out-degree,
/// and no offset exceeds the number of edges.
proof fn lemma_offset_step(es: Seq<Edge>, u: int)
    requires
        0 <= u < node_count(es) <= usize::MAX,
    ensures
        offset(es, u + 1) == offset(es, u) + out_neighbors(es, u as usize).len(),
        offset(es, u + 1) <= grouped(es).len(),
{
    let buckets = by_source(es, node_count(es));
    lemma_flatten_take(buckets, u);
    lemma_flatten_prefix(buckets, u + 1);
}

/// Writing the target of the edge at `k` into the next free slot of its
/// source stays inside the column array and keeps what was written right.
proof fn lemma_scatter_step(es: Seq<Edge>, k: int, row: Seq<usize>, idx: Seq<usize>, col: Seq<Node>)
    requires
        0 <= k < es.len() <= usize::MAX,
        node_count(es) <= usize::MAX,
        idx.len() == node_count(es),
        col.len() == es.len(),
        rows_are_offsets(es, row),
        counts_upto(es, k, idx),
        scattered(es, row, idx, col),
    ensures
        es[k].0 < idx.len(),
        row[es[k].0 as int] + idx[es[k].0 as int] < col.len(),
        counts_upto(es, k + 1, idx.update(es[k].0 as int, (idx[es[k].0 as int] + 1) as usize)),
        scattered(
            es,
            row,
            idx.update(es[k].0 as int, (idx[es[k].0 as int] + 1) as usize),
            col.update(row[es[k].0 as int] + idx[es[k].0 as int], es[k].1),
        ),
{
    let e = es[k];
    let u = e.0;
    let c = idx[u as int];
    let at = row[u as int] + c;
    let buckets = by_source(es, node_count(es));
    lemma_counts_step(es, k, idx);
    lemma_grouped_same_adjacency(es);
    lemma_same_adjacency_multiset(grouped(es), es);
    // The edge at `k` is entry `c` among the neighbors of its source.
    assert(es.take(k + 1) =~= es.take(k).push(e));
    lemma_out_neighbors_push(es.take(k), e, u);
    lemma_out_neighbors_take(es, u, k + 1);
    assert(c == out_neighbors(es.take(k), u).len());
    assert(out_neighbors(es, u)[c as int] == e.1);
    assert(buckets[u as int] == out_neighbors(es, u));
    lemma_flatten_index(buckets, u as int, c as int);
    assert(row[u as int] == offset(es, u as int));
    assert(grouped(es)[at] == Edge(u, e.1));

    let idx2 = idx.update(u as int, (c + 1) as usize);
    let col2 = col.update(at, e.1);
    assert forall|p: int| 0 <= p < col2.len() && filled(row, idx2, p) implies #[trigger] col2[p]
        == grouped(es)[p].1 by {
        if p != at {
            let w = choose|w: int| 0 <= w < idx2.len() && row[w] <= p < row[w] + #[trigger] idx2[w];
            assert(row[w] <= p < row[w] + idx[w]);
            assert(filled(row, idx, p));
            assert(col[p] == grouped(es)[p].1);
        }
    }
}

/// Once every edge is written, the column array cut by the row offsets is
/// `es` grouped by source.
proof fn lemma_scatter_done(es: Seq<Edge>, row: Seq<usize>, idx: Seq<usize>, col: Seq<Node>)
    requires
        node_count(es) <= usize::MAX,
        es.len() <= usize::MAX,
        row.len() <= usize::MAX,
        idx.len() == node_count(es),
        col.len() == es.len(),
        rows_are_offsets(es, row),
        counts_upto(es, es.len() as int, idx),
        scattered(es, row, idx, col),
    ensures
        rows_partition(row, col),
        flatten(row_buckets(row, col)) == grouped(es),
{
    let n = node_count(es);
    let buckets = by_source(es, n);
    lemma_grouped_same_adjacency(es);
    lemma_same_adjacency_multiset(grouped(es), es);
    assert(es.take(es.len() as int) =~= es);
    assert(buckets.take(0) =~= Seq::<Seq<Node>>::empty());
    assert(buckets.take(n as int) =~= buckets);
    assert(row[0] == offset(es, 0));
    assert(row[n as int] == offset(es, n as int));
    assert forall|a: int, b: int| 0 <= a <= b < row.len() implies row[a] <= row[b] by {
        lemma_offsets_ascend(es, a, b);
        assert(row[a] == offset(es, a));
        assert(row[b] == offset(es, b));
    }
    assert forall|u: int| 0 <= u < n implies (#[trigger] row_buckets(row, col)[u]) == buckets[u] by {
        lemma_offset_step(es, u);
        assert(row[u] == offset(es, u));
        assert(row[u + 1] == offset(es, u + 1));
        assert(idx[u] == out_neighbors(es.take(es.len() as int), u as usize).len());
        assert forall|j: int| 0 <= j < buckets[u].len() implies col.subrange(
            row[u] as int,
            row[u + 1] as int,
        )[j] == buckets[u][j] by {
            lemma_flatten_index(buckets, u, j);
            assert(filled(row, idx, row[u] + j));
            assert(col[row[u] + j] == grouped(es)[row[u] + j].1);
        }
        assert(row_buckets(row, col)[u] =~= buckets[u]);
    }
    assert(row_buckets(row, col) =~= buckets);
}

/// Offsets never decrease.
proof fn lemma_offsets_ascend(es: Seq<Edge>, a: int, b: int)
    requires
        0 <= a <= b <= node_count(es) <= usize::MAX,
    ensures
        offset(es, a) <= offset(es, b),
    decreases b - a,
{
    if a < b {
        lemma_offsets_ascend(es, a, b - 1);
        lemma_offset_step(es, b - 1);
    }
}

/// A graph in compressed sparse rows. It is built in one step from a
/// generator and not changed after that, except to be emptied.
#[derive(Clone, Debug)]
pub struct Csr {
    col: Vec<Node>,
    row: Vec<usize>,
    num_edges: usize,
}

impl View for Csr {
    type V = Seq<Edge>;

    closed spec fn view(&self) -> Seq<Edge> {
        flatten(row_buckets(self.row@, self.col@))
    }
}

impl Csr {
    /// The row offsets: one for each node and one more, or none at all
    /// after `clear`.
    pub closed spec fn row_offsets(&self) -> Seq<usize> {
        self.row@
    }

    /// The row offsets of a graph that was built from the edges `source`,
    /// or from any edges with the same adjacency: there is one for each node
    /// and one more, they start at 0, never decrease and end at the number
    /// of edges, and two neighboring ones differ by the out-degree that the
    /// node between them has in `source`.
    pub proof fn lemma_row_invariant(&self, source: Seq<Edge>)
        requires
            self.well_formed(),
            self.row_offsets().len() > 0,
            same_adjacency(self@, source),
        ensures
            self.row_offsets().len() == node_count(source) + 1,
            self.row_offsets()[0] == 0,
            self.row_offsets()[node_count(source) as int] == source.len(),
            forall|i: int, j: int|
                0 <= i <= j < self.row_offsets().len() ==> self.row_offsets()[i]
                    <= self.row_offsets()[j],
            forall|u: Node|
                u < node_count(source) ==> (#[trigger] out_neighbors(source, u)).len()
                    == self.row_offsets()[u + 1] - self.row_offsets()[u as int],
    {
        let buckets = row_buckets(self.row@, self.col@);
        lemma_same_adjacency_multiset(self@, source);
        lemma_same_adjacency_node_count(self@, source);
        lemma_row_is_offset(self.row@, self.col@, self.row@.len() - 1);
        assert(buckets.take(self.row@.len() - 1) =~= buckets);
        assert forall|u: Node| u < node_count(source) implies (#[trigger] out_neighbors(
            source,
            u,
        )).len() == self.row@[u + 1] - self.row@[u as int] by {
            lemma_flatten_neighbors(buckets, u);
            assert(out_neighbors(self@, u) == out_neighbors(source, u));
        }
    }

    /// The neighbors of `vertex` as they lie in the column array, without
    /// a copy. A node that the graph does not have has none.
    pub fn neighbors(&self, vertex: Node) -> (ns: &[Node])
        requires
            self.well_formed(),
        ensures
            ns@ == out_neighbors(self@, vertex),
    {
        proof {
            assert(self.row@.len() == self.row.len());
            lemma_flatten_neighbors(row_buckets(self.row@, self.col@), vertex);
        }
        if self.row.len() == 0 || self.row.len() - 1 <= vertex {
            &[]
        } else {
            let begin = self.row[vertex];
            let end = self.row[vertex + 1];
            &self.col.as_slice()[begin..end]
        }
    }

    /// All edges, source by source.
    fn edge_iter(&self) -> (it: CsrIterator<'_>)
        requires
            self.well_formed(),
        ensures
            it.well_formed(),
            it.remaining() == self@,
    {
        proof {
            assert(self@.skip(0) =~= self@);
        }
        CsrIterator { csr: self, idx: 0, u: 0 }
    }
}

/// A cursor over the edges of a `Csr`, in the order of its column array.
struct CsrIterator<'a> {
    csr: &'a Csr,
    idx: usize,
    u: usize,
}

impl<'a> CsrIterator<'a> {
    /// The cursor stands inside the column array, and the row it remembers
    /// does not begin behind it.
    closed spec fn well_formed(&self) -> bool {
        &&& self.csr.well_formed()
        &&& self.idx <= self.csr.col@.len()
        &&& self.csr.row@.len() == 0 ==> self.u == 0
        &&& self.csr.row@.len() > 0 ==> self.u < self.csr.row@.len() && self.csr.row@[self.u as int]
            <= self.idx
    }

    /// The edges that the cursor has not handed out yet.
    closed spec fn remaining(&self) -> Seq<Edge> {
        self.csr@.skip(self.idx as int)
    }

    /// Hands out the next edge, or `None` when there is none left.
    fn next(&mut self) -> (r: Option<Edge>)
        requires
            old(self).well_formed(),
        ensures
            final(self).well_formed(),
            match r {
                Some(e) => old(self).remaining().len() > 0 && e == old(self).remaining()[0]
                    && final(self).remaining() == old(self).remaining().drop_first(),
                None => old(self).remaining().len() == 0 && final(self).remaining().len() == 0,
            },
    {
        let csr = self.csr;
        if self.idx >= csr.num_edges {
            proof {
                if csr.row@.len() > 0 {
                    lemma_row_is_offset(csr.row@, csr.col@, csr.row@.len() - 1);
                    assert(row_buckets(csr.row@, csr.col@).take(csr.row@.len() - 1)
                        =~= row_buckets(csr.row@, csr.col@));
                }
            }
            None
        } else {
            while csr.row[self.u + 1] <= self.idx
                invariant
                    csr == self.csr,
                    csr == old(self).csr,
                    self.idx == old(self).idx,
                    csr.well_formed(),
                    self.idx < csr.col@.len(),
                    self.u + 1 < csr.row@.len(),
                    csr.row@[self.u as int] <= self.idx,
                decreases csr.row@.len() - self.u,
            {
                self.u += 1;
            }
            proof {
                lemma_row_buckets_index(csr.row@, csr.col@, self.u as int, self.idx as int);
            }
            let e = Edge::new(self.u, csr.col[self.idx]);
            self.idx += 1;
            assert(self.remaining() =~= old(self).remaining().drop_first());
            Some(e)
        }
    }
}

impl Generator for Csr {
    closed spec fn well_formed(&self) -> bool {
        &&& self.num_edges == self.col@.len()
        &&& node_count(self@) <= usize::MAX
        &&& self.row@.len() == 0 ==> self.col@.len() == 0
        &&& self.row@.len() > 0 ==> rows_partition(self.row@, self.col@) && node_count(self@)
            == self.row@.len() - 1
    }

    open spec fn yields(&self, es: Seq<Edge>) -> bool {
        es == self@
    }

    fn edges(&self) -> (es: Vec<Edge>) {
        let mut it = self.edge_iter();
        let mut es: Vec<Edge> = Vec::new();
        loop
            invariant
                it.well_formed(),
                es@ + it.remaining() == self@,
            ensures
                es@ == self@,
            decreases it.remaining().len(),
        {
            match it.next() {
                Some(e) => {
                    proof {
                        assert(es@.push(e) + it.remaining() =~= es@ + (seq![e] + it.remaining()));
                    }
                    es.push(e);
                },
                None => {
                    assert(es@ + it.remaining() =~= es@);
                    break ;
                },
            }
        }
        es
    }
}

impl StaticGraph for Csr {
    proof fn lemma_yields_view(&self, es: Seq<Edge>) {
    }

    fn from_generator<T: Generator>(gen: &T) -> (g: Self)
        ensures
            exists|es: Seq<Edge>| #[trigger] gen.yields(es) && g@ == grouped(es),
            g.row_offsets().len() == node_count(g@) + 1,
    {
        let el = EdgeList::from_generator(gen);
        let n = el.num_nodes();
        let m = el.num_edges();
        let es = el.edges();
        let ghost s = es@;
        proof {
            lemma_grouped_same_adjacency(s);
            lemma_same_adjacency_multiset(grouped(s), s);
            lemma_same_adjacency_node_count(grouped(s), s);
        }

        // Count pass: the out-degree of every node.
        let mut deg: Vec<usize> = vec![0; n];
        let mut k: usize = 0;
        proof {
            lemma_counts_start(s, deg@);
        }
        while k < es.len()
            invariant
                0 <= k <= es.len(),
                es@ == s,
                deg.len() == n == node_count(s),
                counts_upto(s, k as int, deg@),
            decreases es.len() - k,
        {
            let u = es[k].source();
            proof {
                lemma_counts_step(s, k as int, deg@);
            }
            let d = deg[u];
            deg[u] = d + 1;
            k += 1;
        }

        // Prefix sums: where the targets of each node begin.
        let mut row: Vec<usize> = Vec::new();
        let mut cumul: usize = 0;
        let mut i: usize = 0;
        proof {
            assert(s.take(es.len() as int) =~= s);
            assert(by_source(s, n as nat).take(0) =~= Seq::<Seq<Node>>::empty());
        }
        while i < n
            invariant
                0 <= i <= n,
                deg.len() == n == node_count(s),
                counts_upto(s, s.len() as int, deg@),
                s.take(s.len() as int) == s,
                grouped(s).len() == s.len() <= usize::MAX,
                row.len() == i,
                cumul == offset(s, i as int),
                forall|u: int| 0 <= u < i ==> #[trigger] row@[u] == offset(s, u),
            decreases n - i,
        {
            proof {
                lemma_offset_step(s, i as int);
                assert(deg@[i as int] == out_neighbors(s.take(s.len() as int), i).len());
            }
            row.push(cumul);
            cumul += deg[i];
            i += 1;
        }
        row.push(m);
        proof {
            assert(by_source(s, n as nat).take(n as int) =~= by_source(s, n as nat));
            assert(rows_are_offsets(s, row@));
        }

        // Scatter pass: every target into the next free slot of its source.
        let mut col: Vec<Node> = vec![0; m];
        let mut idx: Vec<usize> = vec![0; n];
        let mut k: usize = 0;
        proof {
            lemma_counts_start(s, idx@);
        }
        while k < es.len()
            invariant
                0 <= k <= es.len(),
                es@ == s,
                idx.len() == n == node_count(s),
                col.len() == m == s.len(),
                rows_are_offsets(s, row@),
                counts_upto(s, k as int, idx@),
                scattered(s, row@, idx@, col@),
            decreases es.len() - k,
        {
            let e = es[k];
            let u = e.source();
            proof {
                lemma_scatter_step(s, k as int, row@, idx@, col@);
            }
            let at = row[u] + idx[u];
            col[at] = e.target();
            let c = idx[u];
            idx[u] = c + 1;
            k += 1;
        }

        proof {
            assert(s.take(es.len() as int) =~= s);
            assert(row@.len() == row.len() <= usize::MAX);
            lemma_scatter_done(s, row@, idx@, col@);
            assert(gen.yields(s));
        }
        Csr { col, row, num_edges: m }
    }

    fn num_nodes(&self) -> (n: usize) {
        if self.row.len() == 0 {
            0
        } else {
            self.row.len() - 1
        }
    }

    fn num_edges(&self) -> (m: usize) {
        proof {
            if self.row@.len() > 0 {
                lemma_row_is_offset(self.row@, self.col@, self.row@.len() - 1);
                assert(row_buckets(self.row@, self.col@).take(self.row@.len() - 1)
                    =~= row_buckets(self.row@, self.col@));
            }
        }
        self.num_edges
    }

    fn has_edge(&self, from: Node, to: Node) -> (found: bool) {
        proof {
            lemma_out_neighbors_contains(self@, from, to);
            lemma_flatten_neighbors(row_buckets(self.row@, self.col@), from);
        }
        if self.row.len() == 0 || self.row.len() - 1 <= from {
            return false;
        }
        let ghost bucket = out_neighbors(self@, from);
        let end = self.row[from + 1];
        let mut i: usize = self.row[from];
        while i < end
            invariant
                self.row@[from as int] <= i <= end <= self.col@.len(),
                end == self.row@[from + 1],
                from + 1 < self.row@.len(),
                bucket.contains(to) <==> self@.contains(Edge(from, to)),
                bucket == self.col@.subrange(self.row@[from as int] as int, end as int),
                forall|j: int| 0 <= j < i - self.row@[from as int] ==> bucket[j] != to,
            decreases end - i,
        {
            if self.col[i] == to {
                assert(bucket[i - self.row@[from as int]] == to);
                assert(bucket.contains(to));
                return true;
            }
            i += 1;
        }
        false
    }

    fn neighbors(&self, vertex: Node) -> (ns: Vec<Node>) {
        proof {
            lemma_flatten_neighbors(row_buckets(self.row@, self.col@), vertex);
        }
        let mut ns: Vec<Node> = Vec::new();
        if self.row.len() == 0 || self.row.len() - 1 <= vertex {
            return ns;
        }
        let end = self.row[vertex + 1];
        let begin = self.row[vertex];
        let mut i: usize = begin;
        while i < end
            invariant
                begin <= i <= end <= self.col@.len(),
                ns@ == self.col@.subrange(begin as int, i as int),
            decreases end - i,
        {
            ns.push(self.col[i]);
            assert(ns@ =~= self.col@.subrange(begin as int, i + 1));
            i += 1;
        }
        ns
    }

    fn clear(&mut self)
        ensures
            final(self).row_offsets().len() == 0,
    {
        self.col.clear();
        self.row.clear();
        self.num_edges = 0;
        proof {
            lemma_out_neighbors_empty(0);
        }
    }
}

} // verus!
