//! Graphs derived from a graph: reversal, removal of edges, merging of
//! parallel records, and contraction of an edge.

use crate::flat::lemma_flat_at;
use crate::flat::lemma_flat_len_le;
use crate::flat::lemma_push_grows_flat;
use crate::flat::lemma_flat_origin;
use crate::flat::lemma_flat_prefix;
use crate::flat::lemma_offset_mono;
use crate::flat::lemma_offset_next;
use crate::flat::lemma_offset_zero;
use crate::flat::offset;
use crate::graph::adjacency_of;
use crate::graph::leaves;
use crate::graph::lemma_adjacency_empty;
use crate::graph::lemma_adjacency_push;
use crate::graph::untagged;
use crate::graph::Edge;
use crate::graph::Graph;
use crate::minmax;
use crate::graph::WeightedEdge;
use crate::graph::WeightedGraph;
use crate::vectors::filled;
use vstd::prelude::*;

verus! {

/// The records of one adjacency list, each with the vertex it leaves.
pub open spec fn tagged<T>(list: Seq<WeightedEdge<T>>, from: int) -> Seq<(int, WeightedEdge<T>)> {
    Seq::new(list.len(), |k: int| (from, list[k]))
}

/// The adjacency lists with every record tagged by the vertex it leaves.
pub open spec fn tagged_lists<T>(adj: Seq<Seq<WeightedEdge<T>>>) -> Seq<Seq<(int, WeightedEdge<T>)>> {
    Seq::new(adj.len(), |v: int| tagged(adj[v], v))
}

/// All records in scan order: list by list, each list from its start, every
/// record with the vertex it leaves.
pub open spec fn records_of<T>(adj: Seq<Seq<WeightedEdge<T>>>) -> Seq<(int, WeightedEdge<T>)> {
    tagged_lists(adj).flatten()
}

/// Record `k` of vertex `v` stands at place `offset + k` of the scan.
pub proof fn lemma_record_at<T>(adj: Seq<Seq<WeightedEdge<T>>>, v: int, k: int)
    requires
        0 <= v < adj.len(),
        0 <= k < adj[v].len(),
    ensures
        0 <= offset(tagged_lists(adj), v) + k < records_of(adj).len(),
        records_of(adj)[offset(tagged_lists(adj), v) + k] == (v, adj[v][k]),
        offset(tagged_lists(adj), v + 1) == offset(tagged_lists(adj), v) + adj[v].len(),
{
    lemma_flat_at(tagged_lists(adj), v, k);
    lemma_offset_next(tagged_lists(adj), v);
}

/// Every place of the scan holds a record of some vertex.
pub proof fn lemma_record_origin<T>(adj: Seq<Seq<WeightedEdge<T>>>, j: int) -> (r: (int, int))
    requires
        0 <= j < records_of(adj).len(),
    ensures
        0 <= r.0 < adj.len(),
        0 <= r.1 < adj[r.0].len(),
        records_of(adj)[j] == (r.0, adj[r.0][r.1]),
        offset(tagged_lists(adj), r.0) + r.1 == j,
{
    lemma_flat_origin(tagged_lists(adj), j)
}

/// A record is in the list of `v` of the lists built from a stream exactly
/// when the stream holds it with start `v`.
pub proof fn lemma_adjacency_member<T>(stream: Seq<(int, WeightedEdge<T>)>, n: int, v: int, r: WeightedEdge<T>)
    requires
        0 <= v < n,
    ensures
        adjacency_of(stream, n)[v].contains(r) <==> stream.contains((v, r)),
{
    let kept = stream.filter(leaves(v));
    let list = adjacency_of(stream, n)[v];
    assert(list == kept.map_values(untagged()));
    if list.contains(r) {
        let i = list.index_of(r);
        stream.lemma_filter_pred(leaves(v), i);
        assert(kept[i] == (v, r));
        assert(kept.contains((v, r)));
        stream.lemma_filter_contains_rev(leaves(v), (v, r));
    }
    if stream.contains((v, r)) {
        let j = stream.index_of((v, r));
        stream.lemma_filter_contains(leaves(v), j);
        let i = kept.index_of((v, r));
        assert(list[i] == r);
    }
}

/// The record that runs the other way.
pub open spec fn turned<T>() -> spec_fn((int, WeightedEdge<T>)) -> (int, WeightedEdge<T>) {
    |a: (int, WeightedEdge<T>)|
        (a.1.to as int, WeightedEdge { to: a.0 as usize, edge_index: a.1.edge_index, weight: a.1.weight })
}

/// The lists of the reversed graph: every record of the scan, turned, is
/// appended to the list of the vertex it now leaves.
pub open spec fn reversed_adj<T>(adj: Seq<Seq<WeightedEdge<T>>>) -> Seq<Seq<WeightedEdge<T>>> {
    adjacency_of(records_of(adj).map_values(turned()), adj.len() as int)
}

/// The test that keeps the records whose edge identity is not in `gone`.
pub open spec fn survives<T>(gone: Seq<usize>) -> spec_fn(WeightedEdge<T>) -> bool {
    |r: WeightedEdge<T>| !gone.contains(r.edge_index)
}

impl<T: Copy> WeightedGraph<T> {
    /// The number of records in all lists together.
    pub open spec fn record_count(&self) -> int {
        records_of(self.adj()).len() as int
    }

    /// The number of records in all lists together, where it fits a
    /// machine word.
    pub fn count_records(&self) -> (total: Option<usize>)
        ensures
            total matches Some(t) ==> t == self.record_count(),
            total is None ==> self.record_count() > usize::MAX,
    {
        let n: usize = self.edges.len();
        let ghost rows = tagged_lists(self.adj());
        let mut total: usize = 0;
        let mut v: usize = 0;
        proof {
            lemma_offset_zero(rows);
        }
        while v < n
            invariant
                v <= n,
                n == rows.len(),
                rows == tagged_lists(self.adj()),
                total == offset(rows, v as int),
                offset(rows, n as int) == self.record_count(),
            decreases n - v,
        {
            let len: usize = self.edges[v].len();
            proof {
                lemma_offset_next(rows, v as int);
                lemma_offset_mono(rows, v + 1, n as int);
                assert(rows[v as int].len() == len);
            }
            if len > usize::MAX - total {
                return None;
            }
            total += len;
            v += 1;
        }
        Some(total)
    }

    /// A copy of the graph.
    pub fn duplicate(&self) -> (g: Self)
        ensures
            g.adj() == self.adj(),
            g.total_edges == self.total_edges,
    {
        let n: usize = self.edges.len();
        let mut lists: Vec<Vec<WeightedEdge<T>>> = Vec::new();
        let mut v: usize = 0;
        while v < n
            invariant
                v <= n,
                n == self.edges@.len(),
                lists@.len() == v,
                forall|u: int| 0 <= u < v ==> (#[trigger] lists@[u])@ == self.edges@[u]@,
            decreases n - v,
        {
            let size: usize = self.edges[v].len();
            let mut list: Vec<WeightedEdge<T>> = Vec::new();
            let mut k: usize = 0;
            while k < size
                invariant
                    v < n,
                    n == self.edges@.len(),
                    k <= size,
                    size == self.edges@[v as int]@.len(),
                    list@ == self.edges@[v as int]@.take(k as int),
                decreases size - k,
            {
                list.push(self.edges[v][k]);
                assert(list@ =~= self.edges@[v as int]@.take(k + 1));
                k += 1;
            }
            assert(list@ =~= self.edges@[v as int]@);
            lists.push(list);
            v += 1;
        }
        let g = WeightedGraph { edges: lists, total_edges: self.total_edges };
        assert(g.adj() =~= self.adj());
        g
    }

    /// Drops every record whose edge identity is listed in `edges` and
    /// lowers the edge count by the length of that list. The identities of
    /// the records that stay are unchanged.
    pub fn remove_edges(&mut self, edges: &[usize])
        requires
            old(self).indices_in_range(),
            forall|i: int| 0 <= i < edges@.len() ==> edges@[i] < old(self).total_edges,
            edges@.len() <= old(self).total_edges,
        ensures
            final(self).order() == old(self).order(),
            forall|v: int|
                0 <= v < old(self).order() ==> #[trigger] final(self).adj()[v] == old(self).adj()[v].filter(
                    survives(edges@),
                ),
            final(self).total_edges == old(self).total_edges - edges@.len(),
            old(self).wf() ==> final(self).wf(),
    {
        let mut removed = filled(false, self.total_edges);
        let count: usize = edges.len();
        let mut i: usize = 0;
        while i < count
            invariant
                i <= count,
                count == edges@.len(),
                removed@.len() == self.total_edges,
                forall|j: int| 0 <= j < edges@.len() ==> edges@[j] < self.total_edges,
                forall|e: int|
                    0 <= e < removed@.len() ==> (#[trigger] removed@[e] <==> edges@.take(i as int).contains(
                        e as usize,
                    )),
            decreases count - i,
        {
            let e: usize = edges[i];
            removed[e] = true;
            proof {
                let short = edges@.take(i as int);
                let long = edges@.take(i + 1);
                assert(long =~= short.push(e));
                assert forall|x: usize| long.contains(x) <==> short.contains(x) || x == e by {
                    if short.contains(x) {
                        let j = short.index_of(x);
                        assert(long[j] == x);
                    }
                    if x == e {
                        assert(long[i as int] == x);
                    }
                    if long.contains(x) {
                        let j = long.index_of(x);
                        if j < i {
                            assert(short[j] == x);
                        }
                    }
                }
            }
            i += 1;
        }
        proof {
            assert(edges@.take(count as int) =~= edges@);
        }
        let n: usize = self.edges.len();
        let mut v: usize = 0;
        while v < n
            invariant
                v <= n,
                n == old(self).order(),
                self.order() == n,
                self.total_edges == old(self).total_edges,
                old(self).indices_in_range(),
                removed@.len() == self.total_edges,
                forall|e: int| 0 <= e < removed@.len() ==> (#[trigger] removed@[e] <==> edges@.contains(e as usize)),
                forall|u: int|
                    0 <= u < v ==> #[trigger] self.adj()[u] == old(self).adj()[u].filter(survives(edges@)),
                forall|u: int| v <= u < n ==> #[trigger] self.adj()[u] == old(self).adj()[u],
            decreases n - v,
        {
            let size: usize = self.edges[v].len();
            let ghost list = old(self).adj()[v as int];
            assert(self.adj()[v as int] == list);
            let mut kept: Vec<WeightedEdge<T>> = Vec::new();
            let mut k: usize = 0;
            proof {
                assert(list.take(0) =~= Seq::<WeightedEdge<T>>::empty());
                list.take(0).lemma_filter_len(survives(edges@));
            }
            while k < size
                invariant
                    v < n,
                    k <= size,
                    self.order() == n,
                    n == old(self).order(),
                    list == old(self).adj()[v as int],
                    self.adj()[v as int] == list,
                    size == list.len(),
                    old(self).indices_in_range(),
                    self.total_edges == old(self).total_edges,
                    removed@.len() == self.total_edges,
                    forall|e: int|
                        0 <= e < removed@.len() ==> (#[trigger] removed@[e] <==> edges@.contains(e as usize)),
                    kept@ == list.take(k as int).filter(survives(edges@)),
                decreases size - k,
            {
                let r = self.edges[v][k];
                proof {
                    assert(r == list[k as int]);
                    assert(list.take(k + 1) =~= list.take(k as int).push(r));
                    list.take(k as int).lemma_filter_push(r, survives(edges@));
                    assert(r.edge_index < self.total_edges);
                }
                if !removed[r.edge_index] {
                    kept.push(r);
                }
                k += 1;
            }
            proof {
                assert(list.take(size as int) =~= list);
            }
            let ghost earlier = self.adj();
            self.edges[v] = kept;
            proof {
                assert forall|u: int| 0 <= u < v + 1 implies #[trigger] self.adj()[u] == old(self).adj()[u].filter(
                    survives(edges@),
                ) by {
                    if u < v {
                        assert(self.adj()[u] == earlier[u]);
                    }
                }
                assert forall|u: int| v + 1 <= u < n implies #[trigger] self.adj()[u] == old(self).adj()[u] by {
                    assert(self.adj()[u] == earlier[u]);
                }
            }
            v += 1;
        }
        let ghost lists = self.adj();
        self.total_edges -= edges.len();
        proof {
            assert(self.adj() =~= lists);
            assert forall|u: int| 0 <= u < old(self).order() implies #[trigger] self.adj()[u] == old(self).adj()[u].filter(
                survives(edges@),
            ) by {
                assert(lists[u] == old(self).adj()[u].filter(survives(edges@)));
            }
            if old(self).wf() {
                assert forall|u: int, k: int|
                    0 <= u < self.order() && 0 <= k < self.adj()[u].len() implies (#[trigger] self.adj()[u][k]).to
                    < self.order() by {
                    let r = self.adj()[u][k];
                    assert(old(self).adj()[u].filter(survives(edges@)).contains(r));
                    old(self).adj()[u].lemma_filter_contains_rev(survives(edges@), r);
                    assert(old(self).adj()[u].contains(r));
                    let k0 = old(self).adj()[u].index_of(r);
                    assert(old(self).adj()[u][k0].to < old(self).order());
                }
            }
        }
    }
}

/// The lists built from a stream whose records start and end at vertices
/// below `n` lead only to vertices below `n`, and hold as many records as
/// the stream.
pub proof fn lemma_adjacency_targets<T>(stream: Seq<(int, WeightedEdge<T>)>, n: int, v: int, k: int)
    requires
        0 <= v < n,
        0 <= k < adjacency_of(stream, n)[v].len(),
    ensures
        stream.contains((v, adjacency_of(stream, n)[v][k])),
{
    let r = adjacency_of(stream, n)[v][k];
    assert(adjacency_of(stream, n)[v].contains(r));
    lemma_adjacency_member(stream, n, v, r);
}

/// A record leads from `u` to `w` in the reversed lists exactly when one
/// leads from `w` to `u` in the lists themselves.
pub proof fn lemma_reversed_edges<T: Copy>(g: &WeightedGraph<T>, r: &WeightedGraph<T>)
    requires
        g.wf(),
        r.adj() == reversed_adj(g.adj()),
    ensures
        r.order() == g.order(),
        r.wf(),
        forall|u: int, w: int| #[trigger] r.has_edge(u, w) <==> g.has_edge(w, u),
{
    let n = g.order();
    let adj = g.adj();
    let recs = records_of(adj);
    let stream = recs.map_values(turned());
    assert(r.adj().len() == adjacency_of(stream, n).len());
    assert forall|u: int, k: int| 0 <= u < r.order() && 0 <= k < r.adj()[u].len() implies (#[trigger] r.adj()[u][k]).to
        < r.order() && g.has_edge(r.adj()[u][k].to as int, u) by {
        lemma_adjacency_targets(stream, n, u, k);
        g.lemma_order_fits();
        let j = stream.index_of((u, r.adj()[u][k]));
        let o = lemma_record_origin(adj, j);
        assert(stream[j] == turned()(recs[j]));
        assert(recs[j] == (o.0, adj[o.0][o.1]));
        assert(adj[o.0][o.1].to == u);
        assert(r.adj()[u][k].to == o.0);
        assert(g.adj()[o.0][o.1].to == u);
    }
    assert forall|u: int, w: int| #[trigger] r.has_edge(u, w) <==> g.has_edge(w, u) by {
        if r.has_edge(u, w) {
            let k = choose|k: int| 0 <= k < r.adj()[u].len() && (#[trigger] r.adj()[u][k]).to == w;
            assert(g.has_edge(r.adj()[u][k].to as int, u));
        }
        if g.has_edge(w, u) {
            let k = choose|k: int| 0 <= k < adj[w].len() && (#[trigger] adj[w][k]).to == u;
            assert(adj[w][k].to < n);
            lemma_record_at(adj, w, k);
            let j = offset(tagged_lists(adj), w) + k;
            g.lemma_order_fits();
            let back = turned()(recs[j]);
            assert(back.1.to == w);
            assert(back.0 == u);
            assert(stream[j] == back);
            assert(stream.contains(back));
            lemma_adjacency_member(stream, n, u, back.1);
            let i = r.adj()[u].index_of(back.1);
            assert(r.adj()[u][i].to == w);
        }
    }
}

/// The reversed lists use the edge identities that the lists themselves
/// use, so that they keep the range of the identities and their being
/// without gaps.
pub proof fn lemma_reversed_indices<T: Copy>(g: &WeightedGraph<T>, r: &WeightedGraph<T>)
    requires
        g.wf(),
        r.adj() == reversed_adj(g.adj()),
        r.total_edges == g.total_edges,
    ensures
        forall|e: int| #[trigger] r.index_used(e) <==> g.index_used(e),
        forall|u: int, w: int, e: int| #[trigger] r.has_arc(u, w, e) <==> g.has_arc(w, u, e),
        g.indices_in_range() ==> r.indices_in_range(),
        g.is_compact() ==> r.is_compact(),
{
    let n = g.order();
    let adj = g.adj();
    let recs = records_of(adj);
    let stream = recs.map_values(turned());
    lemma_reversed_edges(g, r);
    g.lemma_order_fits();
    assert forall|u: int, k: int| 0 <= u < r.order() && 0 <= k < r.adj()[u].len() implies g.index_used(
        (#[trigger] r.adj()[u][k]).edge_index as int,
    ) && (g.indices_in_range() ==> r.adj()[u][k].edge_index < r.total_edges) by {
        lemma_adjacency_targets(stream, n, u, k);
        let j = stream.index_of((u, r.adj()[u][k]));
        let o = lemma_record_origin(adj, j);
        assert(stream[j] == turned()(recs[j]));
        assert(recs[j] == (o.0, adj[o.0][o.1]));
        assert(g.adj()[o.0][o.1].edge_index == r.adj()[u][k].edge_index);
    }
    assert forall|u: int, w: int, e: int| #[trigger] r.has_arc(u, w, e) <==> g.has_arc(w, u, e) by {
        if r.has_arc(u, w, e) {
            let k = choose|k: int|
                0 <= k < r.adj()[u].len() && (#[trigger] r.adj()[u][k]).to == w && r.adj()[u][k].edge_index == e;
            lemma_adjacency_targets(stream, n, u, k);
            let j = stream.index_of((u, r.adj()[u][k]));
            let o = lemma_record_origin(adj, j);
            assert(stream[j] == turned()(recs[j]));
            assert(recs[j] == (o.0, adj[o.0][o.1]));
            assert(adj[o.0][o.1].to == u && adj[o.0][o.1].edge_index == e && o.0 == w);
        }
        if g.has_arc(w, u, e) {
            let k = choose|k: int|
                0 <= k < adj[w].len() && (#[trigger] adj[w][k]).to == u && adj[w][k].edge_index == e;
            assert(adj[w][k].to < n);
            lemma_record_at(adj, w, k);
            let j = offset(tagged_lists(adj), w) + k;
            let back = turned()(recs[j]);
            assert(stream[j] == back);
            assert(stream.contains(back));
            lemma_adjacency_member(stream, n, u, back.1);
            let i = r.adj()[u].index_of(back.1);
            assert(r.adj()[u][i].to == w && r.adj()[u][i].edge_index == e);
        }
    }
    assert forall|e: int| #[trigger] r.index_used(e) <==> g.index_used(e) by {
        if r.index_used(e) {
            let (u, k) = choose|u: int, k: int|
                0 <= u < r.order() && 0 <= k < r.adj()[u].len() && (#[trigger] r.adj()[u][k]).edge_index == e;
            assert(g.index_used(r.adj()[u][k].edge_index as int));
        }
        if g.index_used(e) {
            let (w, k) = choose|w: int, k: int|
                0 <= w < g.order() && 0 <= k < adj[w].len() && (#[trigger] adj[w][k]).edge_index == e;
            assert(adj[w][k].to < n);
            lemma_record_at(adj, w, k);
            let j = offset(tagged_lists(adj), w) + k;
            let back = turned()(recs[j]);
            assert(stream[j] == back);
            assert(stream.contains(back));
            lemma_adjacency_member(stream, n, back.0, back.1);
            let i = r.adj()[back.0].index_of(back.1);
            assert(r.adj()[back.0][i].edge_index == e);
        }
    }
}

impl<T: Copy> WeightedGraph<T> {
    /// The graph with every record turned round: same vertices, same edge
    /// identities, same weights and same edge count.
    pub fn reversed(&self) -> (g: Self)
        requires
            self.wf(),
        ensures
            g.order() == self.order(),
            g.adj() == reversed_adj(self.adj()),
            g.total_edges == self.total_edges,
            g.wf(),
            forall|u: int, w: int| #[trigger] g.has_edge(u, w) <==> self.has_edge(w, u),
            forall|e: int| #[trigger] g.index_used(e) <==> self.index_used(e),
            forall|u: int, w: int, e: int| #[trigger] g.has_arc(u, w, e) <==> self.has_arc(w, u, e),
            self.indices_in_range() ==> g.indices_in_range(),
            self.is_compact() ==> g.is_compact(),
    {
        let n: usize = self.vertexes();
        let mut reversed = Self::new(n);
        let ghost adj = self.adj();
        let ghost recs = records_of(adj);
        let ghost mut stream: Seq<(int, WeightedEdge<T>)> = Seq::empty();
        let ghost mut done: int = 0;
        proof {
            lemma_adjacency_empty::<T>(n as int);
            assert forall|v: int| 0 <= v < n implies #[trigger] reversed.adj()[v] =~= adjacency_of(
                stream,
                n as int,
            )[v] by {}
            assert(reversed.adj() =~= adjacency_of(stream, n as int));
            lemma_offset_zero(tagged_lists(adj));
            assert(recs.take(0).map_values(turned()) =~= stream);
        }
        let mut from: usize = 0;
        while from < n
            invariant
                from <= n,
                n == self.order(),
                self.wf(),
                adj == self.adj(),
                recs == records_of(adj),
                reversed.order() == n,
                done == offset(tagged_lists(adj), from as int),
                0 <= done <= recs.len(),
                stream == recs.take(done).map_values(turned()),
                reversed.adj() == adjacency_of(stream, n as int),
            decreases n - from,
        {
            let size: usize = self.edges[from].len();
            let mut k: usize = 0;
            while k < size
                invariant
                    from < n,
                    k <= size,
                    size == adj[from as int].len(),
                    n == self.order(),
                    self.wf(),
                    adj == self.adj(),
                    recs == records_of(adj),
                    reversed.order() == n,
                    done == offset(tagged_lists(adj), from as int) + k,
                    0 <= done <= recs.len(),
                    stream == recs.take(done).map_values(turned()),
                    reversed.adj() == adjacency_of(stream, n as int),
                decreases size - k,
            {
                let edge = self.edges[from][k];
                proof {
                    assert(edge == adj[from as int][k as int]);
                    lemma_record_at(adj, from as int, k as int);
                    let pos = done;
                    assert(recs.take(pos + 1) =~= recs.take(pos).push(recs[pos]));
                    let back = turned()(recs[pos]);
                    assert(recs.take(pos + 1).map_values(turned()) =~= stream.push(back));
                    lemma_adjacency_push(stream, n as int, back);
                    stream = stream.push(back);
                    done = done + 1;
                }
                reversed.add_weighted_indexed_directed_edge(edge.to, from, edge.edge_index, edge.weight);
                k += 1;
            }
            proof {
                lemma_offset_next(tagged_lists(adj), from as int);
            }
            from += 1;
        }
        let ghost lists = reversed.adj();
        reversed.total_edges = self.total_edges;
        proof {
            lemma_offset_zero(tagged_lists(adj));
            assert(recs.take(recs.len() as int) =~= recs);
            assert(reversed.adj() =~= lists);
            lemma_reversed_edges(self, &reversed);
            lemma_reversed_indices(self, &reversed);
        }
        reversed
    }

    /// Tells whether some record leads from `from` to `to`.
    pub fn leads_to(&self, from: usize, to: usize) -> (found: bool)
        requires
            from < self.order(),
        ensures
            found == self.has_edge(from as int, to as int),
    {
        let size: usize = self.edges[from].len();
        let mut k: usize = 0;
        while k < size
            invariant
                from < self.order(),
                k <= size,
                size == self.adj()[from as int].len(),
                forall|k1: int| 0 <= k1 < k ==> (#[trigger] self.adj()[from as int][k1]).to != to,
            decreases size - k,
        {
            if self.edges[from][k].to == to {
                assert(self.adj()[from as int][k as int].to == to);
                return true;
            }
            k += 1;
        }
        false
    }
}

/// The pair of end points by which a record is grouped: start and end as
/// they are, or, when records of both directions count as equal, the
/// smaller one first.
pub open spec fn key_of(flag: bool) -> spec_fn((int, Edge)) -> (int, int) {
    |a: (int, Edge)|
        if flag && (a.1.to as int) < a.0 {
            (a.1.to as int, a.0)
        } else {
            (a.0, a.1.to as int)
        }
}

/// The entries of `s` without repetitions, in the order in which each is
/// first met.
pub open spec fn first_seen<A>(s: Seq<A>) -> Seq<A>
    decreases s.len(),
{
    if s.len() == 0 {
        Seq::empty()
    } else {
        let f = first_seen(s.drop_last());
        if f.contains(s.last()) {
            f
        } else {
            f.push(s.last())
        }
    }
}

/// The entries first seen are the entries, each once.
pub proof fn lemma_first_seen_facts<A>(s: Seq<A>)
    ensures
        first_seen(s).no_duplicates(),
        first_seen(s).len() <= s.len(),
        forall|x: A| first_seen(s).contains(x) <==> s.contains(x),
    decreases s.len(),
{
    if s.len() > 0 {
        let front = s.drop_last();
        let f = first_seen(front);
        lemma_first_seen_facts(front);
        assert forall|x: A| first_seen(s).contains(x) <==> s.contains(x) by {
            if s.contains(x) {
                let i = s.index_of(x);
                if i < s.len() - 1 {
                    assert(front[i] == x);
                    assert(front.contains(x));
                    let j = f.index_of(x);
                    assert(first_seen(s)[j] == x);
                } else {
                    if !f.contains(x) {
                        assert(first_seen(s)[f.len() as int] == x);
                    }
                }
            }
            if first_seen(s).contains(x) {
                let j = first_seen(s).index_of(x);
                if j < f.len() {
                    assert(f[j] == x);
                    assert(f.contains(x));
                    assert(front.contains(x));
                    let i = front.index_of(x);
                    assert(front[i] == x);
                    assert(s[i] == x);
                } else {
                    assert(s[s.len() - 1] == x);
                }
            }
        }
    }
}

/// One more entry is first seen where it was not seen before.
pub proof fn lemma_first_seen_push<A>(s: Seq<A>, x: A)
    ensures
        first_seen(s.push(x)) == if first_seen(s).contains(x) {
            first_seen(s)
        } else {
            first_seen(s).push(x)
        },
{
    assert(s.push(x).drop_last() =~= s);
}

/// The records that stand for group `j` with end points `key`.
pub open spec fn pair_records(key: (int, int), j: int, flag: bool) -> Seq<(int, Edge)> {
    let fwd = (key.0, WeightedEdge { to: key.1 as usize, edge_index: j as usize, weight: () });
    let back = (key.1, WeightedEdge { to: key.0 as usize, edge_index: j as usize, weight: () });
    if flag {
        seq![fwd, back]
    } else {
        seq![fwd]
    }
}

/// The stream of records that stands for the groups `keys`: for each group,
/// in order, one record under the group's position as edge identity, and
/// with `flag` its mirror too.
pub open spec fn paired_stream(keys: Seq<(int, int)>, flag: bool) -> Seq<(int, Edge)>
    decreases keys.len(),
{
    if keys.len() == 0 {
        Seq::empty()
    } else {
        paired_stream(keys.drop_last(), flag) + pair_records(keys.last(), keys.len() - 1, flag)
    }
}

/// Record `a` stands for one of the groups `keys`.
pub open spec fn stems_from(keys: Seq<(int, int)>, flag: bool, a: (int, Edge)) -> bool {
    exists|j: int|
        0 <= j < keys.len() && a.1.edge_index == j && (#[trigger] keys[j] == (a.0, a.1.to as int) || (
        flag && keys[j] == (a.1.to as int, a.0)))
}

/// The end points of every group are vertices below `n`, the smaller one
/// first where records of both directions count as equal.
pub open spec fn keys_fit(keys: Seq<(int, int)>, flag: bool, n: int) -> bool {
    &&& keys.len() <= usize::MAX
    &&& n <= usize::MAX
    &&& forall|j: int|
        0 <= j < keys.len() ==> 0 <= (#[trigger] keys[j]).0 < n && 0 <= keys[j].1 < n && (flag
            ==> keys[j].0 <= keys[j].1)
}

/// The records of the stream are those that stand for a group.
pub proof fn lemma_paired_member(keys: Seq<(int, int)>, flag: bool, n: int, a: (int, Edge))
    requires
        keys_fit(keys, flag, n),
    ensures
        paired_stream(keys, flag).contains(a) <==> stems_from(keys, flag, a),
    decreases keys.len(),
{
    if keys.len() > 0 {
        let front = keys.drop_last();
        let rest = paired_stream(front, flag);
        let top = keys.len() - 1;
        let p = pair_records(keys.last(), top, flag);
        let all = rest + p;
        assert(keys_fit(front, flag, n)) by {
            assert forall|j: int| 0 <= j < front.len() implies 0 <= (#[trigger] front[j]).0 < n && 0
                <= front[j].1 < n && (flag ==> front[j].0 <= front[j].1) by {
                assert(front[j] == keys[j]);
            }
        }
        lemma_paired_member(front, flag, n, a);
        if all.contains(a) {
            let i = all.index_of(a);
            if i < rest.len() {
                assert(rest[i] == a);
                assert(rest.contains(a));
                let j = choose|j: int|
                    0 <= j < front.len() && a.1.edge_index == j && (#[trigger] front[j] == (
                        a.0,
                        a.1.to as int,
                    ) || (flag && front[j] == (a.1.to as int, a.0)));
                assert(keys[j] == front[j]);
            } else {
                assert(p[i - rest.len()] == a);
                assert(keys[top] == keys.last());
            }
            assert(stems_from(keys, flag, a));
        }
        if stems_from(keys, flag, a) {
            let j = choose|j: int|
                0 <= j < keys.len() && a.1.edge_index == j && (#[trigger] keys[j] == (a.0, a.1.to as int)
                    || (flag && keys[j] == (a.1.to as int, a.0)));
            if j < top {
                assert(front[j] == keys[j]);
                assert(stems_from(front, flag, a));
                let i = rest.index_of(a);
                assert(all[i] == a);
            } else {
                if keys[j] == (a.0, a.1.to as int) {
                    assert(a.1.weight == ());
                    let q = WeightedEdge { to: a.1.to, edge_index: a.1.edge_index, weight: a.1.weight };
                    assert(q == a.1);
                    assert(p[0].1 == q);
                    assert(p[0] == a);
                    assert(all[rest.len() as int] == a);
                } else {
                    assert(a.1.weight == ());
                    let q = WeightedEdge { to: a.1.to, edge_index: a.1.edge_index, weight: a.1.weight };
                    assert(q == a.1);
                    assert(p[1].1 == q);
                    assert(p[1] == a);
                    assert(all[rest.len() as int + 1] == a);
                }
            }
        }
    } else {
        assert(!stems_from(keys, flag, a));
    }
}

/// The lists of the graph in which the records with equal end points are
/// merged: the groups are numbered in the order in which the scan first
/// meets them, and each group is one record, with `flag` one in either
/// direction.
pub open spec fn deduplicated_adj(adj: Seq<Seq<Edge>>, flag: bool) -> Seq<Seq<Edge>> {
    adjacency_of(
        paired_stream(first_seen(records_of(adj).map_values(key_of(flag))), flag),
        adj.len() as int,
    )
}

/// In the lists built from the groups `keys`, a record leads from `a` to `b`
/// exactly when `(a, b)` is a group or, with `flag`, `(b, a)` is.
pub proof fn lemma_paired_edges(keys: Seq<(int, int)>, flag: bool, g: &Graph, a: int, b: int)
    requires
        keys_fit(keys, flag, g.order()),
        g.adj() == adjacency_of(paired_stream(keys, flag), g.order()),
    ensures
        g.has_edge(a, b) <==> keys.contains((a, b)) || (flag && keys.contains((b, a))),
{
    let n = g.order();
    let stream = paired_stream(keys, flag);
    if g.has_edge(a, b) {
        let k = choose|k: int| 0 <= k < g.adj()[a].len() && (#[trigger] g.adj()[a][k]).to == b;
        let r = g.adj()[a][k];
        lemma_adjacency_targets(stream, n, a, k);
        lemma_paired_member(keys, flag, n, (a, r));
        let j = choose|j: int|
            0 <= j < keys.len() && r.edge_index == j && (#[trigger] keys[j] == (a, r.to as int) || (flag
                && keys[j] == (r.to as int, a)));
        assert(keys.contains(keys[j]));
    }
    if keys.contains((a, b)) {
        let j = keys.index_of((a, b));
        assert(0 <= keys[j].0 < n && 0 <= keys[j].1 < n);
        let r = WeightedEdge { to: b as usize, edge_index: j as usize, weight: () };
        assert(stems_from(keys, flag, (a, r)));
        lemma_paired_member(keys, flag, n, (a, r));
        lemma_adjacency_member(stream, n, a, r);
        let i = g.adj()[a].index_of(r);
        assert(g.adj()[a][i].to == b);
    }
    if flag && keys.contains((b, a)) {
        let j = keys.index_of((b, a));
        assert(0 <= keys[j].0 < n && 0 <= keys[j].1 < n);
        let r = WeightedEdge { to: b as usize, edge_index: j as usize, weight: () };
        assert(stems_from(keys, flag, (a, r)));
        lemma_paired_member(keys, flag, n, (a, r));
        lemma_adjacency_member(stream, n, a, r);
        let i = g.adj()[a].index_of(r);
        assert(g.adj()[a][i].to == b);
    }
}

/// The lists built from fitting groups form a compactly numbered graph
/// whose records lead to vertices of the graph.
pub proof fn lemma_paired_shape(keys: Seq<(int, int)>, flag: bool, g: &Graph)
    requires
        keys_fit(keys, flag, g.order()),
        g.adj() == adjacency_of(paired_stream(keys, flag), g.order()),
        g.total_edges == keys.len(),
    ensures
        g.wf(),
        g.is_compact(),
{
    let n = g.order();
    let stream = paired_stream(keys, flag);
    assert forall|u: int, k: int| 0 <= u < n && 0 <= k < g.adj()[u].len() implies (#[trigger] g.adj()[u][k]).to
        < n && g.adj()[u][k].edge_index < g.total_edges by {
        let r = g.adj()[u][k];
        lemma_adjacency_targets(stream, n, u, k);
        lemma_paired_member(keys, flag, n, (u, r));
        let j = choose|j: int|
            0 <= j < keys.len() && r.edge_index == j && (#[trigger] keys[j] == (u, r.to as int) || (flag
                && keys[j] == (r.to as int, u)));
    }
    assert forall|e: int| 0 <= e < g.total_edges implies #[trigger] g.index_used(e) by {
        let a = keys[e].0;
        let r = WeightedEdge { to: keys[e].1 as usize, edge_index: e as usize, weight: () };
        assert(stems_from(keys, flag, (a, r)));
        lemma_paired_member(keys, flag, n, (a, r));
        lemma_adjacency_member(stream, n, a, r);
        let i = g.adj()[a].index_of(r);
        assert(g.adj()[a][i].edge_index == e);
    }
}

/// Two entries of a filtered list come from two entries of the list, in
/// the same order.
pub proof fn lemma_filter_two<A>(s: Seq<A>, p: spec_fn(A) -> bool, i1: int, i2: int) -> (from: (int, int))
    requires
        0 <= i1 < i2 < s.filter(p).len(),
    ensures
        0 <= from.0 < from.1 < s.len(),
        s[from.0] == s.filter(p)[i1],
        s[from.1] == s.filter(p)[i2],
    decreases s.len(),
{
    reveal(Seq::filter);
    let kept = s.filter(p);
    let front = s.drop_last();
    let sub = front.filter(p);
    if i2 < sub.len() {
        let from = lemma_filter_two(front, p, i1, i2);
        from
    } else {
        assert(kept == sub.push(s.last()));
        assert(sub.contains(sub[i1]));
        front.lemma_filter_contains_rev(p, sub[i1]);
        let j1 = front.index_of(sub[i1]);
        (j1, s.len() - 1)
    }
}

/// Every record in the stream of the groups `keys` carries the number of
/// a group; the stream holds two records for each group, the record of
/// the group and its mirror.
pub proof fn lemma_paired_places(keys: Seq<(int, int)>, j: int)
    requires
        0 <= j < keys.len(),
    ensures
        paired_stream(keys, true).len() == 2 * keys.len(),
        paired_stream(keys, true)[2 * j] == pair_records(keys[j], j, true)[0],
        paired_stream(keys, true)[2 * j + 1] == pair_records(keys[j], j, true)[1],
    decreases keys.len(),
{
    let front = keys.drop_last();
    lemma_paired_len(keys);
    lemma_paired_len(front);
    if j < front.len() {
        lemma_paired_places(front, j);
        assert(front[j] == keys[j]);
    }
}

/// The stream of the groups `keys` with mirrors holds two records for each
/// group.
pub proof fn lemma_paired_len(keys: Seq<(int, int)>)
    ensures
        paired_stream(keys, true).len() == 2 * keys.len(),
    decreases keys.len(),
{
    if keys.len() > 0 {
        lemma_paired_len(keys.drop_last());
    }
}

/// The graph built from groups with their mirrors is an undirected
/// multigraph.
pub proof fn lemma_paired_undirected(keys: Seq<(int, int)>, g: &Graph)
    requires
        keys_fit(keys, true, g.order()),
        g.adj() == adjacency_of(paired_stream(keys, true), g.order()),
        g.wf(),
    ensures
        g.is_undirected(),
{
    let n = g.order();
    let stream = paired_stream(keys, true);
    lemma_paired_len(keys);
    assert forall|u: int, k: int| 0 <= u < n && 0 <= k < g.adj()[u].len() implies g.has_arc(
        (#[trigger] g.adj()[u][k]).to as int,
        u,
        g.adj()[u][k].edge_index as int,
    ) by {
        let r = g.adj()[u][k];
        lemma_adjacency_targets(stream, n, u, k);
        lemma_paired_member(keys, true, n, (u, r));
        let j = choose|j: int|
            0 <= j < keys.len() && r.edge_index == j && (#[trigger] keys[j] == (u, r.to as int) || keys[j] == (
                r.to as int,
                u,
            ));
        let w = r.to as int;
        let back = WeightedEdge { to: u as usize, edge_index: r.edge_index, weight: () };
        assert(stems_from(keys, true, (w, back)));
        lemma_paired_member(keys, true, n, (w, back));
        lemma_adjacency_member(stream, n, w, back);
        let i = g.adj()[w].index_of(back);
        assert(g.adj()[w][i].to == u && g.adj()[w][i].edge_index == r.edge_index);
    }
    assert forall|u1: int, k1: int, u2: int, k2: int|
        0 <= u1 < n && 0 <= k1 < g.adj()[u1].len() && 0 <= u2 < n && 0 <= k2 < g.adj()[u2].len() && (
        #[trigger] g.adj()[u1][k1]).edge_index == (#[trigger] g.adj()[u2][k2]).edge_index implies (u1 == u2 && k1
        == k2) || (g.adj()[u1][k1].to == u2 && g.adj()[u2][k2].to == u1) by {
        let r1 = g.adj()[u1][k1];
        let r2 = g.adj()[u2][k2];
        lemma_adjacency_targets(stream, n, u1, k1);
        lemma_adjacency_targets(stream, n, u2, k2);
        lemma_paired_member(keys, true, n, (u1, r1));
        lemma_paired_member(keys, true, n, (u2, r2));
        let j = r1.edge_index as int;
        assert(keys[j] == (u1, r1.to as int) || keys[j] == (r1.to as int, u1));
        assert(keys[j] == (u2, r2.to as int) || keys[j] == (r2.to as int, u2));
        if u1 == u2 && k1 != k2 && r1.to != u1 {
            // one record at two places of one list: twice in the stream
            assert(r1.to == r2.to);
            assert(r1.weight == () && r2.weight == ());
            assert(r1 == r2);
            let kept = stream.filter(leaves(u1));
            assert(g.adj()[u1] == kept.map_values(untagged()));
            let (lo, hi) = if k1 < k2 {
                (k1, k2)
            } else {
                (k2, k1)
            };
            stream.lemma_filter_pred(leaves(u1), lo);
            stream.lemma_filter_pred(leaves(u1), hi);
            assert(kept[lo] == (u1, r1));
            assert(kept[hi] == (u1, r1));
            let from = lemma_filter_two(stream, leaves(u1), lo, hi);
            lemma_paired_twice(keys, n, from.0, from.1);
        }
    }
}

/// A record that stands twice in the stream of the groups is the record of
/// a group whose end points are one vertex.
pub proof fn lemma_paired_twice(keys: Seq<(int, int)>, n: int, i1: int, i2: int)
    requires
        0 <= i1 < i2 < paired_stream(keys, true).len(),
        paired_stream(keys, true)[i1] == paired_stream(keys, true)[i2],
        keys_fit(keys, true, n),
    ensures
        paired_stream(keys, true)[i1].0 == paired_stream(keys, true)[i1].1.to,
{
    lemma_paired_len(keys);
    let j1 = i1 / 2;
    let j2 = i2 / 2;
    lemma_paired_places(keys, j1);
    lemma_paired_places(keys, j2);
    let stream = paired_stream(keys, true);
    assert(stream[i1].1.edge_index == j1);
    assert(stream[i2].1.edge_index == j2);
    assert(j1 == j2);
    assert(i1 == 2 * j1 && i2 == 2 * j1 + 1);
    assert(0 <= keys[j1].1 < n);
}

/// A record leads from `u` to `w` in the merged lists exactly when one does
/// in the lists themselves or, with `flag`, one leads from `w` to `u`.
pub proof fn lemma_deduplicated_edges(g: &Graph, r: &Graph, flag: bool, u: int, w: int)
    requires
        g.wf(),
        g.record_count() <= usize::MAX,
        r.adj() == deduplicated_adj(g.adj(), flag),
    ensures
        r.has_edge(u, w) <==> g.has_edge(u, w) || (flag && g.has_edge(w, u)),
{
    let n = g.order();
    let adj = g.adj();
    let recs = records_of(adj);
    let all = recs.map_values(key_of(flag));
    let keys = first_seen(all);
    g.lemma_order_fits();
    lemma_first_seen_facts(all);
    lemma_keys_fit(g, flag);
    assert(r.adj().len() == adjacency_of(paired_stream(keys, flag), n).len());
    lemma_paired_edges(keys, flag, r, u, w);
    assert forall|a: int, b: int| #[trigger] all.contains((a, b)) implies (g.has_edge(a, b) || (flag
        && g.has_edge(b, a))) by {
        let j = all.index_of((a, b));
        let o = lemma_record_origin(adj, j);
        assert(all[j] == key_of(flag)(recs[j]));
        assert(adj[o.0][o.1].to < n);
    }
    assert forall|a: int, b: int| #[trigger] g.has_edge(a, b) implies (all.contains((a, b)) || (flag
        && all.contains((b, a)))) by {
        let k = choose|k: int| 0 <= k < adj[a].len() && (#[trigger] adj[a][k]).to == b;
        lemma_record_at(adj, a, k);
        let j = offset(tagged_lists(adj), a) + k;
        assert(all[j] == key_of(flag)(recs[j]));
        assert(all.contains(all[j]));
    }
    if g.has_edge(u, w) {
        assert(all.contains((u, w)) || (flag && all.contains((w, u))));
    }
    if flag && g.has_edge(w, u) {
        assert(all.contains((w, u)) || (flag && all.contains((u, w))));
    }
    if keys.contains((u, w)) {
        assert(all.contains((u, w)));
    }
    if keys.contains((w, u)) {
        assert(all.contains((w, u)));
    }
}

/// The groups of a graph whose records lead to its vertices fit.
pub proof fn lemma_keys_fit(g: &Graph, flag: bool)
    requires
        g.wf(),
        g.record_count() <= usize::MAX,
    ensures
        keys_fit(first_seen(records_of(g.adj()).map_values(key_of(flag))), flag, g.order()),
{
    let n = g.order();
    let adj = g.adj();
    let recs = records_of(adj);
    let all = recs.map_values(key_of(flag));
    let keys = first_seen(all);
    g.lemma_order_fits();
    lemma_first_seen_facts(all);
    assert forall|j: int| 0 <= j < keys.len() implies 0 <= (#[trigger] keys[j]).0 < n && 0 <= keys[j].1
        < n && (flag ==> keys[j].0 <= keys[j].1) by {
        assert(keys.contains(keys[j]));
        assert(all.contains(keys[j]));
        let i = all.index_of(keys[j]);
        let o = lemma_record_origin(adj, i);
        assert(all[i] == key_of(flag)(recs[i]));
        assert(adj[o.0][o.1].to < n);
    }
}

impl WeightedGraph<()> {
    /// The graph in which records with equal end points are merged into one
    /// edge each; with `consider_inverse_edges_equal`, records of both
    /// directions between two vertices count as equal, and the merged edge
    /// has a record in either direction. The edges are numbered without
    /// gaps in the order in which the scan of the lists first meets them.
    pub fn deduplicated(&self, consider_inverse_edges_equal: bool) -> (g: Self)
        requires
            self.wf(),
            self.record_count() <= usize::MAX,
        ensures
            g.order() == self.order(),
            g.adj() == deduplicated_adj(self.adj(), consider_inverse_edges_equal),
            g.total_edges == first_seen(
                records_of(self.adj()).map_values(key_of(consider_inverse_edges_equal)),
            ).len(),
            g.wf(),
            g.is_compact(),
            consider_inverse_edges_equal ==> g.is_undirected(),
            forall|u: int, w: int|
                #[trigger] g.has_edge(u, w) <==> self.has_edge(u, w) || (consider_inverse_edges_equal
                    && self.has_edge(w, u)),
    {
        let flag = consider_inverse_edges_equal;
        let n: usize = self.vertexes();
        let mut deduplicated = Self::new(n);
        let ghost adj = self.adj();
        let ghost recs = records_of(adj);
        let ghost all = recs.map_values(key_of(flag));
        let ghost mut keys: Seq<(int, int)> = Seq::empty();
        let ghost mut pos: int = 0;
        proof {
            lemma_adjacency_empty::<()>(n as int);
            assert forall|v: int| 0 <= v < n implies #[trigger] deduplicated.adj()[v] =~= adjacency_of(
                paired_stream(keys, flag),
                n as int,
            )[v] by {}
            assert(deduplicated.adj() =~= adjacency_of(paired_stream(keys, flag), n as int));
            lemma_offset_zero(tagged_lists(adj));
            assert(all.take(0) =~= Seq::<(int, int)>::empty());
            self.lemma_order_fits();
        }
        let mut from: usize = 0;
        while from < n
            invariant
                from <= n,
                n == self.order(),
                self.wf(),
                adj == self.adj(),
                recs == records_of(adj),
                all == recs.map_values(key_of(flag)),
                recs.len() <= usize::MAX,
                deduplicated.order() == n,
                pos == offset(tagged_lists(adj), from as int),
                0 <= pos <= recs.len(),
                keys == first_seen(all.take(pos)),
                keys.len() <= pos,
                keys_fit(keys, flag, n as int),
                deduplicated.total_edges == keys.len(),
                deduplicated.adj() == adjacency_of(paired_stream(keys, flag), n as int),
            decreases n - from,
        {
            let size: usize = self.edges[from].len();
            let mut k: usize = 0;
            while k < size
                invariant
                    from < n,
                    k <= size,
                    size == adj[from as int].len(),
                    n == self.order(),
                    self.wf(),
                    adj == self.adj(),
                    recs == records_of(adj),
                    all == recs.map_values(key_of(flag)),
                    recs.len() <= usize::MAX,
                    deduplicated.order() == n,
                    pos == offset(tagged_lists(adj), from as int) + k,
                    0 <= pos <= recs.len(),
                    keys == first_seen(all.take(pos)),
                    keys.len() <= pos,
                    keys_fit(keys, flag, n as int),
                    deduplicated.total_edges == keys.len(),
                    deduplicated.adj() == adjacency_of(paired_stream(keys, flag), n as int),
                decreases size - k,
            {
                let to: usize = self.edges[from][k].to;
                let (a, b) = if flag {
                    minmax(from, to)
                } else {
                    (from, to)
                };
                proof {
                    assert(to == adj[from as int][k as int].to);
                    lemma_record_at(adj, from as int, k as int);
                    assert(all[pos] == key_of(flag)(recs[pos]));
                    assert(all[pos] == (a as int, b as int));
                    assert(all.take(pos + 1) =~= all.take(pos).push(all[pos]));
                    lemma_first_seen_push(all.take(pos), all[pos]);
                    lemma_paired_edges(keys, flag, &deduplicated, a as int, b as int);
                    if flag && keys.contains((b as int, a as int)) {
                        let j = keys.index_of((b as int, a as int));
                        assert(keys[j].0 <= keys[j].1);
                    }
                }
                if !deduplicated.leads_to(a, b) {
                    let new_index: usize = deduplicated.total_edges;
                    proof {
                        let key = (a as int, b as int);
                        let longer = keys.push(key);
                        assert(longer.drop_last() =~= keys);
                        let stream = paired_stream(keys, flag);
                        let p = pair_records(key, keys.len() as int, flag);
                        assert(paired_stream(longer, flag) == stream + p);
                        lemma_adjacency_push(stream, n as int, p[0]);
                        assert(stream.push(p[0]) =~= stream + seq![p[0]]);
                        if flag {
                            lemma_adjacency_push(stream.push(p[0]), n as int, p[1]);
                            assert(stream.push(p[0]).push(p[1]) =~= stream + p);
                        } else {
                            assert(stream.push(p[0]) =~= stream + p);
                        }
                        assert forall|j: int| 0 <= j < longer.len() implies 0 <= (#[trigger] longer[j]).0
                            < n && 0 <= longer[j].1 < n && (flag ==> longer[j].0 <= longer[j].1) by {
                            if j < keys.len() {
                                assert(longer[j] == keys[j]);
                            }
                        }
                        keys = longer;
                    }
                    deduplicated.add_weighted_indexed_directed_edge(a, b, new_index, ());
                    if flag {
                        deduplicated.add_weighted_indexed_directed_edge(b, a, new_index, ());
                    }
                    deduplicated.total_edges += 1;
                }
                proof {
                    pos = pos + 1;
                }
                k += 1;
            }
            proof {
                lemma_offset_next(tagged_lists(adj), from as int);
            }
            from += 1;
        }
        proof {
            lemma_offset_zero(tagged_lists(adj));
            assert(all.take(all.len() as int) =~= all);
            lemma_paired_shape(keys, flag, &deduplicated);
            if flag {
                lemma_paired_undirected(keys, &deduplicated);
            }
            assert forall|u: int, w: int| #[trigger] deduplicated.has_edge(u, w) <==> self.has_edge(u, w)
                || (flag && self.has_edge(w, u)) by {
                lemma_deduplicated_edges(self, &deduplicated, flag, u, w);
            }
        }
        deduplicated
    }
}

/// The place in the scan of the first record with edge identity `e`, or the
/// length of the scan where there is none.
pub open spec fn first_with(recs: Seq<(int, Edge)>, e: int) -> int
    decreases recs.len(),
{
    if recs.len() == 0 {
        0
    } else if recs.first().1.edge_index == e {
        0
    } else {
        1 + first_with(recs.drop_first(), e)
    }
}

/// The place of the first record of an edge is within the stream or at
/// its end.
pub proof fn lemma_first_with_bounds(recs: Seq<(int, Edge)>, e: int)
    ensures
        0 <= first_with(recs, e) <= recs.len(),
    decreases recs.len(),
{
    if recs.len() > 0 && recs.first().1.edge_index != e {
        lemma_first_with_bounds(recs.drop_first(), e);
    }
}

/// Where the first `i` records are of other edges, the first record of
/// the edge is found after them.
pub proof fn lemma_first_with_skip(recs: Seq<(int, Edge)>, e: int, i: int)
    requires
        0 <= i <= recs.len(),
        forall|j: int| 0 <= j < i ==> (#[trigger] recs[j]).1.edge_index != e,
    ensures
        first_with(recs, e) == i + first_with(recs.skip(i), e),
    decreases i,
{
    if i == 0 {
        assert(recs.skip(0) =~= recs);
    } else {
        assert(recs[0].1.edge_index != e);
        let rest = recs.drop_first();
        assert forall|j: int| 0 <= j < i - 1 implies (#[trigger] rest[j]).1.edge_index != e by {
            assert(rest[j] == recs[j + 1]);
        }
        lemma_first_with_skip(rest, e, i - 1);
        assert(rest.skip(i - 1) =~= recs.skip(i));
    }
}

/// Where vertex `i` goes when vertex `r` is merged into vertex `l`.
pub open spec fn remap(l: int, r: int, i: int) -> int {
    if i < r {
        i
    } else if i == r {
        l
    } else {
        i - 1
    }
}

/// A record with both end points moved.
pub open spec fn moved(l: int, r: int) -> spec_fn((int, Edge)) -> (int, Edge) {
    |a: (int, Edge)|
        (
            remap(l, r, a.0),
            WeightedEdge {
                to: remap(l, r, a.1.to as int) as usize,
                edge_index: a.1.edge_index,
                weight: a.1.weight,
            },
        )
}

/// The test that keeps the records of every edge but `e`.
pub open spec fn other_than(e: int) -> spec_fn((int, Edge)) -> bool {
    |a: (int, Edge)| a.1.edge_index != e
}

/// The end points, smaller one first, of the first record in the scan that
/// has edge identity `e`.
pub open spec fn ends_of(adj: Seq<Seq<Edge>>, e: int) -> (int, int) {
    let recs = records_of(adj);
    let a = recs[first_with(recs, e)];
    if a.0 <= a.1.to {
        (a.0, a.1.to as int)
    } else {
        (a.1.to as int, a.0)
    }
}

/// The lists after edge `e` is contracted and before parallel records are
/// merged: the larger end point of `e` is merged into the smaller one, the
/// vertices above it move down by one, and every record of another edge is
/// appended, with its end points moved, to the list of its new start.
pub open spec fn pulled_adj(adj: Seq<Seq<Edge>>, e: int) -> Seq<Seq<Edge>> {
    let ends = ends_of(adj, e);
    adjacency_of(
        records_of(adj).filter(other_than(e)).map_values(moved(ends.0, ends.1)),
        adj.len() - 1,
    )
}

/// The lists after the records of the edges listed in `gone` are dropped.
pub open spec fn removed_adj<T>(adj: Seq<Seq<WeightedEdge<T>>>, gone: Seq<usize>) -> Seq<
    Seq<WeightedEdge<T>>,
> {
    Seq::new(adj.len(), |v: int| adj[v].filter(survives(gone)))
}

/// Where vertex `index` goes when vertex `r` is merged into vertex `l`.
pub fn remap_vertex(l: usize, r: usize, index: usize) -> (moved: usize)
    ensures
        moved == remap(l as int, r as int, index as int),
{
    if index < r {
        index
    } else if index == r {
        l
    } else {
        index - 1
    }
}

/// Appending a record to one list adds one record to the scan.
pub proof fn lemma_records_grow<T>(adj: Seq<Seq<WeightedEdge<T>>>, v: int, r: WeightedEdge<T>)
    requires
        0 <= v < adj.len(),
    ensures
        records_of(adj.update(v, adj[v].push(r))).len() == records_of(adj).len() + 1,
{
    let before = tagged_lists(adj);
    let after = tagged_lists(adj.update(v, adj[v].push(r)));
    assert(after =~= before.update(v, before[v].push((v, r)))) by {
        assert(after[v] =~= before[v].push((v, r)));
    }
    lemma_push_grows_flat(before, after, v, (v, r));
}

impl WeightedGraph<()> {
    /// The end points of the first record in the scan of the lists that has
    /// edge identity `edge_index`, if there is one.
    pub fn find_edge_ends(&self, edge_index: usize) -> (ends: Option<(usize, usize)>)
        ensures
            ends.is_some() <==> self.index_used(edge_index as int),
            ends.is_some() <==> first_with(records_of(self.adj()), edge_index as int) < self.record_count(),
            ends matches Some(pair) ==> (pair.0 as int, pair.1) == ({
                let recs = records_of(self.adj());
                let a = recs[first_with(recs, edge_index as int)];
                (a.0, a.1.to)
            }) && pair.0 < self.order(),
    {
        let n: usize = self.edges.len();
        let ghost adj = self.adj();
        let ghost recs = records_of(adj);
        let ghost e = edge_index as int;
        let mut from: usize = 0;
        proof {
            lemma_offset_zero(tagged_lists(adj));
        }
        while from < n
            invariant
                from <= n,
                n == self.order(),
                adj == self.adj(),
                recs == records_of(adj),
                e == edge_index,
                forall|j: int|
                    0 <= j < offset(tagged_lists(adj), from as int) ==> (#[trigger] recs[j]).1.edge_index
                        != e,
                forall|u: int, k: int|
                    0 <= u < from && 0 <= k < adj[u].len() ==> (#[trigger] adj[u][k]).edge_index != e,
                offset(tagged_lists(adj), from as int) <= recs.len(),
            decreases n - from,
        {
            let size: usize = self.edges[from].len();
            let mut k: usize = 0;
            proof {
                lemma_offset_next(tagged_lists(adj), from as int);
                lemma_flat_prefix(tagged_lists(adj), from + 1);
            }
            while k < size
                invariant
                    from < n,
                    k <= size,
                    size == adj[from as int].len(),
                    n == self.order(),
                    adj == self.adj(),
                    recs == records_of(adj),
                    e == edge_index,
                    forall|j: int|
                        0 <= j < offset(tagged_lists(adj), from as int) + k ==> (#[trigger] recs[j]).1.edge_index
                            != e,
                    forall|u: int, k1: int|
                        0 <= u < n && 0 <= k1 < adj[u].len() && (u < from || (u == from && k1 < k))
                            ==> (#[trigger] adj[u][k1]).edge_index != e,
                    offset(tagged_lists(adj), from + 1) == offset(tagged_lists(adj), from as int) + size,
                    offset(tagged_lists(adj), from + 1) <= recs.len(),
                decreases size - k,
            {
                let edge = self.edges[from][k];
                proof {
                    assert(edge == adj[from as int][k as int]);
                    lemma_record_at(adj, from as int, k as int);
                }
                if edge.edge_index == edge_index {
                    proof {
                        let pos = offset(tagged_lists(adj), from as int) + k;
                        lemma_first_with_skip(recs, e, pos);
                        assert(recs.skip(pos).first() == recs[pos]);
                    }
                    return Some((from, edge.to));
                }
                k += 1;
            }
            from += 1;
        }
        proof {
            lemma_offset_zero(tagged_lists(adj));
            lemma_first_with_skip(recs, e, recs.len() as int);
        }
        None
    }

    /// Contracts the edge `edge_index`: the larger end point of its first
    /// record is merged into the smaller one, the vertices above it move
    /// down by one, the records of that edge are dropped, and the records
    /// that have become parallel are merged and renumbered as
    /// `deduplicated(true)` does.
    pub fn pull_edge(&self, edge_index: usize) -> (g: Self)
        requires
            self.wf(),
            self.record_count() <= usize::MAX,
            self.index_used(edge_index as int),
            ends_of(self.adj(), edge_index as int).0 < ends_of(self.adj(), edge_index as int).1,
        ensures
            g.order() == self.order() - 1,
            g.adj() == deduplicated_adj(pulled_adj(self.adj(), edge_index as int), true),
            g.wf(),
            g.is_compact(),
            g.is_undirected(),
    {
        let ends = self.find_edge_ends(edge_index);
        let ghost adj = self.adj();
        let ghost recs = records_of(adj);
        let ghost e = edge_index as int;
        let (first, second) = match ends {
            Some(pair) => pair,
            None => (0, 0),
        };
        proof {
            let i = first_with(recs, e);
            lemma_first_with_bounds(recs, e);
            let o = lemma_record_origin(adj, i);
            assert(adj[o.0][o.1].to < self.order());
        }
        let (l, r) = minmax(first, second);
        assert((l as int, r as int) == ends_of(adj, e));
        let n: usize = self.vertexes();
        let mut pulled = Self::new(n - 1);
        let ghost mut stream: Seq<(int, Edge)> = Seq::empty();
        let ghost mut pos: int = 0;
        proof {
            lemma_adjacency_empty::<()>(n - 1);
            assert forall|v: int| 0 <= v < n - 1 implies #[trigger] pulled.adj()[v] =~= adjacency_of(
                stream,
                n - 1,
            )[v] by {}
            assert(pulled.adj() =~= adjacency_of(stream, n - 1));
            lemma_offset_zero(tagged_lists(adj));
            assert(recs.take(0) =~= Seq::<(int, Edge)>::empty());
            recs.take(0).lemma_filter_len(other_than(e));
            crate::flat::lemma_flat_of_empty_rows(tagged_lists(pulled.adj()));
        }
        let mut from: usize = 0;
        while from < n
            invariant
                from <= n,
                n == self.order(),
                l < r < n,
                self.wf(),
                adj == self.adj(),
                recs == records_of(adj),
                e == edge_index,
                recs.len() <= usize::MAX,
                pulled.order() == n - 1,
                pulled.wf(),
                pos == offset(tagged_lists(adj), from as int),
                0 <= pos <= recs.len(),
                stream == recs.take(pos).filter(other_than(e)).map_values(moved(l as int, r as int)),
                stream.len() <= pos,
                pulled.total_edges == stream.len(),
                pulled.record_count() == stream.len(),
                pulled.adj() == adjacency_of(stream, n - 1),
            decreases n - from,
        {
            let size: usize = self.edges[from].len();
            let mut k: usize = 0;
            while k < size
                invariant
                    from < n,
                    k <= size,
                    size == adj[from as int].len(),
                    n == self.order(),
                    l < r < n,
                    self.wf(),
                    adj == self.adj(),
                    recs == records_of(adj),
                    e == edge_index,
                    recs.len() <= usize::MAX,
                    pulled.order() == n - 1,
                    pulled.wf(),
                    pos == offset(tagged_lists(adj), from as int) + k,
                    0 <= pos <= recs.len(),
                    stream == recs.take(pos).filter(other_than(e)).map_values(moved(l as int, r as int)),
                    stream.len() <= pos,
                    pulled.total_edges == stream.len(),
                    pulled.record_count() == stream.len(),
                    pulled.adj() == adjacency_of(stream, n - 1),
                decreases size - k,
            {
                let edge = self.edges[from][k];
                proof {
                    assert(edge == adj[from as int][k as int]);
                    assert(edge.to < n);
                    lemma_record_at(adj, from as int, k as int);
                    assert(recs.take(pos + 1) =~= recs.take(pos).push(recs[pos]));
                    recs.take(pos).lemma_filter_push(recs[pos], other_than(e));
                }
                if edge.edge_index != edge_index {
                    let new_from = remap_vertex(l, r, from);
                    let new_to = remap_vertex(l, r, edge.to);
                    proof {
                        let a = moved(l as int, r as int)(recs[pos]);
                        assert(a.0 == new_from);
                        assert(a.1 == (WeightedEdge { to: new_to, edge_index: edge.edge_index, weight: () }));
                        let kept = recs.take(pos).filter(other_than(e));
                        assert(kept.push(recs[pos]).map_values(moved(l as int, r as int)) =~= stream.push(
                            a,
                        ));
                        lemma_adjacency_push(stream, n - 1, a);
                        lemma_records_grow(pulled.adj(), a.0, a.1);
                        stream = stream.push(a);
                    }
                    pulled.add_weighted_indexed_directed_edge(new_from, new_to, edge.edge_index, edge.weight);
                    pulled.total_edges += 1;
                }
                proof {
                    pos = pos + 1;
                }
                k += 1;
            }
            proof {
                lemma_offset_next(tagged_lists(adj), from as int);
            }
            from += 1;
        }
        proof {
            lemma_offset_zero(tagged_lists(adj));
            assert(recs.take(recs.len() as int) =~= recs);
            assert(pulled.adj() == pulled_adj(adj, e));
        }
        pulled.deduplicated(true)
    }

    /// Drops the records of the edges listed in `edges`, then merges and
    /// renumbers what is left as `deduplicated(true)` does.
    pub fn remove_edges_renumbered(&self, edges: &[usize]) -> (g: Self)
        requires
            self.wf(),
            self.is_compact(),
            self.record_count() <= usize::MAX,
            forall|i: int| 0 <= i < edges@.len() ==> edges@[i] < self.total_edges,
            edges@.len() <= self.total_edges,
        ensures
            g.order() == self.order(),
            g.adj() == deduplicated_adj(removed_adj(self.adj(), edges@), true),
            g.wf(),
            g.is_compact(),
            g.is_undirected(),
    {
        let mut removed = self.duplicate();
        assert(removed.indices_in_range()) by {
            assert(removed.adj() == self.adj());
            assert(self.indices_in_range());
        }
        assert(removed.wf()) by {
            assert(removed.adj() == self.adj());
            assert(self.wf());
        }
        removed.remove_edges(edges);
        proof {
            assert(removed.adj() =~= removed_adj(self.adj(), edges@));
            let a = tagged_lists(removed.adj());
            let b = tagged_lists(self.adj());
            assert forall|k: int| 0 <= k < a.len() implies (#[trigger] a[k]).len() <= b[k].len() by {
                self.adj()[k].lemma_filter_len(survives(edges@));
            }
            lemma_flat_len_le(a, b);
        }
        removed.deduplicated(true)
    }
}

} // verus!
