//! The adjacency-list multigraph and its construction.

use crate::flat::offset;
use crate::vectors::empty_lists;
use crate::vectors::filled;
use crate::undirected::lemma_new_edge;
use vstd::prelude::*;

verus! {

/// The state of a vertex during a depth-first traversal: not yet reached,
/// on the current path, or completely handled.
#[derive(Debug, Clone, Copy, PartialEq, Eq, Hash, Structural)]
pub enum VisitColor {
    White,
    Gray,
    Black,
}

/// One directed record of an edge: where it leads, the identity of the edge
/// it belongs to, and its weight.
#[derive(Debug, Clone, Copy, PartialEq, Eq, Hash)]
pub struct WeightedEdge<W> {
    pub to: usize,
    pub edge_index: usize,
    pub weight: W,
}

pub type Edge = WeightedEdge<()>;

impl Edge {
    /// The record of an edge without weight.
    pub fn new(to: usize, edge_index: usize) -> (e: Self)
        ensures
            e == (WeightedEdge { to, edge_index, weight: () }),
    {
        WeightedEdge { to, edge_index, weight: () }
    }
}

/// A multigraph as adjacency lists. Vertices are the positions of `edges`;
/// an undirected edge is stored as two records with one `edge_index`.
#[derive(Debug, Clone)]
pub struct WeightedGraph<T> {
    pub edges: Vec<Vec<WeightedEdge<T>>>,
    pub total_edges: usize,
}

pub type Graph = WeightedGraph<()>;

/// The records of a stream that leave vertex `v`.
pub open spec fn leaves<T>(v: int) -> spec_fn((int, WeightedEdge<T>)) -> bool {
    |a: (int, WeightedEdge<T>)| a.0 == v
}

/// Drops the start vertex of a record.
pub open spec fn untagged<T>() -> spec_fn((int, WeightedEdge<T>)) -> WeightedEdge<T> {
    |a: (int, WeightedEdge<T>)| a.1
}

/// The adjacency lists that arise when the records of `stream`, each with
/// its start vertex, are added one by one to `n` empty lists.
pub open spec fn adjacency_of<T>(stream: Seq<(int, WeightedEdge<T>)>, n: int) -> Seq<
    Seq<WeightedEdge<T>>,
> {
    Seq::new(n as nat, |v: int| stream.filter(leaves(v)).map_values(untagged()))
}

/// The lists built from no records are empty.
pub proof fn lemma_adjacency_empty<T>(n: int)
    requires
        0 <= n,
    ensures
        adjacency_of(Seq::<(int, WeightedEdge<T>)>::empty(), n).len() == n,
        forall|v: int|
            0 <= v < n ==> (#[trigger] adjacency_of(Seq::<(int, WeightedEdge<T>)>::empty(), n)[v]).len()
                == 0,
{
    let empty = Seq::<(int, WeightedEdge<T>)>::empty();
    assert forall|v: int| 0 <= v < n implies (#[trigger] adjacency_of(empty, n)[v]).len() == 0 by {
        empty.lemma_filter_len(leaves(v));
    }
}

/// Adding one record to the stream appends it to the list of its start vertex.
pub proof fn lemma_adjacency_push<T>(stream: Seq<(int, WeightedEdge<T>)>, n: int, a: (int, WeightedEdge<T>))
    requires
        0 <= a.0 < n,
    ensures
        adjacency_of(stream.push(a), n) == adjacency_of(stream, n).update(
            a.0,
            adjacency_of(stream, n)[a.0].push(a.1),
        ),
{
    let before = adjacency_of(stream, n);
    let after = adjacency_of(stream.push(a), n);
    let wanted = before.update(a.0, before[a.0].push(a.1));
    assert forall|v: int| 0 <= v < n implies #[trigger] after[v] == wanted[v] by {
        stream.lemma_filter_push(a, leaves(v));
        if v == a.0 {
            assert(stream.filter(leaves(v)).push(a).map_values(untagged::<T>()) =~= stream.filter(
                leaves(v),
            ).map_values(untagged::<T>()).push(a.1));
        }
    }
    assert(after =~= wanted);
}

/// The positions of `row` that hold `true`, in ascending order.
pub open spec fn marked(row: Seq<bool>) -> Seq<int> {
    Seq::new(row.len(), |j: int| j).filter(|j: int| 0 <= j < row.len() && row[j])
}

/// One more entry of the row adds its place to the marked places where it
/// is set.
pub proof fn lemma_marked_next(row: Seq<bool>, j: int)
    requires
        0 <= j < row.len(),
    ensures
        marked(row.take(j + 1)) == if row[j] {
            marked(row.take(j)).push(j)
        } else {
            marked(row.take(j))
        },
{
    let short = row.take(j);
    let long = row.take(j + 1);
    let ps = |k: int| 0 <= k < short.len() && short[k];
    let pl = |k: int| 0 <= k < long.len() && long[k];
    let ids = Seq::new(short.len(), |k: int| k);
    let idl = Seq::new(long.len(), |k: int| k);
    assert(idl =~= ids.push(j));
    ids.lemma_filter_push(j, pl);
    lemma_filter_agrees(ids, ps, pl);
}

/// Two tests that agree on every entry of a sequence select the same entries.
pub proof fn lemma_filter_agrees<A>(s: Seq<A>, p: spec_fn(A) -> bool, q: spec_fn(A) -> bool)
    requires
        forall|i: int| 0 <= i < s.len() ==> p(#[trigger] s[i]) == q(s[i]),
    ensures
        s.filter(p) == s.filter(q),
    decreases s.len(),
{
    reveal(Seq::filter);
    if s.len() > 0 {
        let front = s.drop_last();
        assert forall|i: int| 0 <= i < front.len() implies p(#[trigger] front[i]) == q(front[i]) by {
            assert(front[i] == s[i]);
        }
        lemma_filter_agrees(front, p, q);
        assert(p(s[s.len() - 1]) == q(s[s.len() - 1]));
    }
}

impl<T> WeightedGraph<T> {
    /// The adjacency lists as plain sequences.
    pub open spec fn adj(&self) -> Seq<Seq<WeightedEdge<T>>> {
        Seq::new(self.edges@.len(), |v: int| self.edges@[v]@)
    }

    /// The number of vertices.
    pub open spec fn order(&self) -> int {
        self.edges@.len() as int
    }

    /// The number of vertices fits a machine word.
    pub proof fn lemma_order_fits(&self)
        ensures
            self.order() <= usize::MAX,
    {
        assert(self.edges@.len() == self.edges.len());
    }

    /// Every record leads to a vertex of the graph.
    pub open spec fn wf(&self) -> bool {
        forall|u: int, k: int|
            0 <= u < self.order() && 0 <= k < self.adj()[u].len() ==> (#[trigger] self.adj()[u][k]).to
                < self.order()
    }

    /// Some record leads from `u` to `w`.
    pub open spec fn has_edge(&self, u: int, w: int) -> bool {
        &&& 0 <= u < self.order()
        &&& exists|k: int| 0 <= k < self.adj()[u].len() && (#[trigger] self.adj()[u][k]).to == w
    }

    /// The relation "some record leads from the first vertex to the second".
    pub open spec fn arrow(&self) -> spec_fn(int, int) -> bool {
        |u: int, w: int| self.has_edge(u, w)
    }

    /// Every record leaving `u` has its mirror: a record back to `u`.
    pub open spec fn is_symmetric(&self) -> bool {
        forall|u: int, w: int| #[trigger] self.has_edge(u, w) ==> self.has_edge(w, u)
    }

    /// Every edge identity is below `total_edges`.
    pub open spec fn indices_in_range(&self) -> bool {
        forall|u: int, k: int|
            0 <= u < self.order() && 0 <= k < self.adj()[u].len() ==> (#[trigger] self.adj()[u][k]).edge_index
                < self.total_edges
    }

    /// Some record carries the edge identity `e`.
    pub open spec fn index_used(&self, e: int) -> bool {
        exists|u: int, k: int|
            0 <= u < self.order() && 0 <= k < self.adj()[u].len() && (#[trigger] self.adj()[u][k]).edge_index
                == e
    }

    /// The edge identities in use are exactly `0 .. total_edges`.
    pub open spec fn is_compact(&self) -> bool {
        &&& self.indices_in_range()
        &&& forall|e: int| 0 <= e < self.total_edges ==> #[trigger] self.index_used(e)
    }

    /// Each record's edge identity is its place in the scan of all lists.
    pub open spec fn numbered_by_scan(&self) -> bool {
        forall|u: int, k: int|
            0 <= u < self.order() && 0 <= k < self.adj()[u].len() ==> (#[trigger] self.adj()[u][k]).edge_index
                == offset(self.adj(), u) + k
    }
}

impl<T: Copy> WeightedGraph<T> {
    /// A graph of `n` vertices without edges.
    pub fn new(n: usize) -> (g: Self)
        ensures
            g.order() == n,
            g.total_edges == 0,
            forall|v: int| 0 <= v < n ==> (#[trigger] g.adj()[v]).len() == 0,
            g.wf(),
            g.is_compact(),
    {
        WeightedGraph { edges: empty_lists(n), total_edges: 0 }
    }

    /// Tells whether the edge identities in use are exactly `0 .. total_edges`.
    pub fn validate_compact_enumeration(&self) -> (ok: bool)
        ensures
            ok == self.is_compact(),
    {
        let n: usize = self.edges.len();
        let mut present = filled(false, self.total_edges);
        let mut v: usize = 0;
        while v < n
            invariant
                v <= n,
                n == self.order(),
                present@.len() == self.total_edges,
                forall|u: int, k: int|
                    0 <= u < v && 0 <= k < self.adj()[u].len() ==> (#[trigger] self.adj()[u][k]).edge_index
                        < self.total_edges && present@[self.adj()[u][k].edge_index as int],
                forall|e: int| 0 <= e < self.total_edges && present@[e] ==> self.index_used(e),
            decreases n - v,
        {
            let size: usize = self.edges[v].len();
            let mut k: usize = 0;
            while k < size
                invariant
                    v < n,
                    k <= size,
                    size == self.adj()[v as int].len(),
                    n == self.order(),
                    present@.len() == self.total_edges,
                    forall|u: int, k1: int|
                        0 <= u < n && 0 <= k1 < self.adj()[u].len() && (u < v || (u == v && k1 < k))
                            ==> (#[trigger] self.adj()[u][k1]).edge_index < self.total_edges
                            && present@[self.adj()[u][k1].edge_index as int],
                    forall|e: int| 0 <= e < self.total_edges && present@[e] ==> self.index_used(e),
                decreases size - k,
            {
                let e: usize = self.edges[v][k].edge_index;
                assert(e == self.adj()[v as int][k as int].edge_index);
                if e >= self.total_edges {
                    return false;
                }
                present[e] = true;
                assert(self.index_used(e as int));
                k += 1;
            }
            v += 1;
        }
        let mut e: usize = 0;
        while e < self.total_edges
            invariant
                e <= self.total_edges,
                n == self.order(),
                present@.len() == self.total_edges,
                self.indices_in_range(),
                forall|u: int, k: int|
                    0 <= u < n && 0 <= k < self.adj()[u].len() ==> present@[(#[trigger] self.adj()[u][k]).edge_index as int],
                forall|e1: int| 0 <= e1 < e ==> #[trigger] self.index_used(e1),
                forall|e1: int| 0 <= e1 < self.total_edges && present@[e1] ==> self.index_used(e1),
            decreases self.total_edges - e,
        {
            if !present[e] {
                assert(!self.index_used(e as int));
                return false;
            }
            e += 1;
        }
        true
    }

    /// Appends one directed record with a given edge identity to the list of `from`.
    pub fn add_weighted_indexed_directed_edge(
        &mut self,
        from: usize,
        to: usize,
        edge_index: usize,
        weight: T,
    )
        requires
            from < old(self).order(),
        ensures
            final(self).total_edges == old(self).total_edges,
            final(self).order() == old(self).order(),
            final(self).adj() == old(self).adj().update(
                from as int,
                old(self).adj()[from as int].push(WeightedEdge { to, edge_index, weight }),
            ),
            old(self).wf() && to < old(self).order() ==> final(self).wf(),
    {
        self.edges[from].push(WeightedEdge { to, edge_index, weight });
        assert(self.adj() =~= old(self).adj().update(
            from as int,
            old(self).adj()[from as int].push(WeightedEdge { to, edge_index, weight }),
        ));
        assert(old(self).wf() && to < old(self).order() ==> self.wf()) by {
            if old(self).wf() && to < old(self).order() {
                assert forall|u: int, k: int|
                    0 <= u < self.order() && 0 <= k < self.adj()[u].len() implies (#[trigger] self.adj()[u][k]).to
                    < self.order() by {
                    if u == from && k == old(self).adj()[u].len() {
                    } else {
                        assert(self.adj()[u][k] == old(self).adj()[u][k]);
                    }
                }
            }
        }
    }

    /// Adds an undirected edge under the next free edge identity: one record
    /// in the list of `from`, then its mirror in the list of `to`.
    pub fn add_weighted_undirected_edge(&mut self, from: usize, to: usize, weight: T)
        requires
            from < old(self).order(),
            to < old(self).order(),
            old(self).total_edges < usize::MAX,
        ensures
            final(self).total_edges == old(self).total_edges + 1,
            final(self).order() == old(self).order(),
            final(self).adj() == ({
                let e = old(self).total_edges;
                let first = old(self).adj().update(
                    from as int,
                    old(self).adj()[from as int].push(WeightedEdge { to, edge_index: e, weight }),
                );
                first.update(
                    to as int,
                    first[to as int].push(WeightedEdge { to: from, edge_index: e, weight }),
                )
            }),
            old(self).wf() ==> final(self).wf(),
            old(self).wf() && old(self).is_compact() ==> final(self).is_compact(),
            old(self).is_undirected() && old(self).is_compact() ==> final(self).is_undirected(),
    {
        let edge_index = self.total_edges;
        self.add_weighted_indexed_directed_edge(from, to, edge_index, weight);
        self.add_weighted_indexed_directed_edge(to, from, edge_index, weight);
        self.total_edges += 1;
        proof {
            if old(self).wf() && old(self).is_compact() {
                lemma_new_edge(&*old(self), &*self, from as int, to as int, weight, false);
            }
        }
    }

    /// Adds a directed edge under the next free edge identity.
    pub fn add_weighted_directed_edge(&mut self, from: usize, to: usize, weight: T)
        requires
            from < old(self).order(),
            old(self).total_edges < usize::MAX,
        ensures
            final(self).total_edges == old(self).total_edges + 1,
            final(self).order() == old(self).order(),
            final(self).adj() == old(self).adj().update(
                from as int,
                old(self).adj()[from as int].push(
                    WeightedEdge { to, edge_index: old(self).total_edges, weight },
                ),
            ),
            old(self).wf() && to < old(self).order() ==> final(self).wf(),
            old(self).wf() && to < old(self).order() && old(self).is_compact() ==> final(self).is_compact(),
    {
        let edge_index = self.total_edges;
        self.add_weighted_indexed_directed_edge(from, to, edge_index, weight);
        self.total_edges += 1;
        proof {
            if old(self).wf() && to < old(self).order() && old(self).is_compact() {
                lemma_new_edge(&*old(self), &*self, from as int, to as int, weight, true);
            }
        }
    }

    /// The number of vertices.
    pub fn vertexes(&self) -> (n: usize)
        ensures
            n == self.order(),
    {
        self.edges.len()
    }

    /// The number of edges.
    pub fn edges(&self) -> (m: usize)
        ensures
            m == self.total_edges,
    {
        self.total_edges
    }
}

impl WeightedGraph<()> {
    /// Adds an undirected edge under the next free edge identity.
    pub fn add_undirected_edge(&mut self, from: usize, to: usize)
        requires
            from < old(self).order(),
            to < old(self).order(),
            old(self).total_edges < usize::MAX,
        ensures
            final(self).total_edges == old(self).total_edges + 1,
            final(self).order() == old(self).order(),
            final(self).adj() == ({
                let e = old(self).total_edges;
                let first = old(self).adj().update(
                    from as int,
                    old(self).adj()[from as int].push(WeightedEdge { to, edge_index: e, weight: () }),
                );
                first.update(
                    to as int,
                    first[to as int].push(WeightedEdge { to: from, edge_index: e, weight: () }),
                )
            }),
            old(self).wf() ==> final(self).wf(),
            old(self).wf() && old(self).is_compact() ==> final(self).is_compact(),
            old(self).is_undirected() && old(self).is_compact() ==> final(self).is_undirected(),
    {
        self.add_weighted_undirected_edge(from, to, ());
    }

    /// Adds a directed edge under the next free edge identity.
    pub fn add_directed_edge(&mut self, from: usize, to: usize)
        requires
            from < old(self).order(),
            old(self).total_edges < usize::MAX,
        ensures
            final(self).total_edges == old(self).total_edges + 1,
            final(self).order() == old(self).order(),
            final(self).adj() == old(self).adj().update(
                from as int,
                old(self).adj()[from as int].push(
                    WeightedEdge { to, edge_index: old(self).total_edges, weight: () },
                ),
            ),
            old(self).wf() && to < old(self).order() ==> final(self).wf(),
            old(self).wf() && to < old(self).order() && old(self).is_compact() ==> final(self).is_compact(),
    {
        self.add_weighted_directed_edge(from, to, ());
    }
}

} // verus!
