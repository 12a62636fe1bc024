//! Undirected multigraphs, stored as mirrored records, and their bridges.

use crate::graph::WeightedEdge;
use crate::graph::WeightedGraph;
use crate::walks::connects;
use crate::walks::lemma_closed_holds;
use crate::walks::lemma_connects_self;
use crate::walks::lemma_connects_step;
use crate::walks::lemma_connects_trans;
use crate::walks::flip;
use crate::walks::is_walk;
use crate::walks::lemma_connects_flip;
use crate::walks::lemma_connects_mono;
use crate::walks::lemma_walk_stays;
use vstd::prelude::*;

verus! {

impl<T> WeightedGraph<T> {
    /// Some record with edge identity `e` leads from `u` to `w`.
    pub open spec fn has_arc(&self, u: int, w: int, e: int) -> bool {
        &&& 0 <= u < self.order()
        &&& exists|k: int|
            0 <= k < self.adj()[u].len() && (#[trigger] self.adj()[u][k]).to == w && self.adj()[u][k].edge_index
                == e
    }

    /// The relation "some record of an edge other than `e` leads from the
    /// first vertex to the second".
    pub open spec fn arrow_without(&self, e: int) -> spec_fn(int, int) -> bool {
        |u: int, w: int|
            0 <= u < self.order() && exists|k: int|
                0 <= k < self.adj()[u].len() && (#[trigger] self.adj()[u][k]).to == w
                    && self.adj()[u][k].edge_index != e
    }

    /// Every record has a record back with the same edge identity.
    pub open spec fn is_mirrored(&self) -> bool {
        forall|u: int, k: int|
            0 <= u < self.order() && 0 <= k < self.adj()[u].len() ==> self.has_arc(
                (#[trigger] self.adj()[u][k]).to as int,
                u,
                self.adj()[u][k].edge_index as int,
            )
    }

    /// Two different records with one edge identity are each other's mirror.
    pub open spec fn edges_are_pairs(&self) -> bool {
        forall|u1: int, k1: int, u2: int, k2: int|
            0 <= u1 < self.order() && 0 <= k1 < self.adj()[u1].len() && 0 <= u2 < self.order() && 0
                <= k2 < self.adj()[u2].len() && (#[trigger] self.adj()[u1][k1]).edge_index == (
            #[trigger] self.adj()[u2][k2]).edge_index ==> (u1 == u2 && k1 == k2) || (self.adj()[u1][k1].to
                == u2 && self.adj()[u2][k2].to == u1)
    }

    /// The graph is an undirected multigraph: its records lead to its
    /// vertices, and each edge is a record and its mirror.
    pub open spec fn is_undirected(&self) -> bool {
        &&& self.wf()
        &&& self.is_mirrored()
        &&& self.edges_are_pairs()
    }

    /// Edge `e` exists, and without it no walk leads from one of its end
    /// points to the other.
    pub open spec fn is_bridge(&self, e: int) -> bool {
        &&& self.index_used(e)
        &&& forall|u: int, k: int|
            0 <= u < self.order() && 0 <= k < self.adj()[u].len() && (#[trigger] self.adj()[u][k]).edge_index
                == e ==> !connects(self.arrow_without(e), u, self.adj()[u][k].to as int)
    }

    /// The relation "some record leads from the first vertex to the second,
    /// and neither of them is `v`".
    pub open spec fn arrow_avoiding(&self, v: int) -> spec_fn(int, int) -> bool {
        |a: int, b: int| a != v && b != v && self.has_edge(a, b)
    }

    /// Without `v`, two vertices that a walk connects are no longer
    /// connected.
    pub open spec fn is_cut_vertex(&self, v: int) -> bool {
        exists|a: int, b: int|
            a != v && b != v && #[trigger] connects(self.arrow(), a, b) && !connects(
                self.arrow_avoiding(v),
                a,
                b,
            )
    }

    /// In an undirected graph, walks that avoid a vertex can be walked back.
    pub proof fn lemma_avoiding_symmetric(&self, v: int, a: int, b: int)
        requires
            self.is_undirected(),
            connects(self.arrow_avoiding(v), a, b),
        ensures
            connects(self.arrow_avoiding(v), b, a),
    {
        let r = self.arrow_avoiding(v);
        self.lemma_undirected_is_symmetric();
        lemma_connects_flip(r, a, b);
        assert forall|x: int, y: int| #[trigger] flip(r)(x, y) implies r(x, y) by {
            assert(self.has_edge(y, x));
        }
        lemma_connects_mono(flip(r), r, b, a);
    }

    /// In an undirected graph, walks can be walked back.
    pub proof fn lemma_arrow_symmetric(&self, a: int, b: int)
        requires
            self.is_undirected(),
            connects(self.arrow(), a, b),
        ensures
            connects(self.arrow(), b, a),
    {
        let r = self.arrow();
        self.lemma_undirected_is_symmetric();
        lemma_connects_flip(r, a, b);
        assert forall|x: int, y: int| #[trigger] flip(r)(x, y) implies r(x, y) by {
            assert(self.has_edge(y, x));
        }
        lemma_connects_mono(flip(r), r, b, a);
    }

    /// A vertex all of whose neighbours are connected, without it, to one
    /// vertex is no cut vertex.
    pub proof fn lemma_not_cut_vertex(&self, v: int, anchor: int)
        requires
            self.is_undirected(),
            forall|b: int| #[trigger] self.has_edge(v, b) && b != v ==> connects(self.arrow_avoiding(v), b, anchor),
        ensures
            !self.is_cut_vertex(v),
    {
        let r = self.arrow();
        let ra = self.arrow_avoiding(v);
        self.lemma_undirected_is_symmetric();
        assert forall|a: int, b: int| a != v && b != v && #[trigger] connects(r, a, b) implies connects(
            ra,
            a,
            b,
        ) by {
            if connects(r, v, a) {
                let good = |z: int| z == v || connects(ra, z, anchor);
                assert forall|p: int, q: int| good(p) && #[trigger] r(p, q) implies good(q) by {
                    if q != v && p != v {
                        assert(self.has_edge(q, p));
                        assert(ra(q, p));
                        lemma_connects_step(ra, q, p);
                        lemma_connects_trans(ra, q, p, anchor);
                    }
                }
                lemma_closed_holds(r, good, v, a);
                lemma_connects_trans(r, v, a, b);
                lemma_closed_holds(r, good, v, b);
                self.lemma_avoiding_symmetric(v, b, anchor);
                lemma_connects_trans(ra, a, anchor, b);
            } else {
                let apart = |z: int| !connects(r, v, z);
                lemma_connects_self(r, v);
                assert forall|p: int, q: int| apart(p) && #[trigger] r(p, q) implies apart(q) && ra(p, q) by {
                    if connects(r, v, q) {
                        assert(self.has_edge(q, p));
                        assert(r(q, p));
                        crate::walks::lemma_connects_push(r, v, q, p);
                    }
                }
                lemma_connects_restrict(r, ra, apart, a, b);
            }
        }
    }

    /// In an undirected graph every record has its mirror.
    pub proof fn lemma_undirected_is_symmetric(&self)
        requires
            self.is_undirected(),
        ensures
            self.is_symmetric(),
    {
        assert forall|u: int, w: int| #[trigger] self.has_edge(u, w) implies self.has_edge(w, u) by {
            let k = choose|k: int| 0 <= k < self.adj()[u].len() && (#[trigger] self.adj()[u][k]).to == w;
            assert(self.has_arc(self.adj()[u][k].to as int, u, self.adj()[u][k].edge_index as int));
            let k2 = choose|k2: int|
                0 <= k2 < self.adj()[w].len() && (#[trigger] self.adj()[w][k2]).to == u
                    && self.adj()[w][k2].edge_index == self.adj()[u][k].edge_index;
        }
    }

    /// In an undirected graph, walks that avoid an edge can be walked back.
    pub proof fn lemma_without_symmetric(&self, e: int, a: int, b: int)
        requires
            self.is_undirected(),
            connects(self.arrow_without(e), a, b),
        ensures
            connects(self.arrow_without(e), b, a),
    {
        let r = self.arrow_without(e);
        lemma_connects_flip(r, a, b);
        assert forall|x: int, y: int| #[trigger] flip(r)(x, y) implies r(x, y) by {
            let k = choose|k: int|
                0 <= k < self.adj()[y].len() && (#[trigger] self.adj()[y][k]).to == x
                    && self.adj()[y][k].edge_index != e;
            assert(self.has_arc(self.adj()[y][k].to as int, y, self.adj()[y][k].edge_index as int));
            let k2 = choose|k2: int|
                0 <= k2 < self.adj()[x].len() && (#[trigger] self.adj()[x][k2]).to == y
                    && self.adj()[x][k2].edge_index == self.adj()[y][k].edge_index;
        }
        lemma_connects_mono(flip(r), r, b, a);
    }

    /// In an undirected graph, an edge one of whose records has end points
    /// that are connected without it is no bridge.
    pub proof fn lemma_connected_ends_no_bridge(&self, e: int, u: int, k: int)
        requires
            0 <= u < self.order(),
            0 <= k < self.adj()[u].len(),
            self.adj()[u][k].edge_index == e,
            connects(self.arrow_without(e), u, self.adj()[u][k].to as int),
        ensures
            !self.is_bridge(e),
    {
    }

    /// The records of one edge of an undirected graph lead between the same
    /// two vertices.
    pub proof fn lemma_same_edge(&self, u1: int, k1: int, u2: int, k2: int)
        requires
            self.is_undirected(),
            0 <= u1 < self.order(),
            0 <= k1 < self.adj()[u1].len(),
            0 <= u2 < self.order(),
            0 <= k2 < self.adj()[u2].len(),
            self.adj()[u1][k1].edge_index == self.adj()[u2][k2].edge_index,
        ensures
            (u1 == u2 && k1 == k2) || (self.adj()[u1][k1].to == u2 && self.adj()[u2][k2].to == u1),
    {
    }
}

/// A walk along `r1` from inside a set that `r1` does not leave, and on
/// which every step of `r1` is a step of `r2`, is a walk along `r2`.
pub proof fn lemma_connects_restrict(
    r1: spec_fn(int, int) -> bool,
    r2: spec_fn(int, int) -> bool,
    inside: spec_fn(int) -> bool,
    u: int,
    w: int,
)
    requires
        connects(r1, u, w),
        inside(u),
        forall|a: int, b: int| inside(a) && #[trigger] r1(a, b) ==> inside(b) && r2(a, b),
    ensures
        connects(r2, u, w),
        inside(w),
{
    let p = choose|p: Seq<int>| #[trigger] is_walk(r1, p) && p.first() == u && p.last() == w;
    lemma_walk_stays(r1, inside, p);
    assert forall|i: int| 0 <= i < p.len() - 1 implies r2(#[trigger] p[i], p[i + 1]) by {
        assert(r1(p[i], p[i + 1]));
        assert(inside(p[i]));
    }
    assert(is_walk(r2, p));
    assert(inside(p[p.len() - 1]));
}

/// The lists after an edge from `from` to `to` with the identity `e` was
/// added: one record more in the list of `from`, and for an undirected
/// edge its mirror in the list of `to`.
pub open spec fn with_new_edge<T>(
    adj: Seq<Seq<WeightedEdge<T>>>,
    from: int,
    to: int,
    e: usize,
    weight: T,
    directed: bool,
) -> Seq<Seq<WeightedEdge<T>>> {
    let first = adj.update(from, adj[from].push(WeightedEdge { to: to as usize, edge_index: e, weight }));
    if directed {
        first
    } else {
        first.update(to, first[to].push(WeightedEdge { to: from as usize, edge_index: e, weight }))
    }
}

/// A new edge under the next free identity keeps the records within the
/// graph and the identities without gaps, and a new undirected edge keeps
/// an undirected multigraph undirected.
pub proof fn lemma_new_edge<T>(
    before: &WeightedGraph<T>,
    after: &WeightedGraph<T>,
    from: int,
    to: int,
    weight: T,
    directed: bool,
)
    requires
        0 <= from < before.order(),
        0 <= to < before.order(),
        before.wf(),
        before.is_compact(),
        after.total_edges == before.total_edges + 1,
        after.order() == before.order(),
        after.adj() == with_new_edge(before.adj(), from, to, before.total_edges, weight, directed),
    ensures
        after.wf(),
        after.is_compact(),
        !directed && before.is_undirected() ==> after.is_undirected(),
{
    let n = before.order();
    let e = before.total_edges;
    let old_adj = before.adj();
    let new_adj = after.adj();
    before.lemma_order_fits();
    // where each record of the new lists comes from
    assert forall|u: int, k: int| 0 <= u < n && 0 <= k < new_adj[u].len() implies (k < old_adj[u].len()
        && #[trigger] new_adj[u][k] == old_adj[u][k]) || (new_adj[u][k].edge_index == e && ((u == from
        && new_adj[u][k].to == to) || (!directed && u == to && new_adj[u][k].to == from))) by {}
    assert forall|u: int, k: int| 0 <= u < n && 0 <= k < old_adj[u].len() implies k < new_adj[u].len()
        && #[trigger] new_adj[u][k] == old_adj[u][k] by {}
    assert(after.wf());
    assert(after.indices_in_range()) by {
        assert forall|u: int, k: int| 0 <= u < after.order() && 0 <= k < after.adj()[u].len() implies (
        #[trigger] after.adj()[u][k]).edge_index < after.total_edges by {
            if k < old_adj[u].len() && new_adj[u][k] == old_adj[u][k] {
                assert(old_adj[u][k].edge_index < before.total_edges);
            }
        }
    }
    let last_from = (old_adj[from].len()) as int;
    assert(new_adj[from].len() > last_from);
    assert(new_adj[from][last_from].edge_index == e);
    assert forall|x: int| 0 <= x < after.total_edges implies #[trigger] after.index_used(x) by {
        if x < e {
            assert(before.index_used(x));
            let (u, k) = choose|u: int, k: int|
                0 <= u < before.order() && 0 <= k < before.adj()[u].len() && (#[trigger] before.adj()[u][k]).edge_index
                    == x;
            assert(new_adj[u][k] == old_adj[u][k]);
        } else {
            assert(new_adj[from][last_from].edge_index == x);
        }
    }
    if !directed && before.is_undirected() {
        let last_to = if from == to {
            last_from + 1
        } else {
            old_adj[to].len() as int
        };
        assert(new_adj[to][last_to].edge_index == e && new_adj[to][last_to].to == from);
        assert(new_adj[from][last_from].to == to);
        assert forall|u: int, k: int| 0 <= u < after.order() && 0 <= k < after.adj()[u].len() implies after.has_arc(
            (#[trigger] after.adj()[u][k]).to as int,
            u,
            after.adj()[u][k].edge_index as int,
        ) by {
            if k < old_adj[u].len() && new_adj[u][k] == old_adj[u][k] {
                let w = old_adj[u][k].to as int;
                assert(before.has_arc(w, u, old_adj[u][k].edge_index as int));
                let k2 = choose|k2: int|
                    0 <= k2 < old_adj[w].len() && (#[trigger] old_adj[w][k2]).to == u && old_adj[w][k2].edge_index
                        == old_adj[u][k].edge_index;
                assert(new_adj[w][k2] == old_adj[w][k2]);
            } else {
                if u == from && new_adj[u][k].to == to {
                    assert(new_adj[to][last_to].to == from);
                } else {
                    assert(new_adj[from][last_from].to == to);
                }
            }
        }
        assert forall|u1: int, k1: int, u2: int, k2: int|
            0 <= u1 < after.order() && 0 <= k1 < after.adj()[u1].len() && 0 <= u2 < after.order() && 0
                <= k2 < after.adj()[u2].len() && (#[trigger] after.adj()[u1][k1]).edge_index == (
            #[trigger] after.adj()[u2][k2]).edge_index implies (u1 == u2 && k1 == k2) || (after.adj()[u1][k1].to
            == u2 && after.adj()[u2][k2].to == u1) by {
            let old1 = k1 < old_adj[u1].len() && new_adj[u1][k1] == old_adj[u1][k1];
            let old2 = k2 < old_adj[u2].len() && new_adj[u2][k2] == old_adj[u2][k2];
            if old1 && old2 {
                assert(old_adj[u1][k1].edge_index == old_adj[u2][k2].edge_index);
            } else if old1 {
                assert(old_adj[u1][k1].edge_index < e);
            } else if old2 {
                assert(old_adj[u2][k2].edge_index < e);
            } else {
                if from == to {
                } else {
                    assert(k1 == old_adj[u1].len());
                    assert(k2 == old_adj[u2].len());
                }
            }
        }
    }
}

impl<T> WeightedGraph<T> {
    /// No record leads from a vertex to itself.
    pub open spec fn is_loopless(&self) -> bool {
        forall|u: int, k: int|
            0 <= u < self.order() && 0 <= k < self.adj()[u].len() ==> (#[trigger] self.adj()[u][k]).to != u
    }

    /// Tells whether no record leads from a vertex to itself.
    pub fn has_no_loops(&self) -> (ok: bool)
        ensures
            ok == self.is_loopless(),
    {
        let n: usize = self.edges.len();
        let mut u: usize = 0;
        while u < n
            invariant
                u <= n,
                n == self.order(),
                forall|x: int, k: int|
                    0 <= x < u && 0 <= k < self.adj()[x].len() ==> (#[trigger] self.adj()[x][k]).to != x,
            decreases n - u,
        {
            let len: usize = self.edges[u].len();
            let mut k: usize = 0;
            while k < len
                invariant
                    k <= len,
                    u < n,
                    n == self.order(),
                    len == self.adj()[u as int].len(),
                    forall|j: int| 0 <= j < k ==> (#[trigger] self.adj()[u as int][j]).to != u,
                decreases len - k,
            {
                if self.edges[u][k].to == u {
                    assert(self.adj()[u as int][k as int].to == u);
                    return false;
                }
                k += 1;
            }
            u += 1;
        }
        true
    }
}

} // verus!
