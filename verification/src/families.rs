//! Cycles and paths as graphs, and what the decompositions make of them.

use crate::blocks::is_end;
use crate::blocks::joined_without;
use crate::blocks::separates;
use crate::counting::lemma_distinct_below;
use crate::counting::lemma_distinct_cover_len;
use crate::cutpoints::cut_graph;
use crate::decomposition::Decomposition;
use crate::flat::lemma_offset_next;
use crate::flat::lemma_offset_zero;
use crate::graph::Edge;
use crate::graph::Graph;
use crate::graph::WeightedEdge;
use crate::undirected::with_new_edge;
use crate::walks::connects;
use crate::walks::lemma_closed_holds;
use crate::walks::lemma_connects_push;
use crate::walks::lemma_connects_self;
use crate::walks::lemma_connects_trans;
use vstd::prelude::*;

verus! {

/// The record of edge `e` that leads to `to`.
pub open spec fn record_to(to: int, e: int) -> Edge {
    WeightedEdge { to: to as usize, edge_index: e as usize, weight: () }
}

/// The vertex after `i` on the cycle of `n` vertices.
pub open spec fn next_on_ring(i: int, n: int) -> int {
    if i + 1 == n {
        0
    } else {
        i + 1
    }
}

/// The lists of `n` vertices after the first `m` edges of the cycle were
/// added as undirected edges: edge `i` joins `i` and the vertex after it.
pub open spec fn ring_adj(n: int, m: int) -> Seq<Seq<Edge>>
    decreases m,
{
    if m <= 0 {
        Seq::new(n as nat, |v: int| Seq::<Edge>::empty())
    } else {
        with_new_edge(ring_adj(n, m - 1), m - 1, next_on_ring(m - 1, n), (m - 1) as usize, (), false)
    }
}

/// The graph is the cycle of `n` vertices, three or more, built edge by
/// edge.
pub open spec fn is_cycle_graph(graph: &Graph, n: int) -> bool {
    &&& 3 <= n <= usize::MAX
    &&& graph.order() == n
    &&& graph.total_edges == n
    &&& graph.adj() == ring_adj(n, n)
}

/// The list of vertex `u` after the first `m` edges of the cycle: the
/// record back along the edge before it, the record along its own edge,
/// and for the first vertex the record of the edge that closes the cycle.
pub open spec fn ring_list(n: int, m: int, u: int) -> Seq<Edge> {
    (if 1 <= u <= m {
        seq![record_to(u - 1, u - 1)]
    } else {
        Seq::empty()
    }) + (if u < m {
        seq![record_to(next_on_ring(u, n), u)]
    } else {
        Seq::empty()
    }) + (if u == 0 && m == n {
        seq![record_to(n - 1, n - 1)]
    } else {
        Seq::empty()
    })
}

/// The lists of the cycle are what `ring_list` says.
pub proof fn lemma_ring_shape(n: int, m: int)
    requires
        3 <= n,
        0 <= m <= n,
    ensures
        ring_adj(n, m).len() == n,
        forall|u: int| 0 <= u < n ==> #[trigger] ring_adj(n, m)[u] == ring_list(n, m, u),
    decreases m,
{
    if m == 0 {
        assert forall|u: int| 0 <= u < n implies #[trigger] ring_adj(n, m)[u] == ring_list(n, m, u) by {
            assert(ring_list(n, m, u) =~= Seq::<Edge>::empty());
        }
    } else {
        lemma_ring_shape(n, m - 1);
        let before = ring_adj(n, m - 1);
        let from = m - 1;
        let to = next_on_ring(m - 1, n);
        assert forall|u: int| 0 <= u < n implies #[trigger] ring_adj(n, m)[u] == ring_list(n, m, u) by {
            assert(before[u] == ring_list(n, m - 1, u));
            assert(ring_adj(n, m)[u] =~= ring_list(n, m, u));
        }
    }
}

/// On the cycle, edge `i` has a record from `i` to the vertex after it and
/// a record back.
pub proof fn lemma_ring_arcs(graph: &Graph, n: int, i: int)
    requires
        is_cycle_graph(graph, n),
        0 <= i < n,
    ensures
        graph.has_arc(i, next_on_ring(i, n), i),
        graph.has_arc(next_on_ring(i, n), i, i),
{
    lemma_ring_shape(n, n);
    let after = next_on_ring(i, n);
    assert(graph.adj()[i] == ring_list(n, n, i));
    assert(graph.adj()[after] == ring_list(n, n, after));
    if i >= 1 {
        assert(graph.adj()[i][1] == record_to(after, i));
    } else {
        assert(graph.adj()[i][0] == record_to(after, i));
    }
    if i < n - 1 {
        assert(graph.adj()[after][0] == record_to(i, i));
    } else {
        assert(graph.adj()[after][1] == record_to(i, i));
    }
}

/// On the cycle, every record runs along the edge of its start to the
/// vertex after it, or back along the edge of its end.
pub proof fn lemma_ring_records(graph: &Graph, n: int, u: int, k: int)
    requires
        is_cycle_graph(graph, n),
        0 <= u < n,
        0 <= k < graph.adj()[u].len(),
    ensures
        0 <= graph.adj()[u][k].to < n,
        0 <= graph.adj()[u][k].edge_index < n,
        (graph.adj()[u][k].to == next_on_ring(u, n) && graph.adj()[u][k].edge_index == u) || (u == next_on_ring(
            graph.adj()[u][k].to as int,
            n,
        ) && graph.adj()[u][k].edge_index == graph.adj()[u][k].to),
        graph.adj()[u][k].to != u,
{
    lemma_ring_shape(n, n);
    assert(graph.adj()[u] == ring_list(n, n, u));
}

/// The vertex `j` steps before `e` on the cycle.
pub open spec fn back_on_ring(e: int, j: int, n: int) -> int {
    if e - j >= 0 {
        e - j
    } else {
        e - j + n
    }
}

/// On the cycle, a walk that does not use edge `e` leads from `e` back
/// round the cycle, as far as the other end of that edge.
pub proof fn lemma_ring_round(graph: &Graph, n: int, e: int, j: int)
    requires
        is_cycle_graph(graph, n),
        0 <= e < n,
        0 <= j <= n - 1,
    ensures
        connects(graph.arrow_without(e), e, back_on_ring(e, j, n)),
    decreases j,
{
    let r = graph.arrow_without(e);
    if j == 0 {
        lemma_connects_self(r, e);
    } else {
        lemma_ring_round(graph, n, e, j - 1);
        let x = back_on_ring(e, j - 1, n);
        let y = back_on_ring(e, j, n);
        assert(next_on_ring(y, n) == x);
        lemma_ring_arcs(graph, n, y);
        let k = choose|k: int|
            0 <= k < graph.adj()[x].len() && (#[trigger] graph.adj()[x][k]).to == y && graph.adj()[x][k].edge_index
                == y;
        assert(graph.adj()[x][k].edge_index != e);
        assert(r(x, y));
        lemma_connects_push(r, e, x, y);
    }
}

/// A cycle of three vertices or more has no bridge.
pub proof fn lemma_cycle_has_no_bridge(graph: &Graph, n: int)
    requires
        is_cycle_graph(graph, n),
    ensures
        forall|e: int| !graph.is_bridge(e),
{
    assert forall|e: int| !graph.is_bridge(e) by {
        if graph.is_bridge(e) {
            let (u, k) = choose|u: int, k: int|
                0 <= u < graph.order() && 0 <= k < graph.adj()[u].len() && (#[trigger] graph.adj()[u][k]).edge_index
                    == e;
            lemma_ring_records(graph, n, u, k);
            lemma_ring_arcs(graph, n, e);
            let after = next_on_ring(e, n);
            let q = choose|q: int|
                0 <= q < graph.adj()[e].len() && (#[trigger] graph.adj()[e][q]).to == after && graph.adj()[e][q].edge_index
                    == e;
            lemma_ring_round(graph, n, e, n - 1);
            assert(back_on_ring(e, n - 1, n) == after);
            assert(connects(graph.arrow_without(e), e, graph.adj()[e][q].to as int));
        }
    }
}

/// On a cycle of three vertices or more, a list that holds exactly the
/// bridges is empty.
pub proof fn lemma_cycle_bridges_are_none(graph: &Graph, n: int, bridges: Seq<usize>)
    requires
        is_cycle_graph(graph, n),
        forall|e: usize| bridges.contains(e) <==> graph.is_bridge(e as int),
    ensures
        bridges.len() == 0,
{
    lemma_cycle_has_no_bridge(graph, n);
    if bridges.len() > 0 {
        assert(bridges.contains(bridges[0]));
    }
}

/// A cycle of three vertices or more is an undirected multigraph without
/// loops whose edges are numbered without gaps.
pub proof fn lemma_cycle_is_cut_graph(graph: &Graph, n: int)
    requires
        is_cycle_graph(graph, n),
    ensures
        cut_graph(graph),
{
    lemma_ring_shape(n, n);
    assert forall|u: int, k: int| 0 <= u < graph.order() && 0 <= k < graph.adj()[u].len() implies (
    #[trigger] graph.adj()[u][k]).to < graph.order() && graph.adj()[u][k].to != u && graph.adj()[u][k].edge_index
        < graph.total_edges && graph.has_arc(
        graph.adj()[u][k].to as int,
        u,
        graph.adj()[u][k].edge_index as int,
    ) by {
        lemma_ring_records(graph, n, u, k);
        let r = graph.adj()[u][k];
        if r.to == next_on_ring(u, n) && r.edge_index == u {
            lemma_ring_arcs(graph, n, u);
        } else {
            lemma_ring_arcs(graph, n, r.to as int);
        }
    }
    assert forall|e: int| 0 <= e < graph.total_edges implies #[trigger] graph.index_used(e) by {
        lemma_ring_arcs(graph, n, e);
        let k = choose|k: int|
            0 <= k < graph.adj()[e].len() && (#[trigger] graph.adj()[e][k]).to == next_on_ring(e, n)
                && graph.adj()[e][k].edge_index == e;
        assert(graph.adj()[e][k].edge_index == e);
    }
    assert forall|u1: int, k1: int, u2: int, k2: int|
        0 <= u1 < graph.order() && 0 <= k1 < graph.adj()[u1].len() && 0 <= u2 < graph.order() && 0 <= k2
            < graph.adj()[u2].len() && (#[trigger] graph.adj()[u1][k1]).edge_index == (
        #[trigger] graph.adj()[u2][k2]).edge_index implies (u1 == u2 && k1 == k2) || (graph.adj()[u1][k1].to == u2
        && graph.adj()[u2][k2].to == u1) by {
        lemma_ring_records(graph, n, u1, k1);
        lemma_ring_records(graph, n, u2, k2);
        assert(graph.adj()[u1] == ring_list(n, n, u1));
        assert(graph.adj()[u2] == ring_list(n, n, u2));
    }
}

/// The vertex `j` steps after `s` on the cycle.
pub open spec fn forth_on_ring(s: int, j: int, n: int) -> int {
    if s + j < n {
        s + j
    } else {
        s + j - n
    }
}

/// On the cycle, a walk leads forward from `s` as long as it does not meet
/// the vertex `v`.
pub proof fn lemma_ring_forward(graph: &Graph, n: int, v: int, s: int, j: int)
    requires
        is_cycle_graph(graph, n),
        0 <= s < n,
        0 <= j < n,
        forall|i: int| 0 <= i <= j ==> forth_on_ring(s, i, n) != v,
    ensures
        connects(graph.arrow_avoiding(v), s, forth_on_ring(s, j, n)),
    decreases j,
{
    let r = graph.arrow_avoiding(v);
    if j == 0 {
        lemma_connects_self(r, s);
    } else {
        lemma_ring_forward(graph, n, v, s, j - 1);
        let x = forth_on_ring(s, j - 1, n);
        let y = forth_on_ring(s, j, n);
        assert(next_on_ring(x, n) == y);
        lemma_ring_arcs(graph, n, x);
        assert(graph.has_edge(x, y));
        assert(r(x, y));
        lemma_connects_push(r, s, x, y);
    }
}

/// On the cycle, any two vertices other than `v` are connected without `v`.
pub proof fn lemma_ring_stays_connected(graph: &Graph, n: int, v: int, a: int, b: int)
    requires
        is_cycle_graph(graph, n),
        0 <= a < n,
        0 <= b < n,
        a != v,
        b != v,
    ensures
        connects(graph.arrow_avoiding(v), a, b),
{
    let anchor = if 0 <= v < n {
        next_on_ring(v, n)
    } else {
        0
    };
    lemma_cycle_is_cut_graph(graph, n);
    let ja = if a >= anchor {
        a - anchor
    } else {
        a - anchor + n
    };
    let jb = if b >= anchor {
        b - anchor
    } else {
        b - anchor + n
    };
    lemma_ring_forward(graph, n, v, anchor, ja);
    lemma_ring_forward(graph, n, v, anchor, jb);
    graph.lemma_avoiding_symmetric(v, anchor, a);
    lemma_connects_trans(graph.arrow_avoiding(v), a, anchor, b);
}

/// A cycle of three vertices or more has no cut vertex.
pub proof fn lemma_cycle_has_no_cut_vertex(graph: &Graph, n: int)
    requires
        is_cycle_graph(graph, n),
    ensures
        forall|v: int| !graph.is_cut_vertex(v),
{
    lemma_cycle_is_cut_graph(graph, n);
    assert forall|v: int| !graph.is_cut_vertex(v) by {
        let anchor = if v != 0 {
            0int
        } else {
            1int
        };
        assert forall|b: int| #[trigger] graph.has_edge(v, b) && b != v implies connects(
            graph.arrow_avoiding(v),
            b,
            anchor,
        ) by {
            let k = choose|k: int| 0 <= k < graph.adj()[v].len() && (#[trigger] graph.adj()[v][k]).to == b;
            lemma_ring_records(graph, n, v, k);
            lemma_ring_stays_connected(graph, n, v, b, anchor);
        }
        graph.lemma_not_cut_vertex(v, anchor);
    }
}

/// On a cycle of three vertices or more, no vertex separates two edges.
pub proof fn lemma_cycle_edges_hang_together(graph: &Graph, n: int, v: int, e1: int, e2: int)
    requires
        is_cycle_graph(graph, n),
        0 <= e1 < n,
        0 <= e2 < n,
    ensures
        joined_without(graph, v, e1, e2),
        !separates(graph, v, e1, e2),
{
    lemma_ring_arcs(graph, n, e1);
    lemma_ring_arcs(graph, n, e2);
    let a = if e1 != v {
        e1
    } else {
        next_on_ring(e1, n)
    };
    let b = if e2 != v {
        e2
    } else {
        next_on_ring(e2, n)
    };
    assert(is_end(graph, a, e1)) by {
        if e1 != v {
            let k = choose|k: int|
                0 <= k < graph.adj()[e1].len() && (#[trigger] graph.adj()[e1][k]).to == next_on_ring(e1, n)
                    && graph.adj()[e1][k].edge_index == e1;
            assert(graph.adj()[a][k].edge_index == e1);
        } else {
            let k = choose|k: int|
                0 <= k < graph.adj()[a].len() && (#[trigger] graph.adj()[a][k]).to == e1 && graph.adj()[a][k].edge_index
                    == e1;
            assert(graph.adj()[a][k].edge_index == e1);
        }
    }
    assert(is_end(graph, b, e2)) by {
        if e2 != v {
            let k = choose|k: int|
                0 <= k < graph.adj()[e2].len() && (#[trigger] graph.adj()[e2][k]).to == next_on_ring(e2, n)
                    && graph.adj()[e2][k].edge_index == e2;
            assert(graph.adj()[b][k].edge_index == e2);
        } else {
            let k = choose|k: int|
                0 <= k < graph.adj()[b].len() && (#[trigger] graph.adj()[b][k]).to == e2 && graph.adj()[b][k].edge_index
                    == e2;
            assert(graph.adj()[b][k].edge_index == e2);
        }
    }
    lemma_ring_stays_connected(graph, n, v, a, b);
}

/// The lists of `n` vertices after the first `m` edges of the path were
/// added as undirected edges: edge `i` joins `i` and `i + 1`.
pub open spec fn chain_adj(n: int, m: int) -> Seq<Seq<Edge>>
    decreases m,
{
    if m <= 0 {
        Seq::new(n as nat, |v: int| Seq::<Edge>::empty())
    } else {
        with_new_edge(chain_adj(n, m - 1), m - 1, m, (m - 1) as usize, (), false)
    }
}

/// The graph is the path of `n` vertices, built edge by edge.
pub open spec fn is_path_graph(graph: &Graph, n: int) -> bool {
    &&& 1 <= n <= usize::MAX
    &&& graph.order() == n
    &&& graph.total_edges == n - 1
    &&& graph.adj() == chain_adj(n, n - 1)
}

/// The list of vertex `u` after the first `m` edges of the path: the
/// record back along the edge before it, and the record along its own
/// edge.
pub open spec fn chain_list(m: int, u: int) -> Seq<Edge> {
    (if 1 <= u <= m {
        seq![record_to(u - 1, u - 1)]
    } else {
        Seq::empty()
    }) + (if u < m {
        seq![record_to(u + 1, u)]
    } else {
        Seq::empty()
    })
}

/// The lists of the path are what `chain_list` says.
pub proof fn lemma_chain_shape(n: int, m: int)
    requires
        1 <= n,
        0 <= m <= n - 1,
    ensures
        chain_adj(n, m).len() == n,
        forall|u: int| 0 <= u < n ==> #[trigger] chain_adj(n, m)[u] == chain_list(m, u),
    decreases m,
{
    if m == 0 {
        assert forall|u: int| 0 <= u < n implies #[trigger] chain_adj(n, m)[u] == chain_list(m, u) by {
            assert(chain_list(m, u) =~= Seq::<Edge>::empty());
        }
    } else {
        lemma_chain_shape(n, m - 1);
        let before = chain_adj(n, m - 1);
        assert forall|u: int| 0 <= u < n implies #[trigger] chain_adj(n, m)[u] == chain_list(m, u) by {
            assert(before[u] == chain_list(m - 1, u));
            assert(chain_adj(n, m)[u] =~= chain_list(m, u));
        }
    }
}

/// On the path, every record runs along the edge of its start to the next
/// vertex, or back along the edge of its end.
pub proof fn lemma_chain_records(graph: &Graph, n: int, u: int, k: int)
    requires
        is_path_graph(graph, n),
        0 <= u < n,
        0 <= k < graph.adj()[u].len(),
    ensures
        0 <= graph.adj()[u][k].to < n,
        0 <= graph.adj()[u][k].edge_index < n - 1,
        (graph.adj()[u][k].to == u + 1 && graph.adj()[u][k].edge_index == u) || (u == graph.adj()[u][k].to + 1
            && graph.adj()[u][k].edge_index == graph.adj()[u][k].to),
{
    lemma_chain_shape(n, n - 1);
    assert(graph.adj()[u] == chain_list(n - 1, u));
}

/// On the path, edge `i` has a record from `i` to `i + 1` and a record
/// back.
pub proof fn lemma_chain_arcs(graph: &Graph, n: int, i: int)
    requires
        is_path_graph(graph, n),
        0 <= i < n - 1,
    ensures
        graph.has_arc(i, i + 1, i),
        graph.has_arc(i + 1, i, i),
{
    lemma_chain_shape(n, n - 1);
    assert(graph.adj()[i] == chain_list(n - 1, i));
    assert(graph.adj()[i + 1] == chain_list(n - 1, i + 1));
    if i >= 1 {
        assert(graph.adj()[i][1] == record_to(i + 1, i));
    } else {
        assert(graph.adj()[i][0] == record_to(i + 1, i));
    }
    assert(graph.adj()[i + 1][0] == record_to(i, i));
}

/// A path is an undirected multigraph without loops whose edges are
/// numbered without gaps.
pub proof fn lemma_path_is_cut_graph(graph: &Graph, n: int)
    requires
        is_path_graph(graph, n),
    ensures
        cut_graph(graph),
{
    lemma_chain_shape(n, n - 1);
    assert forall|u: int, k: int| 0 <= u < graph.order() && 0 <= k < graph.adj()[u].len() implies (
    #[trigger] graph.adj()[u][k]).to < graph.order() && graph.adj()[u][k].to != u && graph.adj()[u][k].edge_index
        < graph.total_edges && graph.has_arc(
        graph.adj()[u][k].to as int,
        u,
        graph.adj()[u][k].edge_index as int,
    ) by {
        lemma_chain_records(graph, n, u, k);
        let r = graph.adj()[u][k];
        if r.to == u + 1 && r.edge_index == u {
            lemma_chain_arcs(graph, n, u);
        } else {
            lemma_chain_arcs(graph, n, r.to as int);
        }
    }
    assert forall|e: int| 0 <= e < graph.total_edges implies #[trigger] graph.index_used(e) by {
        lemma_chain_arcs(graph, n, e);
        let k = choose|k: int|
            0 <= k < graph.adj()[e].len() && (#[trigger] graph.adj()[e][k]).to == e + 1 && graph.adj()[e][k].edge_index
                == e;
        assert(graph.adj()[e][k].edge_index == e);
    }
    assert forall|u1: int, k1: int, u2: int, k2: int|
        0 <= u1 < graph.order() && 0 <= k1 < graph.adj()[u1].len() && 0 <= u2 < graph.order() && 0 <= k2
            < graph.adj()[u2].len() && (#[trigger] graph.adj()[u1][k1]).edge_index == (
        #[trigger] graph.adj()[u2][k2]).edge_index implies (u1 == u2 && k1 == k2) || (graph.adj()[u1][k1].to == u2
        && graph.adj()[u2][k2].to == u1) by {
        lemma_chain_records(graph, n, u1, k1);
        lemma_chain_records(graph, n, u2, k2);
        assert(graph.adj()[u1] == chain_list(n - 1, u1));
        assert(graph.adj()[u2] == chain_list(n - 1, u2));
    }
}

/// The edges of a path are its bridges, all of them.
pub proof fn lemma_path_edges_are_bridges(graph: &Graph, n: int)
    requires
        is_path_graph(graph, n),
    ensures
        forall|e: int| #[trigger] graph.is_bridge(e) <==> 0 <= e < n - 1,
{
    assert forall|e: int| #[trigger] graph.is_bridge(e) <==> 0 <= e < n - 1 by {
        if graph.is_bridge(e) {
            let (u, k) = choose|u: int, k: int|
                0 <= u < graph.order() && 0 <= k < graph.adj()[u].len() && (#[trigger] graph.adj()[u][k]).edge_index
                    == e;
            lemma_chain_records(graph, n, u, k);
        }
        if 0 <= e < n - 1 {
            lemma_chain_arcs(graph, n, e);
            let q = choose|q: int|
                0 <= q < graph.adj()[e].len() && (#[trigger] graph.adj()[e][q]).to == e + 1 && graph.adj()[e][q].edge_index
                    == e;
            assert(graph.adj()[e][q].edge_index == e);
            assert(graph.index_used(e));
            let r = graph.arrow_without(e);
            let low = |x: int| x <= e;
            let high = |x: int| x > e;
            assert forall|a: int, b: int| low(a) && #[trigger] r(a, b) implies low(b) by {
                let k = choose|k: int|
                    0 <= k < graph.adj()[a].len() && (#[trigger] graph.adj()[a][k]).to == b && graph.adj()[a][k].edge_index
                        != e;
                lemma_chain_records(graph, n, a, k);
            }
            assert forall|a: int, b: int| high(a) && #[trigger] r(a, b) implies high(b) by {
                let k = choose|k: int|
                    0 <= k < graph.adj()[a].len() && (#[trigger] graph.adj()[a][k]).to == b && graph.adj()[a][k].edge_index
                        != e;
                lemma_chain_records(graph, n, a, k);
            }
            assert forall|u: int, k: int|
                0 <= u < graph.order() && 0 <= k < graph.adj()[u].len() && (#[trigger] graph.adj()[u][k]).edge_index
                    == e implies !connects(r, u, graph.adj()[u][k].to as int) by {
                lemma_chain_records(graph, n, u, k);
                let to = graph.adj()[u][k].to as int;
                if connects(r, u, to) {
                    if u == e {
                        lemma_closed_holds(r, low, u, to);
                    } else {
                        lemma_closed_holds(r, high, u, to);
                    }
                }
            }
        }
    }
}

/// On a path, a list without repetitions that holds exactly the bridges
/// holds every edge once.
pub proof fn lemma_path_bridges_are_all(graph: &Graph, n: int, bridges: Seq<usize>)
    requires
        is_path_graph(graph, n),
        bridges.no_duplicates(),
        forall|e: usize| bridges.contains(e) <==> graph.is_bridge(e as int),
    ensures
        bridges.len() == n - 1,
        forall|e: usize| e < n - 1 ==> bridges.contains(e),
{
    lemma_path_edges_are_bridges(graph, n);
    assert forall|i: int| 0 <= i < bridges.len() implies #[trigger] bridges[i] < n - 1 by {
        assert(bridges.contains(bridges[i]));
    }
    lemma_distinct_below(bridges, n - 1);
    assert forall|e: usize| e < n - 1 implies bridges.contains(e) by {
        assert(graph.is_bridge(e as int));
    }
    lemma_distinct_cover_len(bridges, n - 1);
}

/// On a cycle of three vertices or more, a list that holds exactly the cut
/// vertices is empty, and a partition of the edges into components that
/// are not empty, in which edges of different components are separated by
/// some vertex, has one component with every edge in it.
pub proof fn lemma_cycle_is_one_block(graph: &Graph, n: int, cuts: Seq<usize>, d: &Decomposition)
    requires
        is_cycle_graph(graph, n),
        forall|a: int| 0 <= a < cuts.len() ==> cuts[a] < graph.order(),
        forall|v: usize| v < graph.order() ==> (cuts.contains(v) <==> graph.is_cut_vertex(v as int)),
        d.wf(),
        d.elements == graph.total_edges,
        forall|j: int| 0 <= j < d.groups().len() ==> (#[trigger] d.groups()[j]).len() > 0,
        forall|e1: int, e2: int|
            0 <= e1 < graph.total_edges && 0 <= e2 < graph.total_edges && #[trigger] d.group_of(e1)
                != #[trigger] d.group_of(e2) ==> exists|v: int| separates(graph, v, e1, e2),
    ensures
        cuts.len() == 0,
        d.groups().len() == 1,
        d.groups()[0].len() == n,
        forall|e: usize| e < n ==> d.groups()[0].contains(e),
{
    lemma_cycle_has_no_cut_vertex(graph, n);
    if cuts.len() > 0 {
        assert(cuts.contains(cuts[0]));
    }
    let g = d.groups();
    let home = d.group_of(0);
    assert forall|e: int| 0 <= e < n implies #[trigger] d.group_of(e) == home by {
        if d.group_of(e) != d.group_of(0) {
            let v = choose|v: int| separates(graph, v, e, 0);
            lemma_cycle_edges_hang_together(graph, n, v, e, 0);
        }
    }
    assert(0 <= d.component_map@[0] < g.len());
    assert forall|k: int| 0 <= k < g.len() implies (#[trigger] g[k]).len() > 0 && k == home by {
        assert(g[k].len() > 0);
        let x = g[k][0];
        assert(x < d.elements && d.component_map@[x as int] == k);
        assert(d.group_of(x as int) == home);
    }
    assert(g.len() == 1) by {
        if g.len() >= 2 {
            assert(g[0].len() > 0 && 0 == home);
            assert(g[1].len() > 0 && 1 == home);
        }
    }
    lemma_offset_zero(g);
    lemma_offset_next(g, 0);
    assert forall|e: usize| e < n implies g[0].contains(e) by {
        assert(g[d.component_map@[e as int] as int].contains(e));
    }
}

/// The cycle of `n` vertices: edge `i` joins `i` and the vertex after it.
pub fn cycle_graph(n: usize) -> (graph: Graph)
    requires
        3 <= n,
    ensures
        is_cycle_graph(&graph, n as int),
        cut_graph(&graph),
{
    let mut graph = Graph::new(n);
    let mut i: usize = 0;
    proof {
        let none = ring_adj(n as int, 0);
        assert(graph.adj().len() == none.len());
        assert forall|v: int| 0 <= v < n implies #[trigger] graph.adj()[v] =~= none[v] by {
            assert(graph.adj()[v].len() == 0);
        }
        assert(graph.adj() =~= none);
    }
    while i < n
        invariant
            3 <= n,
            i <= n,
            graph.order() == n,
            graph.total_edges == i,
            graph.adj() == ring_adj(n as int, i as int),
        decreases n - i,
    {
        let after: usize = if i + 1 == n {
            0
        } else {
            i + 1
        };
        graph.add_undirected_edge(i, after);
        proof {
            assert(graph.adj() =~= ring_adj(n as int, i + 1));
        }
        i += 1;
    }
    proof {
        lemma_cycle_is_cut_graph(&graph, n as int);
    }
    graph
}

/// The path of `n` vertices: edge `i` joins `i` and `i + 1`.
pub fn path_graph(n: usize) -> (graph: Graph)
    requires
        1 <= n,
    ensures
        is_path_graph(&graph, n as int),
        cut_graph(&graph),
{
    let mut graph = Graph::new(n);
    let mut i: usize = 0;
    proof {
        let none = chain_adj(n as int, 0);
        assert(graph.adj().len() == none.len());
        assert forall|v: int| 0 <= v < n implies #[trigger] graph.adj()[v] =~= none[v] by {
            assert(graph.adj()[v].len() == 0);
        }
        assert(graph.adj() =~= none);
    }
    while i + 1 < n
        invariant
            1 <= n,
            i + 1 <= n,
            graph.order() == n,
            graph.total_edges == i,
            graph.adj() == chain_adj(n as int, i as int),
        decreases n - i,
    {
        graph.add_undirected_edge(i, i + 1);
        proof {
            assert(graph.adj() =~= chain_adj(n as int, i + 1));
        }
        i += 1;
    }
    proof {
        lemma_path_is_cut_graph(&graph, n as int);
    }
    graph
}

} // verus!
