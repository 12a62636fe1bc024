//! What the entry and exit times of a finished depth-first traversal say
//! about the graph.

use crate::graph::Graph;
use crate::walks::connects;
use crate::walks::into;
use crate::walks::is_walk;
use crate::walks::lemma_closed_holds;
use vstd::prelude::*;

verus! {

/// Vertex `x` was entered and left while vertex `w` was being handled.
pub open spec fn inside(t_in: Seq<usize>, t_out: Seq<usize>, x: int, w: int) -> bool {
    t_in[w] <= t_in[x] && t_out[x] <= t_out[w]
}

/// Record `k` of vertex `x` leads to a vertex that was left before `x` was.
pub open spec fn leads_down(graph: &Graph, t_out: Seq<usize>, x: int, k: int) -> bool {
    t_out[graph.adj()[x][k].to as int] < t_out[x]
}

/// Every record leads to a vertex that was left before its start was.
pub open spec fn all_lead_down(graph: &Graph, t_out: Seq<usize>) -> bool {
    forall|x: int, k: int|
        0 <= x < graph.order() && 0 <= k < graph.adj()[x].len() ==> #[trigger] leads_down(
            graph,
            t_out,
            x,
            k,
        )
}

/// The times of a complete depth-first traversal of `graph` that started
/// at time `t0`: every vertex was entered and then left, the spans of two
/// vertices are nested or apart, each record leads to a vertex left earlier
/// or to one inside whose span its start lies, and a vertex leads to every
/// vertex inside its span.
pub open spec fn is_traversal_timing(
    graph: &Graph,
    t_in: Seq<usize>,
    t_out: Seq<usize>,
    t0: int,
    time: int,
) -> bool {
    let n = graph.order();
    &&& t_in.len() == n
    &&& t_out.len() == n
    &&& time == t0 + 2 * n
    &&& forall|x: int| 0 <= x < n ==> t0 <= #[trigger] t_in[x] < t_out[x] < time
    &&& forall|x: int, y: int|
        0 <= x < n && 0 <= y < n && x != y ==> #[trigger] t_out[x] != #[trigger] t_out[y]
    &&& forall|x: int, y: int|
        0 <= x < n && 0 <= y < n ==> (#[trigger] t_out[x] < t_in[y] || #[trigger] t_out[y] < t_in[x]
            || inside(t_in, t_out, x, y) || inside(t_in, t_out, y, x))
    &&& forall|x: int, k: int|
        0 <= x < n && 0 <= k < graph.adj()[x].len() ==> (#[trigger] leads_down(graph, t_out, x, k)
            || inside(t_in, t_out, x, graph.adj()[x][k].to as int))
    &&& forall|x: int, w: int|
        0 <= x < n && 0 <= w < n && #[trigger] inside(t_in, t_out, x, w) ==> connects(
            graph.arrow(),
            w,
            x,
        )
}

/// `order` lists every vertex once, and each record leads from an earlier
/// place of `order` to a later one.
pub open spec fn is_topological(graph: &Graph, order: Seq<usize>) -> bool {
    &&& is_vertex_listing(graph, order)
    &&& forall|u: int, w: int|
        0 <= w < graph.order() && #[trigger] graph.has_edge(u, w) ==> order.index_of(u as usize)
            < order.index_of(w as usize)
}

/// `order` lists every vertex of `graph` exactly once.
pub open spec fn is_vertex_listing(graph: &Graph, order: Seq<usize>) -> bool {
    &&& order.len() == graph.order()
    &&& order.no_duplicates()
    &&& forall|i: int| 0 <= i < order.len() ==> (#[trigger] order[i]) < graph.order()
    &&& forall|x: usize| x < graph.order() ==> order.contains(x)
}

/// `order` lists the vertices by rising exit time.
pub open spec fn by_rising_exit(order: Seq<usize>, t_out: Seq<usize>) -> bool {
    forall|a: int, b: int|
        0 <= a < b < order.len() ==> t_out[#[trigger] order[a] as int] < t_out[#[trigger] order[b] as int]
}

/// A list by rising exit time, read from its end, is a list by falling
/// exit time.
pub proof fn lemma_rising_is_falling_reversed(order: Seq<usize>, t_out: Seq<usize>)
    requires
        by_falling_exit(order.reverse(), t_out),
    ensures
        by_rising_exit(order, t_out),
{
    let back = order.reverse();
    assert forall|a: int, b: int| 0 <= a < b < order.len() implies t_out[#[trigger] order[a] as int] < t_out[
        #[trigger] order[b] as int] by {
        let n = order.len() as int;
        assert(back[n - 1 - a] == order[a]);
        assert(back[n - 1 - b] == order[b]);
    }
}

/// `order` lists the vertices by falling exit time.
pub open spec fn by_falling_exit(order: Seq<usize>, t_out: Seq<usize>) -> bool {
    forall|i: int, j: int|
        0 <= i < j < order.len() ==> t_out[#[trigger] order[i] as int] > t_out[#[trigger] order[j] as int]
}

/// Some record closes a walk: it leads back to a vertex that leads to its start.
pub open spec fn has_cycle(graph: &Graph) -> bool {
    exists|u: int, w: int| #[trigger] graph.has_edge(u, w) && connects(graph.arrow(), w, u)
}

/// Listing the vertices by falling exit time gives a topological order
/// exactly when every record leads to a vertex that was left earlier.
pub proof fn lemma_falling_exit_is_topological(graph: &Graph, order: Seq<usize>, t_out: Seq<usize>)
    requires
        graph.wf(),
        t_out.len() == graph.order(),
        is_vertex_listing(graph, order),
        by_falling_exit(order, t_out),
    ensures
        all_lead_down(graph, t_out) <==> is_topological(graph, order),
{
    let n = graph.order();
    graph.lemma_order_fits();
    if all_lead_down(graph, t_out) {
        assert forall|u: int, w: int| 0 <= w < n && #[trigger] graph.has_edge(u, w) implies order.index_of(
            u as usize,
        ) < order.index_of(w as usize) by {
            let k = choose|k: int| 0 <= k < graph.adj()[u].len() && (#[trigger] graph.adj()[u][k]).to == w;
            assert(leads_down(graph, t_out, u, k));
            assert(order.contains(u as usize));
            assert(order.contains(w as usize));
            let i = order.index_of(u as usize);
            let j = order.index_of(w as usize);
            if j < i {
                assert(t_out[order[j] as int] > t_out[order[i] as int]);
            }
        }
    }
    if is_topological(graph, order) {
        assert forall|x: int, k: int| 0 <= x < n && 0 <= k < graph.adj()[x].len() implies #[trigger] leads_down(
            graph,
            t_out,
            x,
            k,
        ) by {
            let w = graph.adj()[x][k].to as int;
            assert(w < n);
            assert(graph.has_edge(x, w));
            assert(order.contains(x as usize));
            assert(order.contains(w as usize));
            let i = order.index_of(x as usize);
            let j = order.index_of(w as usize);
            assert(t_out[order[i] as int] > t_out[order[j] as int]);
        }
    }
}

/// A graph that has a topological order has no cycle.
pub proof fn lemma_topological_means_acyclic(graph: &Graph, order: Seq<usize>)
    requires
        graph.wf(),
        is_topological(graph, order),
    ensures
        !has_cycle(graph),
{
    graph.lemma_order_fits();
    if has_cycle(graph) {
        let (u, w) = choose|u: int, w: int| #[trigger]
            graph.has_edge(u, w) && connects(graph.arrow(), w, u);
        let k = choose|k: int| 0 <= k < graph.adj()[u].len() && (#[trigger] graph.adj()[u][k]).to == w;
        assert(graph.adj()[u][k].to < graph.order());
        let later = |x: int|
            0 <= x < graph.order() && order.index_of(w as usize) <= order.index_of(x as usize);
        assert forall|a: int, b: int| later(a) && #[trigger] graph.arrow()(a, b) implies later(b) by {
            let k1 = choose|k1: int| 0 <= k1 < graph.adj()[a].len() && (#[trigger] graph.adj()[a][k1]).to == b;
            assert(graph.adj()[a][k1].to < graph.order());
            assert(graph.has_edge(a, b));
        }
        lemma_closed_holds(graph.arrow(), later, w, u);
    }
}

/// In a complete traversal, a record that does not lead to a vertex left
/// earlier closes a walk.
pub proof fn lemma_record_up_closes_walk(
    graph: &Graph,
    t_in: Seq<usize>,
    t_out: Seq<usize>,
    t0: int,
    time: int,
    x: int,
    k: int,
)
    requires
        graph.wf(),
        is_traversal_timing(graph, t_in, t_out, t0, time),
        0 <= x < graph.order(),
        0 <= k < graph.adj()[x].len(),
        !leads_down(graph, t_out, x, k),
    ensures
        has_cycle(graph),
{
    let w = graph.adj()[x][k].to as int;
    assert(w < graph.order());
    assert(leads_down(graph, t_out, x, k) || inside(t_in, t_out, x, w));
    assert(inside(t_in, t_out, x, w));
    assert(graph.has_edge(x, w));
}

/// The vertices that were left no later than `w`.
pub open spec fn left_by(t_out: Seq<usize>, w: int) -> spec_fn(int) -> bool {
    |x: int| 0 <= x < t_out.len() && t_out[x] <= t_out[w]
}

proof fn lemma_walk_stays_inside(
    graph: &Graph,
    t_in: Seq<usize>,
    t_out: Seq<usize>,
    t0: int,
    time: int,
    p: Seq<int>,
)
    requires
        graph.wf(),
        is_traversal_timing(graph, t_in, t_out, t0, time),
        is_walk(graph.arrow(), p),
        0 <= p.last() < graph.order(),
        forall|i: int| 0 <= i < p.len() ==> left_by(t_out, p.last())(#[trigger] p[i]),
    ensures
        inside(t_in, t_out, p.first(), p.last()),
    decreases p.len(),
{
    let w = p.last();
    if p.len() > 1 {
        let rest = p.drop_first();
        assert forall|i: int| 0 <= i < rest.len() - 1 implies graph.arrow()(
            #[trigger] rest[i],
            rest[i + 1],
        ) by {
            assert(graph.arrow()(p[i + 1], p[i + 1 + 1]));
        }
        assert forall|i: int| 0 <= i < rest.len() implies left_by(t_out, rest.last())(
            #[trigger] rest[i],
        ) by {
            assert(left_by(t_out, w)(p[i + 1]));
        }
        lemma_walk_stays_inside(graph, t_in, t_out, t0, time, rest);
        let a = p[0];
        let b = p[1];
        assert(rest[0] == b);
        assert(graph.arrow()(p[0int], p[0int + 1]));
        assert(left_by(t_out, w)(p[0]));
        assert(left_by(t_out, w)(p[1]));
        let k = choose|k: int| 0 <= k < graph.adj()[a].len() && (#[trigger] graph.adj()[a][k]).to == b;
        assert(leads_down(graph, t_out, a, k) || inside(t_in, t_out, a, b));
        assert(t_out[a] < t_in[w] || t_out[w] < t_in[a] || inside(t_in, t_out, a, w) || inside(
            t_in,
            t_out,
            w,
            a,
        ));
        assert(t_in[b] < t_out[b]);
        assert(t_in[a] < t_out[a]);
        assert(t_in[w] < t_out[w]);
        if inside(t_in, t_out, w, a) && !inside(t_in, t_out, a, w) {
            if a != w {
                assert(t_out[a] != t_out[w]);
            }
        }
    }
}

/// In a complete traversal, when a walk leads from `u` to `w` through
/// vertices that were all left no later than `w`, then `w` leads back to `u`.
pub proof fn lemma_late_exit_leads_back(
    graph: &Graph,
    t_in: Seq<usize>,
    t_out: Seq<usize>,
    t0: int,
    time: int,
    u: int,
    w: int,
)
    requires
        graph.wf(),
        is_traversal_timing(graph, t_in, t_out, t0, time),
        0 <= u < graph.order(),
        0 <= w < graph.order(),
        t_out[u] <= t_out[w],
        connects(into(graph.arrow(), left_by(t_out, w)), u, w),
    ensures
        connects(graph.arrow(), w, u),
{
    let r = into(graph.arrow(), left_by(t_out, w));
    let p = choose|p: Seq<int>| #[trigger] is_walk(r, p) && p.first() == u && p.last() == w;
    assert forall|i: int| 0 <= i < p.len() - 1 implies graph.arrow()(#[trigger] p[i], p[i + 1]) by {
        assert(r(p[i], p[i + 1]));
    }
    assert forall|i: int| 0 <= i < p.len() implies left_by(t_out, p.last())(#[trigger] p[i]) by {
        if i > 0 {
            assert(r(p[i - 1], p[i - 1 + 1]));
        }
    }
    lemma_walk_stays_inside(graph, t_in, t_out, t0, time, p);
}

} // verus!
