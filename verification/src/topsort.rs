//! Topological sorting with cycle detection by a timed depth-first traversal.

use crate::counting::lemma_distinct_cover_len;
use crate::dfs::lemma_white_count_all;
use crate::dfs::lemma_white_count_bound;
use crate::dfs::lemma_white_count_update;
use crate::dfs::white_count;
use crate::dfs::DFSSpace;
use crate::graph::Graph;
use crate::graph::VisitColor;
use crate::timing::by_falling_exit;
use crate::timing::by_rising_exit;
use crate::timing::lemma_rising_is_falling_reversed;
use crate::timing::has_cycle;
use crate::timing::inside;
use crate::timing::is_topological;
use crate::timing::is_traversal_timing;
use crate::timing::is_vertex_listing;
use crate::timing::leads_down;
use crate::timing::lemma_falling_exit_is_topological;
use crate::timing::lemma_record_up_closes_walk;
use crate::timing::lemma_topological_means_acyclic;
use crate::walks::connects;
use crate::walks::lemma_connects_push;
use crate::walks::lemma_connects_self;
use crate::walks::lemma_connects_trans;
use vstd::prelude::*;

verus! {

/// What is known of record `k` of a black vertex `x` while the traversal
/// runs: it leads to no white vertex; if to a black one, then to one left
/// earlier or one in whose span `x` lies; if to a gray one, then to one
/// entered before `x`.
pub open spec fn record_ok(graph: &Graph, s: &DFSSpace, x: int, k: int) -> bool {
    let w = graph.adj()[x][k].to as int;
    &&& s.visit_colors@[w] != VisitColor::White
    &&& s.visit_colors@[w] == VisitColor::Black ==> s.t_out@[w] < s.t_out@[x] || inside(
        s.t_in@,
        s.t_out@,
        x,
        w,
    )
    &&& s.visit_colors@[w] == VisitColor::Gray ==> s.t_in@[w] < s.t_in@[x]
}

/// Record `k` of `x` does not lead to a black vertex that was left before `x`.
pub open spec fn record_up(graph: &Graph, s: &DFSSpace, x: int, k: int) -> bool {
    let w = graph.adj()[x][k].to as int;
    !(s.visit_colors@[w] == VisitColor::Black && s.t_out@[w] < s.t_out@[x])
}

/// Some record of `x` does not lead to a black vertex that was left before `x`.
pub open spec fn has_record_up(graph: &Graph, s: &DFSSpace, x: int) -> bool {
    exists|k: int| 0 <= k < graph.adj()[x].len() && #[trigger] record_up(graph, s, x, k)
}

/// What holds between any two steps of the timed traversal; `post` lists
/// the black vertices in the order in which they were left.
pub open spec fn timed_inv(graph: &Graph, s: &DFSSpace, post: Seq<usize>, t0: int) -> bool {
    let n = graph.order();
    let c = s.visit_colors@;
    let tin = s.t_in@;
    let tout = s.t_out@;
    &&& c.len() == n
    &&& tin.len() == n
    &&& tout.len() == n
    &&& t0 <= s.time
    &&& post.no_duplicates()
    &&& forall|i: int| 0 <= i < post.len() ==> (#[trigger] post[i]) < n && c[post[i] as int] == VisitColor::Black
    &&& forall|x: usize| x < n && #[trigger] c[x as int] == VisitColor::Black ==> post.contains(x)
    &&& forall|x: int|
        0 <= x < n && #[trigger] c[x] == VisitColor::Black ==> t0 <= tin[x] < tout[x] < s.time
    &&& forall|x: int| 0 <= x < n && #[trigger] c[x] == VisitColor::Gray ==> t0 <= tin[x] < s.time
    &&& forall|i: int, j: int|
        0 <= i < j < post.len() ==> tout[#[trigger] post[i] as int] < tout[#[trigger] post[j] as int]
    &&& forall|x: int, y: int|
        0 <= x < n && 0 <= y < n && #[trigger] c[x] == VisitColor::Black && #[trigger] c[y]
            == VisitColor::Black ==> tout[x] < tin[y] || tout[y] < tin[x] || inside(tin, tout, x, y)
            || inside(tin, tout, y, x)
    &&& forall|g: int, x: int|
        0 <= g < n && 0 <= x < n && #[trigger] c[g] == VisitColor::Gray && #[trigger] c[x]
            == VisitColor::Black ==> tout[x] < tin[g] || tin[g] < tin[x]
    &&& forall|x: int, k: int|
        0 <= x < n && 0 <= k < graph.adj()[x].len() && c[x] == VisitColor::Black ==> #[trigger] record_ok(
            graph,
            s,
            x,
            k,
        )
    &&& forall|w: int, x: int|
        0 <= w < n && 0 <= x < n && c[w] == VisitColor::Black && c[x] == VisitColor::Black
            && #[trigger] inside(tin, tout, x, w) ==> connects(graph.arrow(), w, x)
    &&& forall|g: int, x: int|
        0 <= g < n && 0 <= x < n && #[trigger] c[g] == VisitColor::Gray && #[trigger] c[x]
            == VisitColor::Black && tin[g] < tin[x] ==> connects(graph.arrow(), g, x)
}

/// How a state `s` relates to an earlier state `s0` when, in between, only
/// white vertices were touched, and those that were are now black, were
/// entered at `since` or later, and are led to by `v`.
pub open spec fn grown_from(graph: &Graph, s0: &DFSSpace, s: &DFSSpace, v: int, since: int, skip: int) -> bool {
    forall|x: int|
        0 <= x < graph.order() && x != skip ==> (#[trigger] s0.visit_colors@[x] != VisitColor::White ==> s.visit_colors@[x]
            == s0.visit_colors@[x] && s.t_in@[x] == s0.t_in@[x] && s.t_out@[x] == s0.t_out@[x]) && (
        s0.visit_colors@[x] == VisitColor::White ==> s.visit_colors@[x] == VisitColor::White || (
        s.visit_colors@[x] == VisitColor::Black && since <= s.t_in@[x] && connects(
            graph.arrow(),
            v,
            x,
        )))
}

/// Some vertex that `post` lists from place `from` on has a record that
/// does not lead to a black vertex left earlier.
pub open spec fn some_record_up(graph: &Graph, s: &DFSSpace, post: Seq<usize>, from: int) -> bool {
    exists|j: int| from <= j < post.len() && #[trigger] has_record_up(graph, s, post[j] as int)
}

/// One of the first `k` records of `v` leads to a gray vertex.
pub open spec fn some_gray_target(graph: &Graph, s: &DFSSpace, v: int, k: int) -> bool {
    exists|k1: int|
        0 <= k1 < k && s.visit_colors@[(#[trigger] graph.adj()[v][k1]).to as int] == VisitColor::Gray
}

/// What holds while the records of the gray vertex `v` are handled, after
/// the first `k` of them.
pub open spec fn timed_level(
    graph: &Graph,
    s0: &DFSSpace,
    s: &DFSSpace,
    post0: Seq<usize>,
    post: Seq<usize>,
    v: int,
    k: int,
    found: bool,
    t0: int,
) -> bool {
    let n = graph.order();
    let c = s.visit_colors@;
    &&& timed_inv(graph, s, post, t0)
    &&& 0 <= v < n
    &&& s0.visit_colors@.len() == n
    &&& s0.visit_colors@[v] == VisitColor::White
    &&& c[v] == VisitColor::Gray
    &&& s.t_in@[v] == s0.time
    &&& s.time > s0.time
    &&& s.children == s0.children
    &&& forall|g: int|
        0 <= g < n && #[trigger] c[g] == VisitColor::Gray ==> connects(graph.arrow(), g, v) && (g != v
            ==> s.t_in@[g] < s.t_in@[v])
    &&& grown_from(graph, s0, s, v, s0.time + 1, v)
    &&& post0.len() <= post.len()
    &&& post.take(post0.len() as int) == post0
    &&& s.time + 2 * white_count(c) + 1 == s0.time + 2 * white_count(s0.visit_colors@)
    &&& forall|k1: int|
        0 <= k1 < k ==> c[(#[trigger] graph.adj()[v][k1]).to as int] != VisitColor::White
    &&& found <==> some_record_up(graph, s, post, post0.len() as int) || some_gray_target(graph, s, v, k)
}

/// What a walk from `v` has achieved when it returns.
pub open spec fn timed_result(
    graph: &Graph,
    s0: &DFSSpace,
    s: &DFSSpace,
    post0: Seq<usize>,
    post: Seq<usize>,
    v: int,
    found: bool,
    t0: int,
) -> bool {
    &&& timed_inv(graph, s, post, t0)
    &&& s.children == s0.children
    &&& grown_from(graph, s0, s, v, s0.time as int, -1)
    &&& s.visit_colors@[v] == VisitColor::Black
    &&& post0.len() < post.len()
    &&& post.take(post0.len() as int) == post0
    &&& s.time + 2 * white_count(s.visit_colors@) == s0.time + 2 * white_count(s0.visit_colors@)
    &&& found <==> some_record_up(graph, s, post, post0.len() as int)
}

/// What a walk from `v` needs at its start.
pub open spec fn timed_start(graph: &Graph, s0: &DFSSpace, post0: Seq<usize>, v: int, t0: int) -> bool {
    &&& graph.wf()
    &&& 0 <= v < graph.order()
    &&& timed_inv(graph, s0, post0, t0)
    &&& s0.visit_colors@[v] == VisitColor::White
    &&& forall|g: int|
        0 <= g < graph.order() && #[trigger] s0.visit_colors@[g] == VisitColor::Gray ==> connects(
            graph.arrow(),
            g,
            v,
        )
    &&& s0.time + 2 * white_count(s0.visit_colors@) <= usize::MAX
}

proof fn lemma_timed_enter(graph: &Graph, s0: &DFSSpace, s: &DFSSpace, post: Seq<usize>, v: int, t0: int)
    requires
        timed_start(graph, s0, post, v, t0),
        s.visit_colors@ == s0.visit_colors@.update(v, VisitColor::Gray),
        s.t_in@ == s0.t_in@.update(v, s0.time),
        s.t_out == s0.t_out,
        s.children == s0.children,
        s.time == s0.time + 1,
    ensures
        timed_level(graph, s0, s, post, post, v, 0, false, t0),
{
    let n = graph.order();
    let c = s.visit_colors@;
    lemma_white_count_update(s0.visit_colors@, v, VisitColor::Gray);
    lemma_connects_self(graph.arrow(), v);
    assert forall|x: int, k: int|
        0 <= x < n && 0 <= k < graph.adj()[x].len() && c[x] == VisitColor::Black implies #[trigger] record_ok(
        graph,
        s,
        x,
        k,
    ) by {
        assert(s0.visit_colors@[x] == VisitColor::Black);
        assert(record_ok(graph, s0, x, k));
    }
    assert forall|x: int| 0 <= x < n && #[trigger] c[x] == VisitColor::Black implies t0 <= s.t_in@[x]
        < s.t_out@[x] < s.time by {
        assert(s0.visit_colors@[x] == VisitColor::Black);
    }
    assert forall|x: int| 0 <= x < n && #[trigger] c[x] == VisitColor::Gray implies t0 <= s.t_in@[x]
        < s.time by {
        if x != v {
            assert(s0.visit_colors@[x] == VisitColor::Gray);
        }
    }
    assert forall|g: int, x: int|
        0 <= g < n && 0 <= x < n && #[trigger] c[g] == VisitColor::Gray && #[trigger] c[x]
            == VisitColor::Black implies s.t_out@[x] < s.t_in@[g] || s.t_in@[g] < s.t_in@[x] by {
        assert(s0.visit_colors@[x] == VisitColor::Black);
        if g != v {
            assert(s0.visit_colors@[g] == VisitColor::Gray);
        }
    }
    assert forall|g: int, x: int|
        0 <= g < n && 0 <= x < n && #[trigger] c[g] == VisitColor::Gray && #[trigger] c[x]
            == VisitColor::Black && s.t_in@[g] < s.t_in@[x] implies connects(graph.arrow(), g, x) by {
        assert(s0.visit_colors@[x] == VisitColor::Black);
        if g != v {
            assert(s0.visit_colors@[g] == VisitColor::Gray);
        }
    }
    assert forall|w: int, x: int|
        0 <= w < n && 0 <= x < n && c[w] == VisitColor::Black && c[x] == VisitColor::Black
            && #[trigger] inside(s.t_in@, s.t_out@, x, w) implies connects(graph.arrow(), w, x) by {
        assert(s0.visit_colors@[x] == VisitColor::Black);
        assert(s0.visit_colors@[w] == VisitColor::Black);
        assert(inside(s0.t_in@, s0.t_out@, x, w));
    }
    assert forall|x: int, y: int|
        0 <= x < n && 0 <= y < n && #[trigger] c[x] == VisitColor::Black && #[trigger] c[y]
            == VisitColor::Black implies s.t_out@[x] < s.t_in@[y] || s.t_out@[y] < s.t_in@[x] || inside(
        s.t_in@,
        s.t_out@,
        x,
        y,
    ) || inside(s.t_in@, s.t_out@, y, x) by {
        assert(s0.visit_colors@[x] == VisitColor::Black);
        assert(s0.visit_colors@[y] == VisitColor::Black);
    }
    assert forall|g: int| 0 <= g < n && #[trigger] c[g] == VisitColor::Gray implies connects(
        graph.arrow(),
        g,
        v,
    ) && (g != v ==> s.t_in@[g] < s.t_in@[v]) by {
        if g != v {
            assert(s0.visit_colors@[g] == VisitColor::Gray);
        }
    }
    assert(post.take(post.len() as int) =~= post);
    assert forall|i: int| 0 <= i < post.len() implies (#[trigger] post[i]) < n && c[post[i] as int]
        == VisitColor::Black by {
        assert(s0.visit_colors@[post[i] as int] == VisitColor::Black);
    }
    assert forall|x: usize| x < n && #[trigger] c[x as int] == VisitColor::Black implies post.contains(
        x,
    ) by {
        assert(s0.visit_colors@[x as int] == VisitColor::Black);
    }
    assert(timed_inv(graph, s, post, t0));
    assert(!some_record_up(graph, s, post, post.len() as int));
    assert(!some_gray_target(graph, s, v, 0));
}

/// Between two states of which the later one grew from the earlier, the
/// records of a vertex that was black already say the same.
proof fn lemma_record_up_kept(graph: &Graph, a: &DFSSpace, b: &DFSSpace, post: Seq<usize>, v: int, since: int, x: int, t0: int)
    requires
        graph.wf(),
        timed_inv(graph, a, post, t0),
        grown_from(graph, a, b, v, since, -1),
        0 <= x < graph.order(),
        a.visit_colors@[x] == VisitColor::Black,
    ensures
        has_record_up(graph, a, x) == has_record_up(graph, b, x),
{
    assert forall|k: int| 0 <= k < graph.adj()[x].len() implies #[trigger] record_up(graph, a, x, k)
        == record_up(graph, b, x, k) by {
        assert(record_ok(graph, a, x, k));
        let w = graph.adj()[x][k].to as int;
        assert(a.visit_colors@[w] != VisitColor::White);
        assert(a.visit_colors@[x] != VisitColor::White);
    }
    if has_record_up(graph, a, x) {
        let k = choose|k: int| 0 <= k < graph.adj()[x].len() && #[trigger] record_up(graph, a, x, k);
        assert(record_up(graph, b, x, k));
    }
    if has_record_up(graph, b, x) {
        let k = choose|k: int| 0 <= k < graph.adj()[x].len() && #[trigger] record_up(graph, b, x, k);
        assert(record_up(graph, a, x, k));
    }
}

proof fn lemma_timed_descend(
    graph: &Graph,
    s0: &DFSSpace,
    s: &DFSSpace,
    post0: Seq<usize>,
    post: Seq<usize>,
    v: int,
    k: int,
    found: bool,
    t0: int,
)
    requires
        graph.wf(),
        timed_start(graph, s0, post0, v, t0),
        timed_level(graph, s0, s, post0, post, v, k, found, t0),
        0 <= k < graph.adj()[v].len(),
        s.visit_colors@[graph.adj()[v][k].to as int] == VisitColor::White,
    ensures
        timed_start(graph, s, post, graph.adj()[v][k].to as int, t0),
        white_count(s.visit_colors@) < white_count(s0.visit_colors@),
{
    let to = graph.adj()[v][k].to as int;
    assert(graph.has_edge(v, to));
    assert(graph.arrow()(v, to));
    assert forall|g: int|
        0 <= g < graph.order() && #[trigger] s.visit_colors@[g] == VisitColor::Gray implies connects(
        graph.arrow(),
        g,
        to,
    ) by {
        lemma_connects_push(graph.arrow(), g, v, to);
    }
}

proof fn lemma_timed_skip(
    graph: &Graph,
    s0: &DFSSpace,
    s: &DFSSpace,
    post0: Seq<usize>,
    post: Seq<usize>,
    v: int,
    k: int,
    found: bool,
    t0: int,
)
    requires
        graph.wf(),
        timed_level(graph, s0, s, post0, post, v, k, found, t0),
        0 <= k < graph.adj()[v].len(),
        s.visit_colors@[graph.adj()[v][k].to as int] != VisitColor::White,
    ensures
        timed_level(
            graph,
            s0,
            s,
            post0,
            post,
            v,
            k + 1,
            found || s.visit_colors@[graph.adj()[v][k].to as int] == VisitColor::Gray,
            t0,
        ),
{
    let gray_now = s.visit_colors@[graph.adj()[v][k].to as int] == VisitColor::Gray;
    if some_gray_target(graph, s, v, k) {
        let k1 = choose|k1: int|
            0 <= k1 < k && s.visit_colors@[(#[trigger] graph.adj()[v][k1]).to as int] == VisitColor::Gray;
        assert(0 <= k1 < k + 1);
    }
    if gray_now {
        assert(s.visit_colors@[graph.adj()[v][k].to as int] == VisitColor::Gray);
        assert(some_gray_target(graph, s, v, k + 1));
    }
    if some_gray_target(graph, s, v, k + 1) {
        let k1 = choose|k1: int|
            0 <= k1 < k + 1 && s.visit_colors@[(#[trigger] graph.adj()[v][k1]).to as int]
                == VisitColor::Gray;
        if k1 < k {
            assert(some_gray_target(graph, s, v, k));
        }
    }
}

proof fn lemma_timed_child(
    graph: &Graph,
    s0: &DFSSpace,
    mid: &DFSSpace,
    s: &DFSSpace,
    post0: Seq<usize>,
    postm: Seq<usize>,
    post: Seq<usize>,
    v: int,
    k: int,
    found: bool,
    child_found: bool,
    t0: int,
)
    requires
        graph.wf(),
        timed_level(graph, s0, mid, post0, postm, v, k, found, t0),
        0 <= k < graph.adj()[v].len(),
        mid.visit_colors@[graph.adj()[v][k].to as int] == VisitColor::White,
        timed_result(graph, mid, s, postm, post, graph.adj()[v][k].to as int, child_found, t0),
    ensures
        timed_level(graph, s0, s, post0, post, v, k + 1, found || child_found, t0),
{
    let n = graph.order();
    let to = graph.adj()[v][k].to as int;
    let c = s.visit_colors@;
    assert(graph.has_edge(v, to));
    assert(graph.arrow()(v, to));
    lemma_connects_self(graph.arrow(), v);
    lemma_connects_push(graph.arrow(), v, v, to);
    assert(mid.visit_colors@[v] != VisitColor::White);
    assert forall|g: int| 0 <= g < n && #[trigger] c[g] == VisitColor::Gray implies connects(
        graph.arrow(),
        g,
        v,
    ) && (g != v ==> s.t_in@[g] < s.t_in@[v]) by {
        assert(mid.visit_colors@[g] != VisitColor::White);
        assert(mid.visit_colors@[g] == VisitColor::Gray);
    }
    assert forall|x: int| 0 <= x < n && x != v implies (#[trigger] s0.visit_colors@[x] != VisitColor::White
        ==> s.visit_colors@[x] == s0.visit_colors@[x] && s.t_in@[x] == s0.t_in@[x] && s.t_out@[x]
        == s0.t_out@[x]) && (s0.visit_colors@[x] == VisitColor::White ==> s.visit_colors@[x]
        == VisitColor::White || (s.visit_colors@[x] == VisitColor::Black && s0.time + 1 <= s.t_in@[x]
        && connects(graph.arrow(), v, x))) by {
        if s0.visit_colors@[x] != VisitColor::White {
            assert(mid.visit_colors@[x] == s0.visit_colors@[x]);
        } else {
            if mid.visit_colors@[x] == VisitColor::White {
                if s.visit_colors@[x] != VisitColor::White {
                    lemma_connects_trans(graph.arrow(), v, to, x);
                }
            } else {
                assert(mid.visit_colors@[x] == VisitColor::Black);
            }
        }
    }
    assert(post.take(post0.len() as int) =~= postm.take(post0.len() as int)) by {
        assert(post.take(postm.len() as int).take(post0.len() as int) =~= post.take(
            post0.len() as int,
        ));
    }
    assert forall|k1: int| 0 <= k1 < k + 1 implies c[(#[trigger] graph.adj()[v][k1]).to as int]
        != VisitColor::White by {
        if k1 < k {
            assert(mid.visit_colors@[graph.adj()[v][k1].to as int] != VisitColor::White);
        }
    }
    // the records that lead to gray vertices
    if some_gray_target(graph, mid, v, k) {
        let k1 = choose|k1: int|
            0 <= k1 < k && mid.visit_colors@[(#[trigger] graph.adj()[v][k1]).to as int]
                == VisitColor::Gray;
        assert(c[graph.adj()[v][k1].to as int] == VisitColor::Gray);
        assert(some_gray_target(graph, s, v, k + 1));
    }
    if some_gray_target(graph, s, v, k + 1) {
        let k1 = choose|k1: int|
            0 <= k1 < k + 1 && c[(#[trigger] graph.adj()[v][k1]).to as int] == VisitColor::Gray;
        assert(k1 < k);
        assert(mid.visit_colors@[graph.adj()[v][k1].to as int] != VisitColor::White);
        assert(some_gray_target(graph, mid, v, k));
    }
    // the records of the vertices left since the walk from `v` began
    assert forall|j: int| 0 <= j < postm.len() implies has_record_up(graph, mid, #[trigger] postm[j] as int)
        == has_record_up(graph, s, postm[j] as int) by {
        lemma_record_up_kept(graph, mid, s, postm, to, mid.time as int, postm[j] as int, t0);
    }
    assert forall|j: int| 0 <= j < postm.len() implies post[j] == postm[j] by {
        assert(post.take(postm.len() as int)[j] == post[j]);
    }
    if some_record_up(graph, mid, postm, post0.len() as int) {
        let j = choose|j: int|
            post0.len() <= j < postm.len() && #[trigger] has_record_up(graph, mid, postm[j] as int);
        assert(has_record_up(graph, s, post[j] as int));
        assert(some_record_up(graph, s, post, post0.len() as int));
    }
    if some_record_up(graph, s, post, postm.len() as int) {
        let j = choose|j: int|
            postm.len() <= j < post.len() && #[trigger] has_record_up(graph, s, post[j] as int);
        assert(some_record_up(graph, s, post, post0.len() as int));
    }
    if some_record_up(graph, s, post, post0.len() as int) {
        let j = choose|j: int|
            post0.len() <= j < post.len() && #[trigger] has_record_up(graph, s, post[j] as int);
        if j < postm.len() {
            assert(has_record_up(graph, mid, postm[j] as int));
            assert(some_record_up(graph, mid, postm, post0.len() as int));
        } else {
            assert(some_record_up(graph, s, post, postm.len() as int));
        }
    }
}

#[verifier::rlimit(80)]
#[verifier::spinoff_prover]
proof fn lemma_timed_finish(
    graph: &Graph,
    s0: &DFSSpace,
    s: &DFSSpace,
    s1: &DFSSpace,
    post0: Seq<usize>,
    post: Seq<usize>,
    v: int,
    found: bool,
    t0: int,
)
    requires
        graph.wf(),
        timed_level(graph, s0, s, post0, post, v, graph.adj()[v].len() as int, found, t0),
        s1.visit_colors@ == s.visit_colors@.update(v, VisitColor::Black),
        s1.t_in == s.t_in,
        s1.t_out@ == s.t_out@.update(v, s.time),
        s1.time == s.time + 1,
        s1.children == s.children,
    ensures
        timed_result(graph, s0, s1, post0, post.push(v as usize), v, found, t0),
{
    let n = graph.order();
    let c = s.visit_colors@;
    let c1 = s1.visit_colors@;
    let post1 = post.push(v as usize);
    let tin = s1.t_in@;
    let tout = s1.t_out@;
    graph.lemma_order_fits();
    lemma_white_count_update(c, v, VisitColor::Black);
    lemma_connects_self(graph.arrow(), v);
    assert(!post.contains(v as usize)) by {
        if post.contains(v as usize) {
            let i = post.index_of(v as usize);
            assert(c[post[i] as int] == VisitColor::Black);
        }
    }
    assert(post1.no_duplicates());
    assert forall|i: int| 0 <= i < post1.len() implies (#[trigger] post1[i]) < n && c1[post1[i] as int]
        == VisitColor::Black by {
        if i < post.len() {
            assert(post1[i] == post[i]);
        }
    }
    assert forall|x: usize| x < n && #[trigger] c1[x as int] == VisitColor::Black implies post1.contains(
        x,
    ) by {
        if x == v {
            assert(post1[post.len() as int] == x);
        } else {
            assert(c[x as int] == VisitColor::Black);
            let i = post.index_of(x);
            assert(post.contains(x));
            assert(post1[i] == x);
        }
    }
    assert forall|x: int| 0 <= x < n && #[trigger] c1[x] == VisitColor::Black implies t0 <= tin[x]
        < tout[x] < s1.time by {
        if x != v {
            assert(c[x] == VisitColor::Black);
        } else {
            assert(c[v] == VisitColor::Gray);
        }
    }
    assert forall|x: int| 0 <= x < n && #[trigger] c1[x] == VisitColor::Gray implies t0 <= tin[x]
        < s1.time by {
        assert(c[x] == VisitColor::Gray);
    }
    assert forall|i: int, j: int| 0 <= i < j < post1.len() implies tout[#[trigger] post1[i] as int]
        < tout[#[trigger] post1[j] as int] by {
        assert(post1[i] == post[i]);
        assert(c[post[i] as int] == VisitColor::Black);
        if j < post.len() {
            assert(post1[j] == post[j]);
            assert(c[post[j] as int] == VisitColor::Black);
        }
    }
    assert forall|x: int, y: int|
        0 <= x < n && 0 <= y < n && #[trigger] c1[x] == VisitColor::Black && #[trigger] c1[y]
            == VisitColor::Black implies tout[x] < tin[y] || tout[y] < tin[x] || inside(tin, tout, x, y)
        || inside(tin, tout, y, x) by {
        if x != v && y != v {
            assert(c[x] == VisitColor::Black && c[y] == VisitColor::Black);
        } else if x != v {
            assert(c[v] == VisitColor::Gray && c[x] == VisitColor::Black);
        } else if y != v {
            assert(c[v] == VisitColor::Gray && c[y] == VisitColor::Black);
        }
    }
    assert forall|g: int, x: int|
        0 <= g < n && 0 <= x < n && #[trigger] c1[g] == VisitColor::Gray && #[trigger] c1[x]
            == VisitColor::Black implies tout[x] < tin[g] || tin[g] < tin[x] by {
        assert(c[g] == VisitColor::Gray);
        if x != v {
            assert(c[x] == VisitColor::Black);
        }
    }
    assert forall|x: int, k: int|
        0 <= x < n && 0 <= k < graph.adj()[x].len() && c1[x] == VisitColor::Black implies #[trigger] record_ok(
        graph,
        s1,
        x,
        k,
    ) by {
        let w = graph.adj()[x][k].to as int;
        assert(w < n);
        if x != v {
            assert(c[x] == VisitColor::Black);
            assert(record_ok(graph, s, x, k));
            if w == v {
                assert(c[v] == VisitColor::Gray);
            }
        } else {
            assert(c[w] != VisitColor::White);
            if w != v {
                if c[w] == VisitColor::Black {
                } else {
                    assert(c[w] == VisitColor::Gray);
                }
            }
        }
    }
    assert forall|w: int, x: int|
        0 <= w < n && 0 <= x < n && c1[w] == VisitColor::Black && c1[x] == VisitColor::Black
            && #[trigger] inside(tin, tout, x, w) implies connects(graph.arrow(), w, x) by {
        if w != v && x != v {
            assert(c[w] == VisitColor::Black && c[x] == VisitColor::Black);
            assert(inside(s.t_in@, s.t_out@, x, w));
        } else if w == v && x != v {
            assert(c[v] == VisitColor::Gray && c[x] == VisitColor::Black);
        } else if x == v && w != v {
            assert(c[w] == VisitColor::Black);
        }
    }
    assert forall|g: int, x: int|
        0 <= g < n && 0 <= x < n && #[trigger] c1[g] == VisitColor::Gray && #[trigger] c1[x]
            == VisitColor::Black && tin[g] < tin[x] implies connects(graph.arrow(), g, x) by {
        assert(c[g] == VisitColor::Gray);
        if x != v {
            assert(c[x] == VisitColor::Black);
        }
    }
    assert(timed_inv(graph, s1, post1, t0));
    assert forall|x: int| 0 <= x < n && x != -1 implies (#[trigger] s0.visit_colors@[x] != VisitColor::White
        ==> s1.visit_colors@[x] == s0.visit_colors@[x] && s1.t_in@[x] == s0.t_in@[x] && s1.t_out@[x]
        == s0.t_out@[x]) && (s0.visit_colors@[x] == VisitColor::White ==> s1.visit_colors@[x]
        == VisitColor::White || (s1.visit_colors@[x] == VisitColor::Black && s0.time <= s1.t_in@[x]
        && connects(graph.arrow(), v, x))) by {
        if x != v {
            assert(s0.visit_colors@[x] != VisitColor::White ==> s.visit_colors@[x]
                == s0.visit_colors@[x]);
        }
    }
    assert(post1.take(post0.len() as int) =~= post.take(post0.len() as int));
    // records
    assert forall|j: int| 0 <= j < post.len() implies has_record_up(graph, s, #[trigger] post[j] as int)
        == has_record_up(graph, s1, post[j] as int) by {
        let x = post[j] as int;
        assert(c[x] == VisitColor::Black);
        assert forall|k: int| 0 <= k < graph.adj()[x].len() implies #[trigger] record_up(graph, s, x, k)
            == record_up(graph, s1, x, k) by {
            assert(record_ok(graph, s, x, k));
        }
        if has_record_up(graph, s, x) {
            let k = choose|k: int| 0 <= k < graph.adj()[x].len() && #[trigger] record_up(graph, s, x, k);
            assert(record_up(graph, s1, x, k));
        }
        if has_record_up(graph, s1, x) {
            let k = choose|k: int| 0 <= k < graph.adj()[x].len() && #[trigger] record_up(graph, s1, x, k);
            assert(record_up(graph, s, x, k));
        }
    }
    let deg = graph.adj()[v].len() as int;
    assert forall|k: int| 0 <= k < deg implies #[trigger] record_up(graph, s1, v, k) == (c[graph.adj()[v][k].to as int]
        == VisitColor::Gray) by {
        let w = graph.adj()[v][k].to as int;
        assert(c[w] != VisitColor::White);
    }
    if some_gray_target(graph, s, v, deg) {
        let k1 = choose|k1: int|
            0 <= k1 < deg && c[(#[trigger] graph.adj()[v][k1]).to as int] == VisitColor::Gray;
        assert(record_up(graph, s1, v, k1));
        assert(has_record_up(graph, s1, post1[post.len() as int] as int));
        assert(some_record_up(graph, s1, post1, post0.len() as int));
    }
    if some_record_up(graph, s, post, post0.len() as int) {
        let j = choose|j: int|
            post0.len() <= j < post.len() && #[trigger] has_record_up(graph, s, post[j] as int);
        assert(post1[j] == post[j]);
        assert(has_record_up(graph, s1, post1[j] as int));
        assert(some_record_up(graph, s1, post1, post0.len() as int));
    }
    if some_record_up(graph, s1, post1, post0.len() as int) {
        let j = choose|j: int|
            post0.len() <= j < post1.len() && #[trigger] has_record_up(graph, s1, post1[j] as int);
        if j < post.len() {
            assert(post1[j] == post[j]);
            assert(has_record_up(graph, s, post[j] as int));
            assert(some_record_up(graph, s, post, post0.len() as int));
        } else {
            let k = choose|k: int| 0 <= k < graph.adj()[v].len() && #[trigger] record_up(graph, s1, v, k);
            assert(c[graph.adj()[v][k].to as int] == VisitColor::Gray);
            assert(some_gray_target(graph, s, v, deg));
        }
    }
}

/// The marks of a timed traversal: the colours, the entry and exit times,
/// the clock, and the vertices in the order in which the traversal left
/// them.
pub struct Marks {
    pub colors: Seq<VisitColor>,
    pub t_in: Seq<usize>,
    pub t_out: Seq<usize>,
    pub time: usize,
    pub left: Seq<usize>,
}

/// The marks that the traversal state holds, beside the vertices left.
pub open spec fn marks_of(s: &DFSSpace, left: Seq<usize>) -> Marks {
    Marks { colors: s.visit_colors@, t_in: s.t_in@, t_out: s.t_out@, time: s.time, left }
}

/// The marks after the traversal has entered `v`.
pub open spec fn entered(m: Marks, v: int) -> Marks {
    Marks {
        colors: m.colors.update(v, VisitColor::Gray),
        t_in: m.t_in.update(v, m.time),
        t_out: m.t_out,
        time: (m.time + 1) as usize,
        left: m.left,
    }
}

/// The marks after the traversal has left `v`.
pub open spec fn exited(m: Marks, v: int) -> Marks {
    Marks {
        colors: m.colors.update(v, VisitColor::Black),
        t_in: m.t_in,
        t_out: m.t_out.update(v, m.time),
        time: (m.time + 1) as usize,
        left: m.left.push(v as usize),
    }
}

/// The marks after the timed walk from `v`: it enters `v`, walks from the
/// end of each record of `v` that is white when its turn comes, in the
/// order of the records, and leaves `v`. The walk goes `fuel` vertices deep.
pub open spec fn timed_walk(graph: &Graph, m: Marks, v: int, fuel: nat) -> Marks
    decreases fuel, 0nat,
{
    if fuel == 0 {
        m
    } else {
        exited(timed_records(graph, entered(m, v), v, 0, (fuel - 1) as nat), v)
    }
}

/// The marks after the timed walks from the ends of the records of `v`,
/// from record `k` on.
pub open spec fn timed_records(graph: &Graph, m: Marks, v: int, k: int, fuel: nat) -> Marks
    decreases fuel, 1 + graph.adj()[v].len() - k,
{
    if k < 0 || k >= graph.adj()[v].len() {
        m
    } else {
        let to = graph.adj()[v][k].to as int;
        let next = if m.colors[to] == VisitColor::White {
            timed_walk(graph, m, to, fuel)
        } else {
            m
        };
        timed_records(graph, next, v, k + 1, fuel)
    }
}

/// The marks after the timed walks from the vertices `from`, `from + 1`,
/// and so on, each from a vertex that is still white.
pub open spec fn timed_sweep(graph: &Graph, m: Marks, from: int) -> Marks
    decreases graph.order() - from,
{
    if from < 0 || from >= graph.order() {
        m
    } else if m.colors[from] == VisitColor::White {
        timed_sweep(graph, timed_walk(graph, m, from, m.colors.len()), from + 1)
    } else {
        timed_sweep(graph, m, from + 1)
    }
}

impl DFSSpace {
    fn topsort_dfs(&mut self, graph: &Graph, v: usize, order: &mut Vec<usize>, Ghost(t0): Ghost<int>) -> (found: bool)
        requires
            timed_start(graph, old(self), old(order)@, v as int, t0),
        ensures
            timed_result(graph, old(self), final(self), old(order)@, final(order)@, v as int, found, t0),
            forall|fuel: nat|
                fuel >= white_count(old(self).visit_colors@) ==> #[trigger] timed_walk(
                    graph,
                    marks_of(old(self), old(order)@),
                    v as int,
                    fuel,
                ) == marks_of(final(self), final(order)@),
        decreases white_count(old(self).visit_colors@),
    {
        let ghost s0 = *self;
        let ghost post0 = order@;
        let mut has_cycle = false;
        proof {
            lemma_white_count_update(s0.visit_colors@, v as int, VisitColor::Gray);
        }
        self.visit_colors[v] = VisitColor::Gray;
        self.t_in[v] = self.time;
        self.time += 1;
        proof {
            lemma_timed_enter(graph, &s0, self, post0, v as int, t0);
            assert(marks_of(self, order@) =~= entered(marks_of(&s0, post0), v as int));
        }
        let degree: usize = graph.edges[v].len();
        let mut k: usize = 0;
        while k < degree
            invariant
                graph.wf(),
                k <= degree,
                degree == graph.adj()[v as int].len(),
                s0 == *old(self),
                post0 == old(order)@,
                timed_start(graph, &s0, post0, v as int, t0),
                timed_level(graph, &s0, self, post0, order@, v as int, k as int, has_cycle, t0),
                forall|fuel: nat|
                    fuel + 1 >= white_count(s0.visit_colors@) ==> #[trigger] timed_records(
                        graph,
                        entered(marks_of(&s0, post0), v as int),
                        v as int,
                        0,
                        fuel,
                    ) == timed_records(graph, marks_of(self, order@), v as int, k as int, fuel),
            decreases degree - k,
        {
            let to: usize = graph.edges[v][k].to;
            assert(to == graph.adj()[v as int][k as int].to);
            if self.visit_colors[to] == VisitColor::White {
                let ghost mid = *self;
                let ghost postm = order@;
                proof {
                    lemma_timed_descend(graph, &s0, &mid, post0, postm, v as int, k as int, has_cycle, t0);
                }
                let below = self.topsort_dfs(graph, to, order, Ghost(t0));
                proof {
                    lemma_timed_child(graph, &s0, &mid, self, post0, postm, order@, v as int, k as int, has_cycle, below, t0);
                    assert forall|fuel: nat| fuel + 1 >= white_count(s0.visit_colors@) implies #[trigger] timed_records(
                        graph,
                        entered(marks_of(&s0, post0), v as int),
                        v as int,
                        0,
                        fuel,
                    ) == timed_records(graph, marks_of(self, order@), v as int, k + 1, fuel) by {
                        assert(timed_walk(graph, marks_of(&mid, postm), to as int, fuel) == marks_of(self, order@));
                    }
                }
                has_cycle = has_cycle || below;
            } else if self.visit_colors[to] == VisitColor::Gray {
                proof {
                    lemma_timed_skip(graph, &s0, self, post0, order@, v as int, k as int, has_cycle, t0);
                }
                has_cycle = true;
            } else {
                proof {
                    lemma_timed_skip(graph, &s0, self, post0, order@, v as int, k as int, has_cycle, t0);
                }
            }
            k += 1;
        }
        let ghost s = *self;
        let ghost post = order@;
        self.visit_colors[v] = VisitColor::Black;
        self.t_out[v] = self.time;
        self.time += 1;
        order.push(v);
        proof {
            lemma_timed_finish(graph, &s0, &s, self, post0, post, v as int, has_cycle, t0);
            assert(marks_of(self, order@) =~= exited(marks_of(&s, post), v as int));
            assert forall|fuel: nat| fuel >= white_count(s0.visit_colors@) implies #[trigger] timed_walk(
                graph,
                marks_of(&s0, post0),
                v as int,
                fuel,
            ) == marks_of(self, order@) by {
                let g = (fuel - 1) as nat;
                assert(timed_records(graph, entered(marks_of(&s0, post0), v as int), v as int, 0, g)
                    == timed_records(graph, marks_of(&s, post), v as int, degree as int, g));
            }
        }
        has_cycle
    }
}

/// What holds between two walks of the timed traversal, before the walk
/// from `vertex`.
pub open spec fn timed_roots(
    graph: &Graph,
    s: &DFSSpace,
    post: Seq<usize>,
    vertex: int,
    found: bool,
    t0: int,
) -> bool {
    let n = graph.order();
    let c = s.visit_colors@;
    &&& graph.wf()
    &&& timed_inv(graph, s, post, t0)
    &&& 0 <= vertex <= n
    &&& forall|x: int| 0 <= x < n ==> #[trigger] c[x] != VisitColor::Gray
    &&& forall|x: int| 0 <= x < vertex ==> c[x] == VisitColor::Black
    &&& s.time + 2 * white_count(c) == t0 + 2 * n
    &&& t0 + 2 * n <= usize::MAX
    &&& found <==> some_record_up(graph, s, post, 0)
}

proof fn lemma_timed_root_step(
    graph: &Graph,
    mid: &DFSSpace,
    s: &DFSSpace,
    postm: Seq<usize>,
    post: Seq<usize>,
    vertex: int,
    found: bool,
    below: bool,
    t0: int,
)
    requires
        timed_roots(graph, mid, postm, vertex, found, t0),
        vertex < graph.order(),
        timed_result(graph, mid, s, postm, post, vertex, below, t0),
    ensures
        timed_roots(graph, s, post, vertex + 1, found || below, t0),
{
    let n = graph.order();
    assert forall|x: int| 0 <= x < n implies #[trigger] s.visit_colors@[x] != VisitColor::Gray by {
        assert(mid.visit_colors@[x] != VisitColor::Gray);
    }
    assert forall|x: int| 0 <= x < vertex + 1 implies s.visit_colors@[x] == VisitColor::Black by {
        if x < vertex {
            assert(mid.visit_colors@[x] != VisitColor::White);
        }
    }
    assert forall|j: int| 0 <= j < postm.len() implies has_record_up(graph, mid, #[trigger] postm[j] as int)
        == has_record_up(graph, s, postm[j] as int) by {
        lemma_record_up_kept(graph, mid, s, postm, vertex, mid.time as int, postm[j] as int, t0);
    }
    assert forall|j: int| 0 <= j < postm.len() implies post[j] == postm[j] by {
        assert(post.take(postm.len() as int)[j] == post[j]);
    }
    if some_record_up(graph, mid, postm, 0) {
        let j = choose|j: int| 0 <= j < postm.len() && #[trigger] has_record_up(graph, mid, postm[j] as int);
        assert(has_record_up(graph, s, post[j] as int));
        assert(some_record_up(graph, s, post, 0));
    }
    if some_record_up(graph, s, post, postm.len() as int) {
        let j = choose|j: int|
            postm.len() <= j < post.len() && #[trigger] has_record_up(graph, s, post[j] as int);
        assert(some_record_up(graph, s, post, 0));
    }
    if some_record_up(graph, s, post, 0) {
        let j = choose|j: int| 0 <= j < post.len() && #[trigger] has_record_up(graph, s, post[j] as int);
        if j < postm.len() {
            assert(has_record_up(graph, mid, postm[j] as int));
            assert(some_record_up(graph, mid, postm, 0));
        } else {
            assert(some_record_up(graph, s, post, postm.len() as int));
        }
    }
}

proof fn lemma_timed_done(graph: &Graph, s: &DFSSpace, post: Seq<usize>, found: bool, t0: int)
    requires
        timed_roots(graph, s, post, graph.order(), found, t0),
    ensures
        is_traversal_timing(graph, s.t_in@, s.t_out@, t0, s.time as int),
        is_vertex_listing(graph, post.reverse()),
        by_falling_exit(post.reverse(), s.t_out@),
        !found <==> is_topological(graph, post.reverse()),
        !found <==> !has_cycle(graph),
{
    let n = graph.order();
    let c = s.visit_colors@;
    let tin = s.t_in@;
    let tout = s.t_out@;
    let order = post.reverse();
    graph.lemma_order_fits();
    lemma_white_count_all(c);
    assert forall|x: usize| 0 <= x < n implies post.contains(x) by {
        assert(c[x as int] == VisitColor::Black);
    }
    lemma_distinct_cover_len(post, n);
    assert forall|x: usize| x < n implies order.contains(x) by {
        let i = post.index_of(x);
        assert(post.contains(x));
        assert(order[n - 1 - i] == x);
    }
    assert(is_vertex_listing(graph, order));
    assert forall|i: int, j: int| 0 <= i < j < order.len() implies tout[#[trigger] order[i] as int]
        > tout[#[trigger] order[j] as int] by {
        assert(order[i] == post[n - 1 - i]);
        assert(order[j] == post[n - 1 - j]);
    }
    assert forall|x: int, y: int| 0 <= x < n && 0 <= y < n && x != y implies #[trigger] tout[x]
        != #[trigger] tout[y] by {
        assert(post.contains(x as usize));
        assert(post.contains(y as usize));
        let i = post.index_of(x as usize);
        let j = post.index_of(y as usize);
        if i < j {
            assert(tout[post[i] as int] < tout[post[j] as int]);
        } else {
            assert(tout[post[j] as int] < tout[post[i] as int]);
        }
    }
    assert forall|x: int, y: int| 0 <= x < n && 0 <= y < n implies (#[trigger] tout[x] < tin[y]
        || #[trigger] tout[y] < tin[x] || inside(tin, tout, x, y) || inside(tin, tout, y, x)) by {
        assert(c[x] == VisitColor::Black && c[y] == VisitColor::Black);
    }
    assert forall|x: int, k: int| 0 <= x < n && 0 <= k < graph.adj()[x].len() implies (#[trigger] leads_down(
        graph,
        tout,
        x,
        k,
    ) || inside(tin, tout, x, graph.adj()[x][k].to as int)) by {
        assert(c[x] == VisitColor::Black);
        assert(record_ok(graph, s, x, k));
        assert(c[graph.adj()[x][k].to as int] == VisitColor::Black);
    }
    assert forall|x: int, w: int| 0 <= x < n && 0 <= w < n && #[trigger] inside(tin, tout, x, w) implies connects(
        graph.arrow(),
        w,
        x,
    ) by {
        assert(c[x] == VisitColor::Black && c[w] == VisitColor::Black);
    }
    assert forall|x: int| 0 <= x < n implies t0 <= #[trigger] tin[x] < tout[x] < s.time by {
        assert(c[x] == VisitColor::Black);
    }
    assert(is_traversal_timing(graph, tin, tout, t0, s.time as int));
    lemma_falling_exit_is_topological(graph, order, tout);
    if found {
        let j = choose|j: int| 0 <= j < post.len() && #[trigger] has_record_up(graph, s, post[j] as int);
        let x = post[j] as int;
        let k = choose|k: int| 0 <= k < graph.adj()[x].len() && #[trigger] record_up(graph, s, x, k);
        assert(c[graph.adj()[x][k].to as int] == VisitColor::Black);
        assert(!leads_down(graph, tout, x, k));
        lemma_record_up_closes_walk(graph, tin, tout, t0, s.time as int, x, k);
    } else {
        assert forall|x: int, k: int| 0 <= x < n && 0 <= k < graph.adj()[x].len() implies #[trigger] leads_down(
            graph,
            tout,
            x,
            k,
        ) by {
            assert(post.contains(x as usize));
            let j = post.index_of(x as usize);
            if !leads_down(graph, tout, x, k) {
                assert(record_up(graph, s, x, k));
                assert(has_record_up(graph, s, post[j] as int));
                assert(some_record_up(graph, s, post, 0));
            }
        }
        lemma_topological_means_acyclic(graph, order);
    }
}

impl DFSSpace {
    /// Traverses the whole graph depth-first, starting from each vertex in
    /// ascending order that is still white, and returns the vertices in the
    /// order in which the traversal left them, together with whether the
    /// graph is free of cycles. The list read from its end is a topological
    /// order exactly when the graph has no cycle.
    pub fn topological_sort(&mut self, graph: &Graph) -> (r: (Vec<usize>, bool))
        requires
            graph.wf(),
            old(self).fits(graph),
            old(self).all_white(),
            old(self).time + 2 * graph.order() <= usize::MAX,
        ensures
            marks_of(final(self), r.0@) == timed_sweep(graph, marks_of(old(self), Seq::empty()), 0),
            is_vertex_listing(graph, r.0@.reverse()),
            by_falling_exit(r.0@.reverse(), final(self).t_out@),
            by_rising_exit(r.0@, final(self).t_out@),
            is_traversal_timing(
                graph,
                final(self).t_in@,
                final(self).t_out@,
                old(self).time as int,
                final(self).time as int,
            ),
            r.1 <==> is_topological(graph, r.0@.reverse()),
            r.1 <==> !has_cycle(graph),
            final(self).fits(graph),
            final(self).children == old(self).children,
            forall|x: int|
                0 <= x < graph.order() ==> final(self).visit_colors@[x] == VisitColor::Black,
    {
        let ghost t0 = self.time as int;
        let n: usize = graph.vertexes();
        let mut order: Vec<usize> = Vec::new();
        let mut has_cycle = false;
        let mut v: usize = 0;
        proof {
            lemma_white_count_all(self.visit_colors@);
            assert(!some_record_up(graph, self, order@, 0));
        }
        while v < n
            invariant
                n == graph.order(),
                v <= n,
                self.children == old(self).children,
                self.children@.len() == n,
                timed_roots(graph, self, order@, v as int, has_cycle, t0),
                timed_sweep(graph, marks_of(old(self), Seq::empty()), 0) == timed_sweep(
                    graph,
                    marks_of(self, order@),
                    v as int,
                ),
            decreases n - v,
        {
            if self.visit_colors[v] == VisitColor::White {
                let ghost mid = *self;
                let ghost postm = order@;
                proof {
                    lemma_white_count_bound(mid.visit_colors@);
                }
                let below = self.topsort_dfs(graph, v, &mut order, Ghost(t0));
                proof {
                    lemma_timed_root_step(graph, &mid, self, postm, order@, v as int, has_cycle, below, t0);
                    assert(timed_walk(graph, marks_of(&mid, postm), v as int, mid.visit_colors@.len())
                        == marks_of(self, order@));
                }
                has_cycle = has_cycle || below;
            }
            v += 1;
        }
        proof {
            lemma_timed_done(graph, self, order@, has_cycle, t0);
        }
        proof {
            lemma_rising_is_falling_reversed(order@, self.t_out@);
        }
        (order, !has_cycle)
    }

    /// Tells whether the graph is free of cycles.
    pub fn test_acyclic(&mut self, graph: &Graph) -> (acyclic: bool)
        requires
            graph.wf(),
            old(self).fits(graph),
            old(self).all_white(),
            old(self).time + 2 * graph.order() <= usize::MAX,
        ensures
            acyclic <==> !has_cycle(graph),
            final(self).t_in@ == timed_sweep(graph, marks_of(old(self), Seq::empty()), 0).t_in,
            final(self).t_out@ == timed_sweep(graph, marks_of(old(self), Seq::empty()), 0).t_out,
            final(self).time == timed_sweep(graph, marks_of(old(self), Seq::empty()), 0).time,
            is_traversal_timing(
                graph,
                final(self).t_in@,
                final(self).t_out@,
                old(self).time as int,
                final(self).time as int,
            ),
            final(self).fits(graph),
            final(self).children == old(self).children,
            forall|x: int|
                0 <= x < graph.order() ==> final(self).visit_colors@[x] == VisitColor::Black,
    {
        self.topological_sort(graph).1
    }
}

} // verus!
