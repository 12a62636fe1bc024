//! What the search for cut vertices knows of the traversal tree.

use crate::bridges::tree_rel;
use crate::graph::Graph;
use crate::graph::VisitColor;
use crate::undirected::lemma_connects_restrict;
use crate::walks::connects;
use crate::walks::lemma_closed_holds;
use crate::walks::lemma_connects_mono;
use crate::walks::lemma_connects_push;
use crate::walks::lemma_connects_self;
use crate::walks::lemma_connects_step;
use crate::walks::lemma_connects_trans;
use vstd::prelude::*;

verus! {

/// A moment of the search for cut vertices: the colours, entry times and
/// clock of the traversal, for each vertex the vertex and the edge through
/// which it was entered (`(-1, -1)` for a vertex not yet entered or entered
/// as a root), the cut vertices noted so far, and the number of children
/// noted for each vertex.
pub struct CutTree {
    pub colors: Seq<VisitColor>,
    pub t_in: Seq<usize>,
    pub time: int,
    pub up: Seq<(int, int)>,
    pub cuts: Seq<usize>,
    pub kids: Seq<int>,
}

/// The entry of `x` in the tree: none, or an entered vertex with an earlier
/// entry time from which a record of the stated edge leads to `x`.
pub open spec fn entry_ok(graph: &Graph, t: CutTree, x: int) -> bool {
    if t.up[x].0 < 0 {
        t.up[x] == (-1int, -1int)
    } else {
        let a = t.up[x].0;
        &&& a < graph.order()
        &&& t.colors[a] != VisitColor::White
        &&& t.t_in[a] < t.t_in[x]
        &&& graph.has_arc(a, x, t.up[x].1)
        &&& t.up[x].1 >= 0
    }
}

/// Record `k` of the black vertex `y` leads to an entered vertex, and to a
/// gray one only if that was entered before `y`.
pub open spec fn seen_record_ok(graph: &Graph, t: CutTree, y: int, k: int) -> bool {
    let x = graph.adj()[y][k].to as int;
    &&& t.colors[x] != VisitColor::White
    &&& t.colors[x] == VisitColor::Gray ==> t.t_in[x] < t.t_in[y]
}

/// `v` is noted as a cut vertex if it is one.
pub open spec fn settled_vertex(graph: &Graph, t: CutTree, v: int) -> bool {
    graph.is_cut_vertex(v) ==> t.cuts.contains(v as usize)
}

/// The lists of the moment have one entry for each vertex.
pub open spec fn tree_sizes(graph: &Graph, t: CutTree) -> bool {
    let n = graph.order();
    &&& t.colors.len() == n
    &&& t.t_in.len() == n
    &&& t.up.len() == n
    &&& t.kids.len() == n
}

/// What holds between any two steps of the search for cut vertices.
pub open spec fn tree_inv(graph: &Graph, t: CutTree) -> bool {
    let n = graph.order();
    &&& tree_sizes(graph, t)
    &&& forall|x: int| 0 <= x < n && #[trigger] t.colors[x] != VisitColor::White ==> t.t_in[x] < t.time
    &&& forall|x: int, y: int|
        0 <= x < n && 0 <= y < n && x != y && #[trigger] t.colors[x] != VisitColor::White
            && #[trigger] t.colors[y] != VisitColor::White ==> t.t_in[x] != t.t_in[y]
    &&& forall|x: int|
        0 <= x < n && #[trigger] t.colors[x] == VisitColor::White ==> t.up[x] == (-1int, -1int)
            && t.kids[x] == 0
    &&& forall|x: int| 0 <= x < n && t.colors[x] != VisitColor::White ==> #[trigger] entry_ok(graph, t, x)
    &&& forall|y: int, k: int|
        0 <= y < n && 0 <= k < graph.adj()[y].len() && t.colors[y] == VisitColor::Black
            ==> #[trigger] seen_record_ok(graph, t, y, k)
    &&& forall|i: int|
        0 <= i < t.cuts.len() ==> (#[trigger] t.cuts[i]) < n && graph.is_cut_vertex(t.cuts[i] as int)
    &&& forall|v: int| 0 <= v < n && #[trigger] t.colors[v] == VisitColor::Black ==> settled_vertex(graph, t, v)
}

/// The vertex through which `v` is entered, and the edge: a gray vertex to
/// which every gray vertex leads along the tree, or nothing when no vertex
/// is gray.
pub open spec fn tree_link(graph: &Graph, t0: CutTree, v: int, pv: int, ev: int) -> bool {
    let n = graph.order();
    if pv >= 0 {
        &&& pv < n
        &&& ev >= 0
        &&& t0.colors[pv] == VisitColor::Gray
        &&& graph.has_arc(pv, v, ev)
        &&& forall|g: int|
            0 <= g < n && #[trigger] t0.colors[g] == VisitColor::Gray ==> t0.t_in[g] <= t0.t_in[pv]
                && connects(tree_rel(t0.up), g, pv)
    } else {
        &&& pv == -1
        &&& ev == -1
        &&& forall|g: int| 0 <= g < n ==> #[trigger] t0.colors[g] != VisitColor::Gray
    }
}

/// What the walk from `v` needs at its start.
pub open spec fn tree_start(graph: &Graph, t0: CutTree, v: int, pv: int, ev: int) -> bool {
    &&& graph.is_undirected()
    &&& forall|u: int, k: int|
        0 <= u < graph.order() && 0 <= k < graph.adj()[u].len() ==> (#[trigger] graph.adj()[u][k]).to
            != u
    &&& tree_inv(graph, t0)
    &&& 0 <= v < graph.order()
    &&& t0.colors[v] == VisitColor::White
    &&& tree_link(graph, t0, v, pv, ev)
}

/// Nothing that was entered before has changed, what was entered since is
/// black, and the cut vertices noted before are still noted.
pub open spec fn tree_kept(graph: &Graph, t0: CutTree, t: CutTree, skip: int) -> bool {
    &&& forall|x: int|
        0 <= x < graph.order() && x != skip ==> (#[trigger] t0.colors[x] != VisitColor::White ==> t.colors[x]
            == t0.colors[x] && t.t_in[x] == t0.t_in[x] && t.up[x] == t0.up[x] && t.kids[x] == t0.kids[x])
            && (t0.colors[x] == VisitColor::White ==> t.colors[x] == VisitColor::White || (t.colors[x]
            == VisitColor::Black && t.t_in[x] >= t0.time))
    &&& t0.cuts.len() <= t.cuts.len()
    &&& t.cuts.take(t0.cuts.len() as int) == t0.cuts
}

/// The low-link values of the vertices that were entered before are unchanged.
pub open spec fn tree_low_kept(graph: &Graph, t0: CutTree, low0: Seq<usize>, low: Seq<usize>, skip: int) -> bool {
    &&& low0.len() == graph.order()
    &&& low.len() == graph.order()
    &&& forall|x: int|
        0 <= x < graph.order() && x != skip && #[trigger] t0.colors[x] != VisitColor::White ==> low[x]
            == low0[x]
}

/// The vertices entered since `v` was, `v` among them.
pub open spec fn under(graph: &Graph, t: CutTree, v: int) -> spec_fn(int) -> bool {
    |z: int| 0 <= z < graph.order() && t.colors[z] != VisitColor::White && t.t_in[z] >= t.t_in[v]
}

/// A record of another edge than `ev` leads from a vertex under `v` to a
/// gray vertex that was entered at time `s`, before `v`.
pub open spec fn low_witness(graph: &Graph, t: CutTree, v: int, ev: int, s: int) -> bool {
    exists|x: int, k: int|
        0 <= x < graph.order() && 0 <= k < graph.adj()[x].len() && t.colors[x] != VisitColor::White
            && t.t_in[x] >= t.t_in[v] && connects(tree_rel(t.up), v, x) && (#[trigger] graph.adj()[x][k]).edge_index
            != ev && t.colors[graph.adj()[x][k].to as int] == VisitColor::Gray && t.t_in[graph.adj()[x][k].to as int]
            == s && s < t.t_in[v]
}

/// What is known of record `k1` of the gray vertex `v` once it is handled.
pub open spec fn own_seen_ok(graph: &Graph, t: CutTree, low_v: int, v: int, ev: int, k1: int) -> bool {
    let r = graph.adj()[v][k1];
    &&& t.colors[r.to as int] != VisitColor::White
    &&& r.edge_index != ev ==> t.t_in[r.to as int] >= low_v
}

/// What is known of the part of the tree under the gray vertex `v`, as far
/// as it bears on whether `v` is a cut vertex: as long as `v` is not noted
/// as one, every black vertex under a vertex `v` that is no root is
/// connected, without `v`, to the vertex from which `v` was entered; under
/// a root with one child, to that child; and a root with two children is a
/// cut vertex.
pub open spec fn under_ok(graph: &Graph, t: CutTree, v: int, pv: int, first: int) -> bool {
    let n = graph.order();
    if pv >= 0 {
        !t.cuts.contains(v as usize) ==> forall|x: int|
            0 <= x < n && #[trigger] t.colors[x] == VisitColor::Black && t.t_in[x] > t.t_in[v] ==> connects(
                graph.arrow_avoiding(v),
                x,
                pv,
            )
    } else {
        &&& t.kids[v] >= 0
        &&& t.kids[v] >= 2 ==> graph.is_cut_vertex(v)
        &&& t.kids[v] >= 1 ==> 0 <= first < n && first != v
        &&& t.kids[v] == 1 ==> forall|x: int|
            0 <= x < n && #[trigger] t.colors[x] == VisitColor::Black && t.t_in[x] > t.t_in[v] ==> connects(
                graph.arrow_avoiding(v),
                x,
                first,
            )
        &&& t.kids[v] >= 1 ==> t.colors[first] == VisitColor::Black && t.t_in[first] > t.t_in[v]
        &&& t.kids[v] == 0 ==> forall|x: int|
            0 <= x < n && #[trigger] t.colors[x] == VisitColor::Black ==> t.t_in[x] < t.t_in[v]
    }
}

/// What holds while the records of the gray vertex `v` are handled, after
/// the first `k` of them.
pub open spec fn tree_level(
    graph: &Graph,
    t0: CutTree,
    t: CutTree,
    low0: Seq<usize>,
    low: Seq<usize>,
    v: int,
    pv: int,
    ev: int,
    k: int,
    first: int,
) -> bool {
    let n = graph.order();
    &&& tree_start(graph, t0, v, pv, ev)
    &&& tree_inv(graph, t)
    &&& t.colors[v] == VisitColor::Gray
    &&& t.t_in[v] == t0.time
    &&& t.time > t0.time
    &&& t.up[v] == (pv, ev)
    &&& low[v] <= t.t_in[v]
    &&& tree_kept(graph, t0, t, v)
    &&& tree_low_kept(graph, t0, low0, low, v)
    &&& forall|g: int|
        0 <= g < n && #[trigger] t.colors[g] == VisitColor::Gray ==> t.t_in[g] <= t.t_in[v] && connects(
            tree_rel(t.up),
            g,
            v,
        )
    &&& forall|x: int, k1: int|
        0 <= x < n && 0 <= k1 < graph.adj()[x].len() && t.colors[x] == VisitColor::Black && t.t_in[x]
            > t.t_in[v] ==> t.t_in[(#[trigger] graph.adj()[x][k1]).to as int] >= low[v]
    &&& forall|k1: int| 0 <= k1 < k ==> #[trigger] own_seen_ok(graph, t, low[v] as int, v, ev, k1)
    &&& low[v] == t.t_in[v] || low_witness(graph, t, v, ev, low[v] as int)
    &&& forall|x: int|
        0 <= x < n && #[trigger] t.colors[x] == VisitColor::Black && t.t_in[x] > t.t_in[v] ==> connects(
            tree_rel(t.up),
            v,
            x,
        )
    &&& under_ok(graph, t, v, pv, first)
}

/// What the walk from `v` has achieved when it returns.
pub open spec fn tree_result(
    graph: &Graph,
    t0: CutTree,
    t: CutTree,
    low0: Seq<usize>,
    low: Seq<usize>,
    v: int,
    pv: int,
    ev: int,
) -> bool {
    let n = graph.order();
    &&& tree_inv(graph, t)
    &&& tree_kept(graph, t0, t, -1)
    &&& tree_low_kept(graph, t0, low0, low, -1)
    &&& t.colors[v] == VisitColor::Black
    &&& t.t_in[v] == t0.time
    &&& t.up[v] == (pv, ev)
    &&& low[v] <= t.t_in[v]
    &&& forall|x: int, k1: int|
        0 <= x < n && 0 <= k1 < graph.adj()[x].len() && t.colors[x] != VisitColor::White && t.t_in[x]
            >= t.t_in[v] && (#[trigger] graph.adj()[x][k1]).edge_index != ev ==> t.t_in[graph.adj()[x][k1].to as int]
            >= low[v]
    &&& low[v] == t.t_in[v] || low_witness(graph, t, v, ev, low[v] as int)
    &&& forall|x: int|
        0 <= x < n && #[trigger] t.colors[x] != VisitColor::White && t.t_in[x] >= t.t_in[v] ==> connects(
            tree_rel(t.up),
            v,
            x,
        )
}

/// The state right after `v` was entered.
pub open spec fn tree_entered(t0: CutTree, v: int, pv: int, ev: int) -> CutTree {
    CutTree {
        colors: t0.colors.update(v, VisitColor::Gray),
        t_in: t0.t_in.update(v, t0.time as usize),
        time: t0.time + 1,
        up: t0.up.update(v, (pv, ev)),
        ..t0
    }
}

/// A walk down the tree stays one while the vertices that are not white
/// keep the edges through which they were entered.
pub proof fn lemma_tree_walks_grow(graph: &Graph, a: CutTree, b: CutTree, u: int, w: int)
    requires
        tree_inv(graph, a),
        tree_sizes(graph, b),
        forall|x: int|
            0 <= x < graph.order() && #[trigger] a.colors[x] != VisitColor::White ==> b.up[x] == a.up[x],
        connects(tree_rel(a.up), u, w),
    ensures
        connects(tree_rel(b.up), u, w),
{
    assert forall|x: int, y: int| #[trigger] tree_rel(a.up)(x, y) implies tree_rel(b.up)(x, y) by {
        if a.colors[y] == VisitColor::White {
            assert(a.up[y] == (-1int, -1int));
        }
    }
    lemma_connects_mono(tree_rel(a.up), tree_rel(b.up), u, w);
}

/// A vertex that the tree enters from another was itself entered, through
/// a record of the stated edge.
pub proof fn lemma_tree_edge(graph: &Graph, t: CutTree, a: int, x: int) -> (k: int)
    requires
        tree_inv(graph, t),
        tree_rel(t.up)(a, x),
    ensures
        0 <= a < graph.order(),
        0 <= x < graph.order(),
        t.colors[x] != VisitColor::White,
        t.colors[a] != VisitColor::White,
        t.t_in[a] < t.t_in[x],
        0 <= k < graph.adj()[a].len(),
        graph.adj()[a][k].to == x,
        graph.adj()[a][k].edge_index == t.up[x].1,
        graph.has_edge(a, x),
{
    if t.colors[x] == VisitColor::White {
        assert(t.up[x] == (-1int, -1int));
    }
    assert(entry_ok(graph, t, x));
    choose|k: int|
        0 <= k < graph.adj()[a].len() && (#[trigger] graph.adj()[a][k]).to == x && graph.adj()[a][k].edge_index
            == t.up[x].1
}

/// The walks of the tree from `v` stay under `v`; so a walk of the tree
/// from `v` to a vertex avoids every vertex that is not under `v`.
pub proof fn lemma_tree_walk_avoids(graph: &Graph, t: CutTree, v: int, x: int, w: int)
    requires
        tree_inv(graph, t),
        0 <= v < graph.order(),
        t.colors[v] != VisitColor::White,
        connects(tree_rel(t.up), v, x),
        0 <= w < graph.order(),
        t.colors[w] == VisitColor::White || t.t_in[w] < t.t_in[v],
    ensures
        connects(graph.arrow_avoiding(w), v, x),
        under(graph, t, v)(x),
{
    let inside = under(graph, t, v);
    assert forall|a: int, c: int| inside(a) && #[trigger] tree_rel(t.up)(a, c) implies inside(c)
        && graph.arrow_avoiding(w)(a, c) by {
        let ka = lemma_tree_edge(graph, t, a, c);
    }
    lemma_connects_restrict(tree_rel(t.up), graph.arrow_avoiding(w), inside, v, x);
}

/// Entering a vertex leads from the start of its walk to the state before
/// its first record.
pub proof fn lemma_tree_enter(
    graph: &Graph,
    t0: CutTree,
    low0: Seq<usize>,
    v: int,
    pv: int,
    ev: int,
)
    requires
        tree_start(graph, t0, v, pv, ev),
        0 <= t0.time <= usize::MAX,
        low0.len() == graph.order(),
    ensures
        tree_level(
            graph,
            t0,
            tree_entered(t0, v, pv, ev),
            low0,
            low0.update(v, t0.time as usize),
            v,
            pv,
            ev,
            0,
            -1,
        ),
{
    let n = graph.order();
    let t = tree_entered(t0, v, pv, ev);
    lemma_connects_self(tree_rel(t.up), v);
    assert forall|x: int| 0 <= x < n && t.colors[x] != VisitColor::White implies #[trigger] entry_ok(
        graph,
        t,
        x,
    ) by {
        if x != v {
            assert(entry_ok(graph, t0, x));
            assert(t0.colors[x] != VisitColor::White);
            if t0.up[x].0 >= 0 {
                assert(t0.up[x].0 != v);
            }
        } else {
            if pv >= 0 {
                assert(t0.colors[pv] != VisitColor::White);
            }
        }
    }
    assert forall|y: int, k: int|
        0 <= y < n && 0 <= k < graph.adj()[y].len() && t.colors[y] == VisitColor::Black implies #[trigger] seen_record_ok(
        graph,
        t,
        y,
        k,
    ) by {
        assert(seen_record_ok(graph, t0, y, k));
    }
    assert forall|g: int| 0 <= g < n && #[trigger] t.colors[g] == VisitColor::Gray implies t.t_in[g]
        <= t.t_in[v] && connects(tree_rel(t.up), g, v) by {
        if g != v {
            assert(t0.colors[g] == VisitColor::Gray);
            assert(pv >= 0);
            assert(t0.colors[g] != VisitColor::White);
            lemma_tree_walks_grow(graph, t0, t, g, pv);
            assert(tree_rel(t.up)(pv, v));
            lemma_connects_push(tree_rel(t.up), g, pv, v);
        }
    }
    assert(t.cuts.take(t0.cuts.len() as int) =~= t0.cuts);
    assert forall|x: int, y: int|
        0 <= x < n && 0 <= y < n && x != y && #[trigger] t.colors[x] != VisitColor::White
            && #[trigger] t.colors[y] != VisitColor::White implies t.t_in[x] != t.t_in[y] by {
        if x != v && y != v {
            assert(t0.colors[x] != VisitColor::White && t0.colors[y] != VisitColor::White);
        } else if x != v {
            assert(t0.colors[x] != VisitColor::White);
        } else {
            assert(t0.colors[y] != VisitColor::White);
        }
    }
    assert forall|x: int| 0 <= x < n && #[trigger] t.colors[x] != VisitColor::White implies t.t_in[x]
        < t.time by {
        if x != v {
            assert(t0.colors[x] != VisitColor::White);
        }
    }
    assert forall|u: int| 0 <= u < n && #[trigger] t.colors[u] == VisitColor::Black implies settled_vertex(
        graph,
        t,
        u,
    ) by {
        assert(t0.colors[u] == VisitColor::Black);
        assert(settled_vertex(graph, t0, u));
    }
    assert(tree_inv(graph, t));
    assert forall|x: int| 0 <= x < n && #[trigger] t.colors[x] == VisitColor::Black implies t.t_in[x]
        < t.t_in[v] by {
        assert(t0.colors[x] == VisitColor::Black);
    }
}

/// Before a record to a white vertex, the walk from that vertex may
/// start.
pub proof fn lemma_tree_descend(
    graph: &Graph,
    t0: CutTree,
    t: CutTree,
    low0: Seq<usize>,
    low: Seq<usize>,
    v: int,
    pv: int,
    ev: int,
    k: int,
    first: int,
)
    requires
        tree_level(graph, t0, t, low0, low, v, pv, ev, k, first),
        0 <= k < graph.adj()[v].len(),
        t.colors[graph.adj()[v][k].to as int] == VisitColor::White,
    ensures
        tree_start(graph, t, graph.adj()[v][k].to as int, v, graph.adj()[v][k].edge_index as int),
{
}

/// A record to a black vertex changes nothing.
pub proof fn lemma_tree_black_target(
    graph: &Graph,
    t0: CutTree,
    t: CutTree,
    low0: Seq<usize>,
    low: Seq<usize>,
    v: int,
    pv: int,
    ev: int,
    k: int,
    first: int,
)
    requires
        tree_level(graph, t0, t, low0, low, v, pv, ev, k, first),
        0 <= k < graph.adj()[v].len(),
        t.colors[graph.adj()[v][k].to as int] == VisitColor::Black,
    ensures
        tree_level(graph, t0, t, low0, low, v, pv, ev, k + 1, first),
{
    let to = graph.adj()[v][k].to as int;
    let e = graph.adj()[v][k].edge_index as int;
    assert(graph.has_arc(to, v, e));
    let k2 = choose|k2: int|
        0 <= k2 < graph.adj()[to].len() && (#[trigger] graph.adj()[to][k2]).to == v && graph.adj()[to][k2].edge_index
            == e;
    assert(seen_record_ok(graph, t, to, k2));
    assert(own_seen_ok(graph, t, low[v] as int, v, ev, k));
}

/// The record of the edge through which the vertex was entered changes
/// nothing.
pub proof fn lemma_tree_parent_target(
    graph: &Graph,
    t0: CutTree,
    t: CutTree,
    low0: Seq<usize>,
    low: Seq<usize>,
    v: int,
    pv: int,
    ev: int,
    k: int,
    first: int,
)
    requires
        tree_level(graph, t0, t, low0, low, v, pv, ev, k, first),
        0 <= k < graph.adj()[v].len(),
        graph.adj()[v][k].edge_index == ev,
    ensures
        tree_level(graph, t0, t, low0, low, v, pv, ev, k + 1, first),
{
    let kp = choose|kp: int|
        0 <= kp < graph.adj()[pv].len() && (#[trigger] graph.adj()[pv][kp]).to == v && graph.adj()[pv][kp].edge_index
            == ev;
    graph.lemma_same_edge(v, k, pv, kp);
    assert(t.colors[pv] == VisitColor::Gray);
    assert(own_seen_ok(graph, t, low[v] as int, v, ev, k));
}

/// A record to a gray vertex lowers what the vertex reaches to the entry
/// time of that vertex.
pub proof fn lemma_tree_gray_target(
    graph: &Graph,
    t0: CutTree,
    t: CutTree,
    low0: Seq<usize>,
    low: Seq<usize>,
    v: int,
    pv: int,
    ev: int,
    k: int,
    first: int,
)
    requires
        tree_level(graph, t0, t, low0, low, v, pv, ev, k, first),
        0 <= k < graph.adj()[v].len(),
        t.colors[graph.adj()[v][k].to as int] == VisitColor::Gray,
        graph.adj()[v][k].edge_index != ev,
    ensures
        tree_level(
            graph,
            t0,
            t,
            low0,
            low.update(
                v,
                if t.t_in[graph.adj()[v][k].to as int] < low[v] {
                    t.t_in[graph.adj()[v][k].to as int]
                } else {
                    low[v]
                },
            ),
            v,
            pv,
            ev,
            k + 1,
            first,
        ),
{
    let to = graph.adj()[v][k].to as int;
    let s = t.t_in[to];
    let m = if s < low[v] {
        s
    } else {
        low[v]
    };
    let low2 = low.update(v, m);
    assert forall|k1: int| 0 <= k1 < k + 1 implies #[trigger] own_seen_ok(graph, t, low2[v] as int, v, ev, k1) by {
        if k1 < k {
            assert(own_seen_ok(graph, t, low[v] as int, v, ev, k1));
        }
    }
    if s < low[v] {
        lemma_connects_self(tree_rel(t.up), v);
        assert(low_witness(graph, t, v, ev, low2[v] as int));
    }
}

/// The vertices under the child that was just left are black, and every
/// record from them leads to one of them or to a vertex that was gray when
/// the child was entered.
proof fn lemma_under_child(
    graph: &Graph,
    mid: CutTree,
    t2: CutTree,
    lowm: Seq<usize>,
    low2: Seq<usize>,
    c: int,
    v: int,
    ec: int,
    a: int,
    ka: int,
)
    requires
        graph.is_undirected(),
        tree_inv(graph, mid),
        0 <= c < graph.order(),
        mid.colors[c] == VisitColor::White,
        tree_result(graph, mid, t2, lowm, low2, c, v, ec),
        under(graph, t2, c)(a),
        0 <= ka < graph.adj()[a].len(),
    ensures
        t2.colors[a] == VisitColor::Black,
        mid.colors[a] == VisitColor::White,
        under(graph, t2, c)(graph.adj()[a][ka].to as int) || mid.colors[graph.adj()[a][ka].to as int]
            == VisitColor::Gray,
{
    let y = graph.adj()[a][ka].to as int;
    assert(y < graph.order());
    if mid.colors[a] != VisitColor::White {
        assert(t2.t_in[a] == mid.t_in[a]);
    }
    assert(seen_record_ok(graph, t2, a, ka));
    if mid.colors[y] == VisitColor::Black {
        assert(graph.has_arc(y, a, graph.adj()[a][ka].edge_index as int));
        let k2 = choose|k2: int|
            0 <= k2 < graph.adj()[y].len() && (#[trigger] graph.adj()[y][k2]).to == a && graph.adj()[y][k2].edge_index
                == graph.adj()[a][ka].edge_index;
        assert(seen_record_ok(graph, mid, y, k2));
    }
    if mid.colors[y] == VisitColor::White {
        assert(t2.colors[y] != VisitColor::White);
    }
}

/// A child whose low-link value is not below the entry time of the vertex
/// `v` from which it was entered makes `v`, if it is no root, a cut vertex.
proof fn lemma_child_cuts(
    graph: &Graph,
    t0: CutTree,
    mid: CutTree,
    t2: CutTree,
    low0: Seq<usize>,
    lowm: Seq<usize>,
    low2: Seq<usize>,
    v: int,
    pv: int,
    ev: int,
    k: int,
    first: int,
)
    requires
        tree_level(graph, t0, mid, low0, lowm, v, pv, ev, k, first),
        0 <= k < graph.adj()[v].len(),
        mid.colors[graph.adj()[v][k].to as int] == VisitColor::White,
        tree_result(
            graph,
            mid,
            t2,
            lowm,
            low2,
            graph.adj()[v][k].to as int,
            v,
            graph.adj()[v][k].edge_index as int,
        ),
        pv >= 0,
        low2[graph.adj()[v][k].to as int] >= mid.t_in[v],
    ensures
        graph.is_cut_vertex(v),
{
    let n = graph.order();
    let c = graph.adj()[v][k].to as int;
    let ec = graph.adj()[v][k].edge_index as int;
    let r = graph.arrow_avoiding(v);
    let inside = under(graph, t2, c);
    assert(c < n);
    assert(mid.colors[v] != VisitColor::White);
    assert(mid.colors[pv] == VisitColor::Gray);
    assert(entry_ok(graph, mid, v));
    assert forall|a: int, y: int| inside(a) && #[trigger] r(a, y) implies inside(y) by {
        let ka = choose|ka: int| 0 <= ka < graph.adj()[a].len() && (#[trigger] graph.adj()[a][ka]).to == y;
        lemma_under_child(graph, mid, t2, lowm, low2, c, v, ec, a, ka);
        if graph.adj()[a][ka].edge_index == ec {
            graph.lemma_same_edge(a, ka, v, k);
        }
        if mid.colors[y] == VisitColor::Gray {
            assert(mid.t_in[y] <= mid.t_in[v]);
        }
    }
    if connects(r, c, pv) {
        lemma_closed_holds(r, inside, c, pv);
    }
    graph.lemma_undirected_is_symmetric();
    assert(graph.has_edge(v, c));
    assert(graph.has_edge(pv, v));
    assert(graph.arrow()(c, v));
    assert(graph.arrow()(v, pv));
    lemma_connects_step(graph.arrow(), c, v);
    lemma_connects_push(graph.arrow(), c, v, pv);
}

/// The vertices under a child of `v` are connected to the child without `v`.
pub proof fn lemma_child_holds(
    graph: &Graph,
    mid: CutTree,
    t2: CutTree,
    lowm: Seq<usize>,
    low2: Seq<usize>,
    c: int,
    v: int,
    ec: int,
    x: int,
)
    requires
        graph.is_undirected(),
        tree_inv(graph, mid),
        0 <= c < graph.order(),
        0 <= v < graph.order(),
        mid.colors[c] == VisitColor::White,
        mid.colors[v] == VisitColor::Gray,
        tree_result(graph, mid, t2, lowm, low2, c, v, ec),
        under(graph, t2, c)(x),
    ensures
        connects(graph.arrow_avoiding(v), x, c),
{
    assert(t2.t_in[v] == mid.t_in[v]);
    assert(mid.t_in[v] < mid.time);
    lemma_tree_walk_avoids(graph, t2, c, x, v);
    graph.lemma_avoiding_symmetric(v, c, x);
}

/// A child whose low-link value is below the entry time of the vertex `v`
/// from which it was entered is connected, without `v`, to the vertex from
/// which `v` was entered.
pub proof fn lemma_child_joins(
    graph: &Graph,
    t0: CutTree,
    mid: CutTree,
    t2: CutTree,
    low0: Seq<usize>,
    lowm: Seq<usize>,
    low2: Seq<usize>,
    v: int,
    pv: int,
    ev: int,
    k: int,
    first: int,
)
    requires
        tree_level(graph, t0, mid, low0, lowm, v, pv, ev, k, first),
        0 <= k < graph.adj()[v].len(),
        mid.colors[graph.adj()[v][k].to as int] == VisitColor::White,
        tree_result(
            graph,
            mid,
            t2,
            lowm,
            low2,
            graph.adj()[v][k].to as int,
            v,
            graph.adj()[v][k].edge_index as int,
        ),
        pv >= 0,
        low2[graph.adj()[v][k].to as int] < mid.t_in[v],
    ensures
        connects(graph.arrow_avoiding(v), graph.adj()[v][k].to as int, pv),
{
    let n = graph.order();
    let c = graph.adj()[v][k].to as int;
    let ec = graph.adj()[v][k].edge_index as int;
    let r = graph.arrow_avoiding(v);
    assert(c < n);
    assert(mid.colors[v] != VisitColor::White);
    assert(t2.t_in[v] == mid.t_in[v]);
    assert(mid.t_in[v] < mid.time);
    assert(low2[c] != t2.t_in[c]);
    let (x, kx) = choose|x: int, kx: int|
        0 <= x < graph.order() && 0 <= kx < graph.adj()[x].len() && t2.colors[x] != VisitColor::White
            && t2.t_in[x] >= t2.t_in[c] && connects(tree_rel(t2.up), c, x) && (#[trigger] graph.adj()[x][kx]).edge_index
            != ec && t2.colors[graph.adj()[x][kx].to as int] == VisitColor::Gray && t2.t_in[graph.adj()[x][kx].to as int]
            == low2[c] && low2[c] < t2.t_in[c];
    let y = graph.adj()[x][kx].to as int;
    assert(y < n);
    lemma_tree_walk_avoids(graph, t2, c, x, v);
    assert(y != v);
    assert(graph.has_edge(x, y));
    assert(r(x, y));
    lemma_connects_push(r, c, x, y);
    // from the gray vertex `y` along the tree to the vertex from which `v` was entered
    assert(mid.colors[y] == VisitColor::Gray) by {
        if mid.colors[y] == VisitColor::White {
        }
    }
    assert(t0.colors[y] == VisitColor::Gray) by {
        if t0.colors[y] == VisitColor::White {
        }
    }
    assert(connects(tree_rel(t0.up), y, pv));
    let entered = |z: int| 0 <= z < n && t0.colors[z] != VisitColor::White;
    assert forall|a: int, b: int| entered(a) && #[trigger] tree_rel(t0.up)(a, b) implies entered(b) && r(
        a,
        b,
    ) by {
        let ka = lemma_tree_edge(graph, t0, a, b);
    }
    lemma_connects_restrict(tree_rel(t0.up), r, entered, y, pv);
    lemma_connects_trans(r, c, y, pv);
}

/// A second child makes a root a cut vertex.
proof fn lemma_second_child_cuts(
    graph: &Graph,
    t0: CutTree,
    mid: CutTree,
    low0: Seq<usize>,
    lowm: Seq<usize>,
    v: int,
    ev: int,
    k: int,
    first: int,
)
    requires
        tree_level(graph, t0, mid, low0, lowm, v, -1, ev, k, first),
        0 <= k < graph.adj()[v].len(),
        mid.colors[graph.adj()[v][k].to as int] == VisitColor::White,
        mid.kids[v] >= 1,
    ensures
        graph.is_cut_vertex(v),
{
    let n = graph.order();
    let c = graph.adj()[v][k].to as int;
    let r = graph.arrow_avoiding(v);
    let inside = |z: int| 0 <= z < n && mid.colors[z] == VisitColor::Black && mid.t_in[z] > mid.t_in[v];
    assert(c < n);
    assert forall|a: int, y: int| inside(a) && #[trigger] r(a, y) implies inside(y) by {
        let ka = choose|ka: int| 0 <= ka < graph.adj()[a].len() && (#[trigger] graph.adj()[a][ka]).to == y;
        assert(y < n);
        assert(seen_record_ok(graph, mid, a, ka));
        if mid.colors[y] == VisitColor::Gray {
            if t0.colors[y] == VisitColor::White {
            } else {
                assert(t0.colors[y] == VisitColor::Gray);
            }
        } else {
            if mid.t_in[y] <= mid.t_in[v] {
                assert(t0.colors[y] != VisitColor::White) by {
                    if t0.colors[y] == VisitColor::White {
                    }
                }
                assert(t0.colors[y] == VisitColor::Black);
                assert(graph.has_arc(y, a, graph.adj()[a][ka].edge_index as int));
                let k2 = choose|k2: int|
                    0 <= k2 < graph.adj()[y].len() && (#[trigger] graph.adj()[y][k2]).to == a
                        && graph.adj()[y][k2].edge_index == graph.adj()[a][ka].edge_index;
                assert(seen_record_ok(graph, t0, y, k2));
                assert(t0.colors[a] != VisitColor::White);
            }
        }
    }
    if connects(r, first, c) {
        lemma_closed_holds(r, inside, first, c);
    }
    // `first` and `c` are connected through `v`
    assert(connects(tree_rel(mid.up), v, first));
    assert forall|a: int, b: int| #[trigger] tree_rel(mid.up)(a, b) implies graph.arrow()(a, b) by {
        let ka = lemma_tree_edge(graph, mid, a, b);
    }
    lemma_connects_mono(tree_rel(mid.up), graph.arrow(), v, first);
    graph.lemma_arrow_symmetric(v, first);
    assert(graph.has_edge(v, c));
    assert(graph.arrow()(v, c));
    lemma_connects_push(graph.arrow(), first, v, c);
}

/// The state after the child `c` of `v` was left and noted.
pub open spec fn child_noted(t2: CutTree, low2: Seq<usize>, v: int, pv: int, c: int) -> CutTree {
    CutTree {
        cuts: if pv >= 0 && low2[c] >= t2.t_in[v] {
            t2.cuts.push(v as usize)
        } else {
            t2.cuts
        },
        kids: t2.kids.update(v, t2.kids[v] + 1),
        ..t2
    }
}

/// The low-link values after the child `c` of `v` was left.
pub open spec fn child_low(low2: Seq<usize>, v: int, c: int) -> Seq<usize> {
    low2.update(
        v,
        if low2[c] < low2[v] {
            low2[c]
        } else {
            low2[v]
        },
    )
}

proof fn lemma_child_inv(
    graph: &Graph,
    t0: CutTree,
    mid: CutTree,
    t2: CutTree,
    low0: Seq<usize>,
    lowm: Seq<usize>,
    low2: Seq<usize>,
    v: int,
    pv: int,
    ev: int,
    k: int,
    first: int,
)
    requires
        tree_level(graph, t0, mid, low0, lowm, v, pv, ev, k, first),
        0 <= k < graph.adj()[v].len(),
        mid.colors[graph.adj()[v][k].to as int] == VisitColor::White,
        tree_result(
            graph,
            mid,
            t2,
            lowm,
            low2,
            graph.adj()[v][k].to as int,
            v,
            graph.adj()[v][k].edge_index as int,
        ),
    ensures
        tree_inv(graph, child_noted(t2, low2, v, pv, graph.adj()[v][k].to as int)),
        tree_kept(graph, t0, child_noted(t2, low2, v, pv, graph.adj()[v][k].to as int), v),
{
    let n = graph.order();
    let c = graph.adj()[v][k].to as int;
    let t3 = child_noted(t2, low2, v, pv, c);
    assert(c < n);
    assert(mid.colors[v] != VisitColor::White);
    assert(t2.t_in[v] == mid.t_in[v]);
    if pv >= 0 && low2[c] >= t2.t_in[v] {
        lemma_child_cuts(graph, t0, mid, t2, low0, lowm, low2, v, pv, ev, k, first);
    }
    assert forall|x: int| 0 <= x < n && t3.colors[x] != VisitColor::White implies #[trigger] entry_ok(
        graph,
        t3,
        x,
    ) by {
        assert(entry_ok(graph, t2, x));
    }
    assert forall|y: int, k1: int|
        0 <= y < n && 0 <= k1 < graph.adj()[y].len() && t3.colors[y] == VisitColor::Black implies #[trigger] seen_record_ok(
        graph,
        t3,
        y,
        k1,
    ) by {
        assert(seen_record_ok(graph, t2, y, k1));
    }
    assert forall|i: int| 0 <= i < t3.cuts.len() implies (#[trigger] t3.cuts[i]) < n && graph.is_cut_vertex(
        t3.cuts[i] as int,
    ) by {
        if i < t2.cuts.len() {
            assert(t3.cuts[i] == t2.cuts[i]);
        }
    }
    assert forall|u: int| 0 <= u < n && #[trigger] t3.colors[u] == VisitColor::Black implies settled_vertex(
        graph,
        t3,
        u,
    ) by {
        assert(settled_vertex(graph, t2, u));
        if t2.cuts.contains(u as usize) {
            let i = t2.cuts.index_of(u as usize);
            assert(t3.cuts[i] == u as usize);
        }
    }
    assert forall|x: int| 0 <= x < n && #[trigger] t3.colors[x] == VisitColor::White implies t3.up[x] == (
        -1int,
        -1int,
    ) && t3.kids[x] == 0 by {
        assert(t2.colors[x] == VisitColor::White);
    }
    assert forall|x: int| 0 <= x < n && #[trigger] t3.colors[x] != VisitColor::White implies t3.t_in[x]
        < t3.time by {
        assert(t2.colors[x] != VisitColor::White);
    }
    assert forall|x: int, y: int|
        0 <= x < n && 0 <= y < n && x != y && #[trigger] t3.colors[x] != VisitColor::White
            && #[trigger] t3.colors[y] != VisitColor::White implies t3.t_in[x] != t3.t_in[y] by {
        assert(t2.colors[x] != VisitColor::White && t2.colors[y] != VisitColor::White);
    }
    assert(tree_inv(graph, t3));
    assert forall|x: int| 0 <= x < n && x != v implies (#[trigger] t0.colors[x] != VisitColor::White ==> t3.colors[x]
        == t0.colors[x] && t3.t_in[x] == t0.t_in[x] && t3.up[x] == t0.up[x] && t3.kids[x] == t0.kids[x])
        && (t0.colors[x] == VisitColor::White ==> t3.colors[x] == VisitColor::White || (t3.colors[x]
        == VisitColor::Black && t3.t_in[x] >= t0.time)) by {
        if t0.colors[x] != VisitColor::White {
            assert(mid.colors[x] != VisitColor::White);
        } else {
            if mid.colors[x] != VisitColor::White {
            }
        }
    }
    assert(t3.cuts.take(t0.cuts.len() as int) =~= t0.cuts) by {
        assert(t2.cuts.take(mid.cuts.len() as int).take(t0.cuts.len() as int) =~= t2.cuts.take(
            t0.cuts.len() as int,
        ));
        assert(t3.cuts.take(t0.cuts.len() as int) =~= t2.cuts.take(t0.cuts.len() as int));
    }
}

proof fn lemma_child_under(
    graph: &Graph,
    t0: CutTree,
    mid: CutTree,
    t2: CutTree,
    low0: Seq<usize>,
    lowm: Seq<usize>,
    low2: Seq<usize>,
    v: int,
    pv: int,
    ev: int,
    k: int,
    first: int,
)
    requires
        tree_level(graph, t0, mid, low0, lowm, v, pv, ev, k, first),
        0 <= k < graph.adj()[v].len(),
        mid.colors[graph.adj()[v][k].to as int] == VisitColor::White,
        tree_result(
            graph,
            mid,
            t2,
            lowm,
            low2,
            graph.adj()[v][k].to as int,
            v,
            graph.adj()[v][k].edge_index as int,
        ),
    ensures
        under_ok(
            graph,
            child_noted(t2, low2, v, pv, graph.adj()[v][k].to as int),
            v,
            pv,
            if pv < 0 && mid.kids[v] == 0 {
                graph.adj()[v][k].to as int
            } else {
                first
            },
        ),
{
    let n = graph.order();
    let c = graph.adj()[v][k].to as int;
    let ec = graph.adj()[v][k].edge_index as int;
    let t3 = child_noted(t2, low2, v, pv, c);
    let r = graph.arrow_avoiding(v);
    assert(c < n);
    assert(c != v);
    assert(mid.colors[v] != VisitColor::White);
    assert(t2.t_in[v] == mid.t_in[v]);
    assert(t2.kids[v] == mid.kids[v]);
    assert(mid.t_in[v] < mid.time);
    if pv >= 0 {
        if !t3.cuts.contains(v as usize) {
            assert(!(low2[c] >= t2.t_in[v])) by {
                if low2[c] >= t2.t_in[v] {
                    assert(t3.cuts[t2.cuts.len() as int] == v as usize);
                }
            }
            assert(!mid.cuts.contains(v as usize)) by {
                if mid.cuts.contains(v as usize) {
                    let i = mid.cuts.index_of(v as usize);
                    assert(t2.cuts.take(mid.cuts.len() as int)[i] == t2.cuts[i]);
                    assert(t3.cuts[i] == v as usize);
                }
            }
            lemma_child_joins(graph, t0, mid, t2, low0, lowm, low2, v, pv, ev, k, first);
            assert forall|x: int|
                0 <= x < n && #[trigger] t3.colors[x] == VisitColor::Black && t3.t_in[x] > t3.t_in[v] implies connects(
                r,
                x,
                pv,
            ) by {
                if mid.colors[x] != VisitColor::White {
                    assert(mid.colors[x] == VisitColor::Black);
                } else {
                    lemma_child_holds(graph, mid, t2, lowm, low2, c, v, ec, x);
                    lemma_connects_trans(r, x, c, pv);
                }
            }
        }
    } else {
        if mid.kids[v] == 0 {
            assert forall|x: int|
                0 <= x < n && #[trigger] t3.colors[x] == VisitColor::Black && t3.t_in[x] > t3.t_in[v] implies connects(
                r,
                x,
                c,
            ) by {
                if mid.colors[x] != VisitColor::White {
                    assert(mid.colors[x] == VisitColor::Black);
                } else {
                    lemma_child_holds(graph, mid, t2, lowm, low2, c, v, ec, x);
                }
            }
        } else {
            lemma_second_child_cuts(graph, t0, mid, low0, lowm, v, ev, k, first);
            assert(mid.colors[first] != VisitColor::White);
        }
    }
}

proof fn lemma_child_level_a(
    graph: &Graph,
    t0: CutTree,
    mid: CutTree,
    t2: CutTree,
    low0: Seq<usize>,
    lowm: Seq<usize>,
    low2: Seq<usize>,
    v: int,
    pv: int,
    ev: int,
    k: int,
    first: int,
)
    requires
        tree_level(graph, t0, mid, low0, lowm, v, pv, ev, k, first),
        0 <= k < graph.adj()[v].len(),
        mid.colors[graph.adj()[v][k].to as int] == VisitColor::White,
        tree_result(
            graph,
            mid,
            t2,
            lowm,
            low2,
            graph.adj()[v][k].to as int,
            v,
            graph.adj()[v][k].edge_index as int,
        ),
    ensures
        forall|g: int|
            0 <= g < graph.order() && #[trigger] child_noted(t2, low2, v, pv, graph.adj()[v][k].to as int).colors[g] == VisitColor::Gray ==> child_noted(t2, low2, v, pv, graph.adj()[v][k].to as int).t_in[g]
                <= child_noted(t2, low2, v, pv, graph.adj()[v][k].to as int).t_in[v] && connects(tree_rel(child_noted(t2, low2, v, pv, graph.adj()[v][k].to as int).up), g, v),
        forall|x: int, k1: int|
            0 <= x < graph.order() && 0 <= k1 < graph.adj()[x].len() && child_noted(t2, low2, v, pv, graph.adj()[v][k].to as int).colors[x] == VisitColor::Black
                && child_noted(t2, low2, v, pv, graph.adj()[v][k].to as int).t_in[x] > child_noted(t2, low2, v, pv, graph.adj()[v][k].to as int).t_in[v] ==> child_noted(t2, low2, v, pv, graph.adj()[v][k].to as int).t_in[(#[trigger] graph.adj()[x][k1]).to as int]
                >= child_low(low2, v, graph.adj()[v][k].to as int)[v],
        forall|k1: int|
            0 <= k1 < k + 1 ==> #[trigger] own_seen_ok(graph, child_noted(t2, low2, v, pv, graph.adj()[v][k].to as int), child_low(low2, v, graph.adj()[v][k].to as int)[v] as int, v, ev, k1),
{
    let n = graph.order();
    let c = graph.adj()[v][k].to as int;
    let ec = graph.adj()[v][k].edge_index as int;
    let t3 = child_noted(t2, low2, v, pv, c);
    let low3 = child_low(low2, v, c);
    lemma_child_inv(graph, t0, mid, t2, low0, lowm, low2, v, pv, ev, k, first);
    assert(c < n);
    assert(mid.colors[v] != VisitColor::White);
    assert(low2[v] == lowm[v]);
    assert(t3.t_in[c] > t3.t_in[v]);
    assert forall|x: int| 0 <= x < n && #[trigger] mid.colors[x] != VisitColor::White implies t3.up[x]
        == mid.up[x] by {}
    assert forall|g: int| 0 <= g < n && #[trigger] t3.colors[g] == VisitColor::Gray implies t3.t_in[g]
        <= t3.t_in[v] && connects(tree_rel(t3.up), g, v) by {
        assert(mid.colors[g] != VisitColor::White);
        assert(mid.colors[g] == VisitColor::Gray);
        lemma_tree_walks_grow(graph, mid, t3, g, v);
    }
    assert forall|x: int, k1: int|
        0 <= x < n && 0 <= k1 < graph.adj()[x].len() && t3.colors[x] == VisitColor::Black && t3.t_in[x]
            > t3.t_in[v] implies t3.t_in[(#[trigger] graph.adj()[x][k1]).to as int] >= low3[v] by {
        let y = graph.adj()[x][k1].to as int;
        if mid.colors[x] != VisitColor::White {
            assert(seen_record_ok(graph, mid, x, k1));
            assert(mid.colors[y] != VisitColor::White);
        } else {
            if graph.adj()[x][k1].edge_index == ec {
                graph.lemma_same_edge(x, k1, v, k);
            }
        }
    }
    assert forall|k1: int| 0 <= k1 < k + 1 implies #[trigger] own_seen_ok(graph, t3, low3[v] as int, v, ev, k1) by {
        if k1 < k {
            assert(own_seen_ok(graph, mid, lowm[v] as int, v, ev, k1));
            let r = graph.adj()[v][k1];
            assert(mid.colors[r.to as int] != VisitColor::White);
        }
    }
}

proof fn lemma_child_level_b(
    graph: &Graph,
    t0: CutTree,
    mid: CutTree,
    t2: CutTree,
    low0: Seq<usize>,
    lowm: Seq<usize>,
    low2: Seq<usize>,
    v: int,
    pv: int,
    ev: int,
    k: int,
    first: int,
)
    requires
        tree_level(graph, t0, mid, low0, lowm, v, pv, ev, k, first),
        0 <= k < graph.adj()[v].len(),
        mid.colors[graph.adj()[v][k].to as int] == VisitColor::White,
        tree_result(
            graph,
            mid,
            t2,
            lowm,
            low2,
            graph.adj()[v][k].to as int,
            v,
            graph.adj()[v][k].edge_index as int,
        ),
    ensures
        forall|x: int|
            0 <= x < graph.order() && #[trigger] child_noted(t2, low2, v, pv, graph.adj()[v][k].to as int).colors[x] == VisitColor::Black && child_noted(t2, low2, v, pv, graph.adj()[v][k].to as int).t_in[x]
                > child_noted(t2, low2, v, pv, graph.adj()[v][k].to as int).t_in[v] ==> connects(tree_rel(child_noted(t2, low2, v, pv, graph.adj()[v][k].to as int).up), v, x),
{
    let n = graph.order();
    let c = graph.adj()[v][k].to as int;
    let ec = graph.adj()[v][k].edge_index as int;
    let t3 = child_noted(t2, low2, v, pv, c);
    let low3 = child_low(low2, v, c);
    lemma_child_inv(graph, t0, mid, t2, low0, lowm, low2, v, pv, ev, k, first);
    assert(c < n);
    assert(mid.colors[v] != VisitColor::White);
    assert(low2[v] == lowm[v]);
    assert(t3.t_in[c] > t3.t_in[v]);
    assert forall|x: int| 0 <= x < n && #[trigger] mid.colors[x] != VisitColor::White implies t3.up[x]
        == mid.up[x] by {}
    assert forall|x: int|
        0 <= x < n && #[trigger] t3.colors[x] == VisitColor::Black && t3.t_in[x] > t3.t_in[v] implies connects(
        tree_rel(t3.up),
        v,
        x,
    ) by {
        if mid.colors[x] != VisitColor::White {
            assert(mid.colors[x] == VisitColor::Black);
            lemma_tree_walks_grow(graph, mid, t3, v, x);
        } else {
            assert(connects(tree_rel(t2.up), c, x));
            assert(tree_rel(t3.up)(v, c));
            lemma_connects_step(tree_rel(t3.up), v, c);
            lemma_connects_trans(tree_rel(t3.up), v, c, x);
        }
    }
}

proof fn lemma_child_level_c(
    graph: &Graph,
    t0: CutTree,
    mid: CutTree,
    t2: CutTree,
    low0: Seq<usize>,
    lowm: Seq<usize>,
    low2: Seq<usize>,
    v: int,
    pv: int,
    ev: int,
    k: int,
    first: int,
)
    requires
        tree_level(graph, t0, mid, low0, lowm, v, pv, ev, k, first),
        0 <= k < graph.adj()[v].len(),
        mid.colors[graph.adj()[v][k].to as int] == VisitColor::White,
        tree_result(
            graph,
            mid,
            t2,
            lowm,
            low2,
            graph.adj()[v][k].to as int,
            v,
            graph.adj()[v][k].edge_index as int,
        ),
    ensures
        child_low(low2, v, graph.adj()[v][k].to as int)[v] == child_noted(t2, low2, v, pv, graph.adj()[v][k].to as int).t_in[v] || low_witness(graph, child_noted(t2, low2, v, pv, graph.adj()[v][k].to as int), v, ev, child_low(low2, v, graph.adj()[v][k].to as int)[v] as int),
{
    let n = graph.order();
    let c = graph.adj()[v][k].to as int;
    let ec = graph.adj()[v][k].edge_index as int;
    let t3 = child_noted(t2, low2, v, pv, c);
    let low3 = child_low(low2, v, c);
    lemma_child_inv(graph, t0, mid, t2, low0, lowm, low2, v, pv, ev, k, first);
    assert(c < n);
    assert(mid.colors[v] != VisitColor::White);
    assert(low2[v] == lowm[v]);
    assert(t3.t_in[c] > t3.t_in[v]);
    assert forall|x: int| 0 <= x < n && #[trigger] mid.colors[x] != VisitColor::White implies t3.up[x]
        == mid.up[x] by {}
    if low3[v] != t3.t_in[v] {
        if low2[c] < low2[v] {
            assert(low2[c] != t2.t_in[c]);
            assert(low_witness(graph, t2, c, ec, low2[c] as int));
            let (x, kx) = choose|x: int, kx: int|
                0 <= x < graph.order() && 0 <= kx < graph.adj()[x].len() && t2.colors[x] != VisitColor::White
                    && t2.t_in[x] >= t2.t_in[c] && connects(tree_rel(t2.up), c, x) && (#[trigger] graph.adj()[x][kx]).edge_index
                    != ec && t2.colors[graph.adj()[x][kx].to as int] == VisitColor::Gray && t2.t_in[graph.adj()[x][kx].to as int]
                    == low2[c] && low2[c] < t2.t_in[c];
            assert(tree_rel(t3.up)(v, c));
            lemma_connects_step(tree_rel(t3.up), v, c);
            lemma_connects_trans(tree_rel(t3.up), v, c, x);
            if pv >= 0 && graph.adj()[x][kx].edge_index == ev {
                let kp = choose|kp: int|
                    0 <= kp < graph.adj()[pv].len() && (#[trigger] graph.adj()[pv][kp]).to == v
                        && graph.adj()[pv][kp].edge_index == ev;
                graph.lemma_same_edge(x, kx, pv, kp);
                assert(mid.colors[pv] != VisitColor::White);
                assert(t0.colors[pv] != VisitColor::White);
            }
            assert(low_witness(graph, t3, v, ev, low3[v] as int));
        } else {
            assert(low_witness(graph, mid, v, ev, lowm[v] as int));
            let (x, kx) = choose|x: int, kx: int|
                0 <= x < graph.order() && 0 <= kx < graph.adj()[x].len() && mid.colors[x] != VisitColor::White
                    && mid.t_in[x] >= mid.t_in[v] && connects(tree_rel(mid.up), v, x) && (#[trigger] graph.adj()[x][kx]).edge_index
                    != ev && mid.colors[graph.adj()[x][kx].to as int] == VisitColor::Gray && mid.t_in[graph.adj()[x][kx].to as int]
                    == lowm[v] && lowm[v] < mid.t_in[v];
            lemma_tree_walks_grow(graph, mid, t3, v, x);
            assert(mid.colors[graph.adj()[x][kx].to as int] != VisitColor::White);
            assert(low_witness(graph, t3, v, ev, low3[v] as int));
        }
    }
}

/// After the walk from a child has returned and the child is noted, the
/// state is that before the next record.
#[verifier::rlimit(60)]
#[verifier::spinoff_prover]
pub proof fn lemma_tree_child(
    graph: &Graph,
    t0: CutTree,
    mid: CutTree,
    t2: CutTree,
    low0: Seq<usize>,
    lowm: Seq<usize>,
    low2: Seq<usize>,
    v: int,
    pv: int,
    ev: int,
    k: int,
    first: int,
)
    requires
        tree_level(graph, t0, mid, low0, lowm, v, pv, ev, k, first),
        0 <= k < graph.adj()[v].len(),
        mid.colors[graph.adj()[v][k].to as int] == VisitColor::White,
        tree_result(
            graph,
            mid,
            t2,
            lowm,
            low2,
            graph.adj()[v][k].to as int,
            v,
            graph.adj()[v][k].edge_index as int,
        ),
    ensures
        tree_level(
            graph,
            t0,
            child_noted(t2, low2, v, pv, graph.adj()[v][k].to as int),
            low0,
            child_low(low2, v, graph.adj()[v][k].to as int),
            v,
            pv,
            ev,
            k + 1,
            if pv < 0 && mid.kids[v] == 0 {
                graph.adj()[v][k].to as int
            } else {
                first
            },
        ),
{
    let n = graph.order();
    let c = graph.adj()[v][k].to as int;
    let t3 = child_noted(t2, low2, v, pv, c);
    let low3 = child_low(low2, v, c);
    lemma_child_inv(graph, t0, mid, t2, low0, lowm, low2, v, pv, ev, k, first);
    lemma_child_under(graph, t0, mid, t2, low0, lowm, low2, v, pv, ev, k, first);
    lemma_child_level_a(graph, t0, mid, t2, low0, lowm, low2, v, pv, ev, k, first);
    lemma_child_level_b(graph, t0, mid, t2, low0, lowm, low2, v, pv, ev, k, first);
    lemma_child_level_c(graph, t0, mid, t2, low0, lowm, low2, v, pv, ev, k, first);
    assert(c < n);
    assert(mid.colors[v] != VisitColor::White);
    assert(low2[v] == lowm[v]);
    assert forall|x: int| 0 <= x < n && x != v && #[trigger] t0.colors[x] != VisitColor::White implies low3[x]
        == low0[x] by {
        assert(mid.colors[x] != VisitColor::White);
    }
}

/// The state when the walk from `v` returns: `v` is black, and a root with
/// more than one child is noted as a cut vertex.
pub open spec fn tree_left(t: CutTree, v: int, pv: int) -> CutTree {
    CutTree {
        colors: t.colors.update(v, VisitColor::Black),
        cuts: if pv < 0 && t.kids[v] > 1 {
            t.cuts.push(v as usize)
        } else {
            t.cuts
        },
        ..t
    }
}

/// A vertex that was gray when `v` was entered is connected, without `v`,
/// to the vertex from which `v` was entered.
pub proof fn lemma_gray_to_parent(graph: &Graph, t0: CutTree, v: int, pv: int, ev: int, g: int)
    requires
        tree_start(graph, t0, v, pv, ev),
        pv >= 0,
        0 <= g < graph.order(),
        t0.colors[g] == VisitColor::Gray,
    ensures
        connects(graph.arrow_avoiding(v), g, pv),
{
    let n = graph.order();
    let r = graph.arrow_avoiding(v);
    assert(connects(tree_rel(t0.up), g, pv));
    let entered = |z: int| 0 <= z < n && t0.colors[z] != VisitColor::White;
    assert forall|a: int, b: int| entered(a) && #[trigger] tree_rel(t0.up)(a, b) implies entered(b) && r(
        a,
        b,
    ) by {
        let ka = lemma_tree_edge(graph, t0, a, b);
    }
    lemma_connects_restrict(tree_rel(t0.up), r, entered, g, pv);
}

/// When the walk from `v` returns, `v` is noted as a cut vertex if it is one.
proof fn lemma_exit_settled(
    graph: &Graph,
    t0: CutTree,
    t: CutTree,
    low0: Seq<usize>,
    low: Seq<usize>,
    v: int,
    pv: int,
    ev: int,
    first: int,
)
    requires
        tree_level(graph, t0, t, low0, low, v, pv, ev, graph.adj()[v].len() as int, first),
    ensures
        graph.is_cut_vertex(v) ==> tree_left(t, v, pv).cuts.contains(v as usize),
{
    let n = graph.order();
    let tf = tree_left(t, v, pv);
    let r = graph.arrow_avoiding(v);
    if pv < 0 && t.kids[v] > 1 {
        assert(tf.cuts[t.cuts.len() as int] == v as usize);
    } else if t.cuts.contains(v as usize) {
    } else {
        let anchor = if pv >= 0 {
            pv
        } else {
            first
        };
        assert forall|b: int| #[trigger] graph.has_edge(v, b) && b != v implies connects(r, b, anchor) by {
            let kb = choose|kb: int| 0 <= kb < graph.adj()[v].len() && (#[trigger] graph.adj()[v][kb]).to == b;
            assert(b < n);
            assert(own_seen_ok(graph, t, low[v] as int, v, ev, kb));
            if t.colors[b] == VisitColor::Gray {
                assert(t0.colors[b] == VisitColor::Gray) by {
                    if t0.colors[b] == VisitColor::White {
                    }
                }
                if pv >= 0 {
                    lemma_gray_to_parent(graph, t0, v, pv, ev, b);
                }
            } else {
                assert(t.colors[b] == VisitColor::Black);
                if t.t_in[b] <= t.t_in[v] {
                    assert(t0.colors[b] == VisitColor::Black) by {
                        if t0.colors[b] == VisitColor::White {
                        }
                    }
                    assert(graph.has_arc(b, v, graph.adj()[v][kb].edge_index as int));
                    let k2 = choose|k2: int|
                        0 <= k2 < graph.adj()[b].len() && (#[trigger] graph.adj()[b][k2]).to == v
                            && graph.adj()[b][k2].edge_index == graph.adj()[v][kb].edge_index;
                    assert(seen_record_ok(graph, t0, b, k2));
                }
            }
        }
        graph.lemma_not_cut_vertex(v, anchor);
    }
}

proof fn lemma_exit_inv(
    graph: &Graph,
    t0: CutTree,
    t: CutTree,
    low0: Seq<usize>,
    low: Seq<usize>,
    v: int,
    pv: int,
    ev: int,
    first: int,
)
    requires
        tree_level(graph, t0, t, low0, low, v, pv, ev, graph.adj()[v].len() as int, first),
    ensures
        tree_inv(graph, tree_left(t, v, pv)),
{
    let n = graph.order();
    let tf = tree_left(t, v, pv);
    graph.lemma_order_fits();
    lemma_exit_settled(graph, t0, t, low0, low, v, pv, ev, first);
    if pv < 0 && t.kids[v] > 1 {
        assert(graph.is_cut_vertex(v));
        assert(tf.cuts[t.cuts.len() as int] as int == v);
    }
    assert forall|x: int| 0 <= x < n && tf.colors[x] != VisitColor::White implies #[trigger] entry_ok(
        graph,
        tf,
        x,
    ) by {
        assert(entry_ok(graph, t, x));
    }
    assert forall|y: int, k: int|
        0 <= y < n && 0 <= k < graph.adj()[y].len() && tf.colors[y] == VisitColor::Black implies #[trigger] seen_record_ok(
        graph,
        tf,
        y,
        k,
    ) by {
        if y != v {
            assert(seen_record_ok(graph, t, y, k));
        } else {
            assert(own_seen_ok(graph, t, low[v] as int, v, ev, k));
        }
    }
    assert forall|i: int| 0 <= i < tf.cuts.len() implies (#[trigger] tf.cuts[i]) < n && graph.is_cut_vertex(
        tf.cuts[i] as int,
    ) by {
        if i < t.cuts.len() {
            assert(tf.cuts[i] == t.cuts[i]);
        } else {
            assert(tf.cuts[i] as int == v);
        }
    }
    assert forall|u: int| 0 <= u < n && #[trigger] tf.colors[u] == VisitColor::Black implies settled_vertex(
        graph,
        tf,
        u,
    ) by {
        if u != v {
            assert(settled_vertex(graph, t, u));
            if t.cuts.contains(u as usize) {
                let i = t.cuts.index_of(u as usize);
                assert(tf.cuts[i] == u as usize);
            }
        }
    }
    assert forall|x: int, y: int|
        0 <= x < n && 0 <= y < n && x != y && #[trigger] tf.colors[x] != VisitColor::White
            && #[trigger] tf.colors[y] != VisitColor::White implies tf.t_in[x] != tf.t_in[y] by {
        assert(t.colors[x] != VisitColor::White && t.colors[y] != VisitColor::White);
    }
    assert forall|x: int| 0 <= x < n && #[trigger] tf.colors[x] != VisitColor::White implies tf.t_in[x]
        < tf.time by {
        assert(t.colors[x] != VisitColor::White);
    }
    assert forall|x: int| 0 <= x < n && #[trigger] tf.colors[x] == VisitColor::White implies tf.up[x] == (
        -1int,
        -1int,
    ) && tf.kids[x] == 0 by {
        assert(t.colors[x] == VisitColor::White);
    }
    assert(tree_inv(graph, tf));
}

/// Leaving a vertex after its last record ends its walk.
#[verifier::rlimit(60)]
#[verifier::spinoff_prover]
pub proof fn lemma_tree_exit(
    graph: &Graph,
    t0: CutTree,
    t: CutTree,
    low0: Seq<usize>,
    low: Seq<usize>,
    v: int,
    pv: int,
    ev: int,
    first: int,
)
    requires
        tree_level(graph, t0, t, low0, low, v, pv, ev, graph.adj()[v].len() as int, first),
    ensures
        tree_result(graph, t0, tree_left(t, v, pv), low0, low, v, pv, ev),
{
    let n = graph.order();
    let tf = tree_left(t, v, pv);
    lemma_exit_inv(graph, t0, t, low0, low, v, pv, ev, first);
    lemma_connects_self(tree_rel(tf.up), v);
    assert(tf.cuts.take(t0.cuts.len() as int) =~= t.cuts.take(t0.cuts.len() as int));
    assert forall|x: int, k1: int|
        0 <= x < n && 0 <= k1 < graph.adj()[x].len() && tf.colors[x] != VisitColor::White && tf.t_in[x]
            >= tf.t_in[v] && (#[trigger] graph.adj()[x][k1]).edge_index != ev implies tf.t_in[graph.adj()[x][k1].to as int]
        >= low[v] by {
        if x == v {
            assert(own_seen_ok(graph, t, low[v] as int, v, ev, k1));
        } else {
            assert(t.colors[x] != VisitColor::White);
            assert(t.colors[x] != VisitColor::Gray);
        }
    }
    assert forall|x: int|
        0 <= x < n && #[trigger] tf.colors[x] != VisitColor::White && tf.t_in[x] >= tf.t_in[v] implies connects(
        tree_rel(tf.up),
        v,
        x,
    ) by {
        if x != v {
            assert(t.colors[x] != VisitColor::White);
            assert(t.colors[x] != VisitColor::Gray);
        }
    }
    if low[v] != t.t_in[v] {
        let (x, kx) = choose|x: int, kx: int|
            0 <= x < graph.order() && 0 <= kx < graph.adj()[x].len() && t.colors[x] != VisitColor::White
                && t.t_in[x] >= t.t_in[v] && connects(tree_rel(t.up), v, x) && (#[trigger] graph.adj()[x][kx]).edge_index
                != ev && t.colors[graph.adj()[x][kx].to as int] == VisitColor::Gray && t.t_in[graph.adj()[x][kx].to as int]
                == low[v] && low[v] < t.t_in[v];
        assert(graph.adj()[x][kx].to != v);
        assert(low_witness(graph, tf, v, ev, low[v] as int));
    }
}

/// The state that the exec values and the ghost tree make up.
pub open spec fn cut_tree(
    s: &crate::dfs::DFSSpace,
    up: Seq<(int, int)>,
    cuts: Seq<usize>,
) -> CutTree {
    CutTree {
        colors: s.visit_colors@,
        t_in: s.t_in@,
        time: s.time as int,
        up,
        cuts,
        kids: Seq::new(s.children@.len(), |x: int| s.children@[x]@.len() as int),
    }
}

/// Where a child `c` of `v` is left with a low-link value not below the
/// entry time of `v`, or `v` is a root, no record leads from a vertex under
/// `c` to a vertex that is neither under `c` nor `v` itself.
pub proof fn lemma_under_closed(
    graph: &Graph,
    t0: CutTree,
    mid: CutTree,
    t2: CutTree,
    low0: Seq<usize>,
    lowm: Seq<usize>,
    low2: Seq<usize>,
    v: int,
    pv: int,
    ev: int,
    k: int,
    first: int,
    a: int,
    y: int,
)
    requires
        tree_level(graph, t0, mid, low0, lowm, v, pv, ev, k, first),
        0 <= k < graph.adj()[v].len(),
        mid.colors[graph.adj()[v][k].to as int] == VisitColor::White,
        tree_result(
            graph,
            mid,
            t2,
            lowm,
            low2,
            graph.adj()[v][k].to as int,
            v,
            graph.adj()[v][k].edge_index as int,
        ),
        pv < 0 || low2[graph.adj()[v][k].to as int] >= mid.t_in[v],
        under(graph, t2, graph.adj()[v][k].to as int)(a),
        graph.arrow_avoiding(v)(a, y),
    ensures
        under(graph, t2, graph.adj()[v][k].to as int)(y),
{
    let c = graph.adj()[v][k].to as int;
    let ec = graph.adj()[v][k].edge_index as int;
    assert(c < graph.order());
    assert(mid.colors[v] != VisitColor::White);
    let ka = choose|ka: int| 0 <= ka < graph.adj()[a].len() && (#[trigger] graph.adj()[a][ka]).to == y;
    lemma_under_child(graph, mid, t2, lowm, low2, c, v, ec, a, ka);
    if graph.adj()[a][ka].edge_index == ec {
        graph.lemma_same_edge(a, ka, v, k);
    }
    if mid.colors[y] == VisitColor::Gray {
        assert(mid.t_in[y] <= mid.t_in[v]);
        if pv < 0 {
            assert(t0.colors[y] != VisitColor::Gray);
            if t0.colors[y] == VisitColor::White {
            }
        }
    }
}

/// A vertex under the child that was just left is black, and was white
/// when the child was entered.
pub proof fn lemma_under_is_new(
    graph: &Graph,
    mid: CutTree,
    t2: CutTree,
    lowm: Seq<usize>,
    low2: Seq<usize>,
    c: int,
    v: int,
    ec: int,
    a: int,
)
    requires
        graph.is_undirected(),
        tree_inv(graph, mid),
        0 <= c < graph.order(),
        mid.colors[c] == VisitColor::White,
        tree_result(graph, mid, t2, lowm, low2, c, v, ec),
        under(graph, t2, c)(a),
    ensures
        t2.colors[a] == VisitColor::Black,
        mid.colors[a] == VisitColor::White,
{
    if mid.colors[a] != VisitColor::White {
        assert(t2.t_in[a] == mid.t_in[a]);
    }
}

} // verus!
