//! Bridges of an undirected multigraph by low-link values.

use crate::dfs::lemma_white_count_lt;
use crate::dfs::lemma_white_count_bound;
use crate::dfs::white_count;
use crate::dfs::DFSSpace;
use crate::graph::Edge;
use crate::graph::Graph;
use crate::graph::VisitColor;
use crate::dfs::lemma_white_count_all;
use crate::dfs::lemma_white_count_update;
use crate::undirected::lemma_connects_restrict;
use crate::vectors::filled;
use crate::walks::connects;
use crate::walks::lemma_closed_holds;
use crate::walks::lemma_connects_mono;
use crate::walks::lemma_connects_push;
use crate::walks::lemma_connects_self;
use crate::walks::lemma_connects_step;
use crate::walks::lemma_connects_trans;
use vstd::prelude::*;

verus! {

/// A moment of the search for bridges: the colours, entry times and clock
/// of the traversal, the bridges found so far, and for each vertex the
/// vertex and the edge through which it was entered (`(-1, -1)` for a
/// vertex not yet entered or entered as a root).
pub struct BridgeState {
    pub colors: Seq<VisitColor>,
    pub t_in: Seq<usize>,
    pub time: int,
    pub found: Seq<usize>,
    pub up: Seq<(int, int)>,
}

/// The relation "the second vertex was entered from the first".
pub open spec fn tree_rel(up: Seq<(int, int)>) -> spec_fn(int, int) -> bool {
    |a: int, b: int| 0 <= b < up.len() && 0 <= a && up[b].0 == a
}

/// The state that the exec values and the ghost tree make up.
pub open spec fn bridge_state(s: &DFSSpace, found: Seq<usize>, up: Seq<(int, int)>) -> BridgeState {
    BridgeState { colors: s.visit_colors@, t_in: s.t_in@, time: s.time as int, found, up }
}

/// Edge `e` is in `found` if it is a bridge.
pub open spec fn decided(graph: &Graph, found: Seq<usize>, e: int) -> bool {
    graph.is_bridge(e) ==> found.contains(e as usize)
}

/// Some black vertex was entered through edge `e`.
pub open spec fn owned(graph: &Graph, b: BridgeState, e: int) -> bool {
    exists|x: int| 0 <= x < graph.order() && #[trigger] b.colors[x] == VisitColor::Black && b.up[x].1 == e
}

/// The entry of `x` in the tree: none, or an entered vertex with an earlier
/// entry time from which a record of the stated edge leads to `x`.
pub open spec fn parent_ok(graph: &Graph, b: BridgeState, x: int) -> bool {
    if b.up[x].0 < 0 {
        b.up[x] == (-1int, -1int)
    } else {
        let a = b.up[x].0;
        &&& a < graph.order()
        &&& b.colors[a] != VisitColor::White
        &&& b.t_in[a] < b.t_in[x]
        &&& graph.has_arc(a, x, b.up[x].1)
        &&& b.up[x].1 >= 0
    }
}

/// What is known of record `k` of a black vertex `y`: it leads to an entered
/// vertex, to a gray one only if that was entered before `y`, and its edge
/// is decided.
pub open spec fn black_record_ok(graph: &Graph, b: BridgeState, y: int, k: int) -> bool {
    let x = graph.adj()[y][k].to as int;
    &&& b.colors[x] != VisitColor::White
    &&& b.colors[x] == VisitColor::Gray ==> b.t_in[x] < b.t_in[y]
    &&& decided(graph, b.found, graph.adj()[y][k].edge_index as int)
}

/// The lists of the moment have one entry for each vertex.
pub open spec fn bridge_sizes(graph: &Graph, b: BridgeState) -> bool {
    let n = graph.order();
    &&& b.colors.len() == n
    &&& b.t_in.len() == n
    &&& b.up.len() == n
}

/// What holds between any two steps of the search for bridges.
pub open spec fn bridge_inv(graph: &Graph, b: BridgeState) -> bool {
    let n = graph.order();
    &&& bridge_sizes(graph, b)
    &&& forall|x: int| 0 <= x < n && #[trigger] b.colors[x] != VisitColor::White ==> b.t_in[x] < b.time
    &&& forall|x: int, y: int|
        0 <= x < n && 0 <= y < n && x != y && #[trigger] b.colors[x] != VisitColor::White
            && #[trigger] b.colors[y] != VisitColor::White ==> b.t_in[x] != b.t_in[y]
    &&& forall|x: int| 0 <= x < n && #[trigger] b.colors[x] == VisitColor::White ==> b.up[x] == (-1int, -1int)
    &&& forall|x: int| 0 <= x < n && b.colors[x] != VisitColor::White ==> #[trigger] parent_ok(graph, b, x)
    &&& forall|y: int, k: int|
        0 <= y < n && 0 <= k < graph.adj()[y].len() && b.colors[y] == VisitColor::Black
            ==> #[trigger] black_record_ok(graph, b, y, k)
    &&& forall|i: int|
        0 <= i < b.found.len() ==> graph.is_bridge(#[trigger] b.found[i] as int) && owned(
            graph,
            b,
            b.found[i] as int,
        )
    &&& b.found.no_duplicates()
}

/// The vertex through which `v` is entered, and the edge: a gray vertex to
/// which every gray vertex leads along the tree, or nothing when no vertex
/// is gray.
pub open spec fn parent_link(graph: &Graph, b0: BridgeState, v: int, pv: int, ev: int) -> bool {
    let n = graph.order();
    if pv >= 0 {
        &&& pv < n
        &&& ev >= 0
        &&& b0.colors[pv] == VisitColor::Gray
        &&& graph.has_arc(pv, v, ev)
        &&& forall|g: int|
            0 <= g < n && #[trigger] b0.colors[g] == VisitColor::Gray ==> b0.t_in[g] <= b0.t_in[pv]
                && connects(tree_rel(b0.up), g, pv)
    } else {
        &&& pv == -1
        &&& ev == -1
        &&& forall|g: int| 0 <= g < n ==> #[trigger] b0.colors[g] != VisitColor::Gray
    }
}

/// What the walk from `v` needs at its start.
pub open spec fn bridge_start(graph: &Graph, b0: BridgeState, v: int, pv: int, ev: int) -> bool {
    &&& graph.is_undirected()
    &&& bridge_inv(graph, b0)
    &&& 0 <= v < graph.order()
    &&& b0.colors[v] == VisitColor::White
    &&& parent_link(graph, b0, v, pv, ev)
}

/// Nothing that was entered before has changed, and what was entered since
/// is black.
pub open spec fn bridge_kept(graph: &Graph, b0: BridgeState, b: BridgeState, skip: int) -> bool {
    forall|x: int|
        0 <= x < graph.order() && x != skip ==> (#[trigger] b0.colors[x] != VisitColor::White ==> b.colors[x]
            == b0.colors[x] && b.t_in[x] == b0.t_in[x] && b.up[x] == b0.up[x])
            && (b0.colors[x] == VisitColor::White ==> b.colors[x] == VisitColor::White || (b.colors[x]
            == VisitColor::Black && b.t_in[x] >= b0.time))
}

/// A record of another edge than `ev` leads from a vertex below `v` in the
/// tree to a gray vertex that was entered at time `t`, before `v`.
pub open spec fn bridge_witness(graph: &Graph, b: BridgeState, v: int, ev: int, t: int) -> bool {
    exists|x: int, k: int|
        0 <= x < graph.order() && 0 <= k < graph.adj()[x].len() && b.colors[x] != VisitColor::White
            && b.t_in[x] >= b.t_in[v] && connects(tree_rel(b.up), v, x) && (#[trigger] graph.adj()[x][k]).edge_index
            != ev && b.colors[graph.adj()[x][k].to as int] == VisitColor::Gray && b.t_in[graph.adj()[x][k].to as int]
            == t && t < b.t_in[v]
}

/// The low-link values of the vertices that were entered before are unchanged.
pub open spec fn low_kept(graph: &Graph, b0: BridgeState, low0: Seq<usize>, low: Seq<usize>, skip: int) -> bool {
    &&& low0.len() == graph.order()
    &&& low.len() == graph.order()
    &&& forall|x: int|
        0 <= x < graph.order() && x != skip && #[trigger] b0.colors[x] != VisitColor::White ==> low[x]
            == low0[x]
}

/// What is known of record `k1` of the gray vertex `v` once it is handled.
pub open spec fn own_record_ok(graph: &Graph, b: BridgeState, low_v: int, v: int, ev: int, k1: int) -> bool {
    let r = graph.adj()[v][k1];
    &&& b.colors[r.to as int] != VisitColor::White
    &&& r.edge_index != ev ==> b.t_in[r.to as int] >= low_v
    &&& decided(graph, b.found, r.edge_index as int) || r.edge_index == ev
}

/// What holds while the records of the gray vertex `v` are handled, after
/// the first `k` of them.
pub open spec fn bridge_level(
    graph: &Graph,
    b0: BridgeState,
    b: BridgeState,
    low0: Seq<usize>,
    low: Seq<usize>,
    v: int,
    pv: int,
    ev: int,
    k: int,
) -> bool {
    let n = graph.order();
    &&& bridge_start(graph, b0, v, pv, ev)
    &&& bridge_inv(graph, b)
    &&& b.colors[v] == VisitColor::Gray
    &&& b.t_in[v] == b0.time
    &&& b.time > b0.time
    &&& b.up[v] == (pv, ev)
    &&& low[v] <= b.t_in[v]
    &&& bridge_kept(graph, b0, b, v)
    &&& low_kept(graph, b0, low0, low, v)
    &&& forall|g: int|
        0 <= g < n && #[trigger] b.colors[g] == VisitColor::Gray ==> b.t_in[g] <= b.t_in[v] && connects(
            tree_rel(b.up),
            g,
            v,
        )
    &&& b0.found.len() <= b.found.len()
    &&& b.found.take(b0.found.len() as int) == b0.found
    &&& forall|x: int, k1: int|
        0 <= x < n && 0 <= k1 < graph.adj()[x].len() && b.colors[x] == VisitColor::Black && b.t_in[x]
            > b.t_in[v] ==> b.t_in[(#[trigger] graph.adj()[x][k1]).to as int] >= low[v]
    &&& forall|k1: int| 0 <= k1 < k ==> #[trigger] own_record_ok(graph, b, low[v] as int, v, ev, k1)
    &&& low[v] == b.t_in[v] || bridge_witness(graph, b, v, ev, low[v] as int)
}

/// What the walk from `v` has achieved when it returns.
pub open spec fn bridge_result(
    graph: &Graph,
    b0: BridgeState,
    b: BridgeState,
    low0: Seq<usize>,
    low: Seq<usize>,
    v: int,
    pv: int,
    ev: int,
) -> bool {
    let n = graph.order();
    &&& bridge_inv(graph, b)
    &&& bridge_kept(graph, b0, b, -1)
    &&& low_kept(graph, b0, low0, low, -1)
    &&& b.colors[v] == VisitColor::Black
    &&& b.t_in[v] == b0.time
    &&& b.up[v] == (pv, ev)
    &&& low[v] <= b.t_in[v]
    &&& b0.found.len() <= b.found.len()
    &&& b.found.take(b0.found.len() as int) == b0.found
    &&& forall|x: int, k1: int|
        0 <= x < n && 0 <= k1 < graph.adj()[x].len() && b.colors[x] != VisitColor::White && b.t_in[x]
            >= b.t_in[v] && (#[trigger] graph.adj()[x][k1]).edge_index != ev ==> b.t_in[graph.adj()[x][k1].to as int]
            >= low[v]
    &&& low[v] == b.t_in[v] || bridge_witness(graph, b, v, ev, low[v] as int)
    &&& pv >= 0 ==> (graph.is_bridge(ev) <==> b.found.contains(ev as usize))
}

/// The state right after `v` was entered.
pub open spec fn entered(b0: BridgeState, v: int, pv: int, ev: int) -> BridgeState {
    BridgeState {
        colors: b0.colors.update(v, VisitColor::Gray),
        t_in: b0.t_in.update(v, b0.time as usize),
        time: b0.time + 1,
        found: b0.found,
        up: b0.up.update(v, (pv, ev)),
    }
}

proof fn lemma_tree_grows(graph: &Graph, a: BridgeState, b: BridgeState, skip: int, u: int, w: int)
    requires
        bridge_inv(graph, a),
        bridge_sizes(graph, b),
        bridge_kept(graph, a, b, skip),
        0 <= skip < graph.order() ==> a.colors[skip] == VisitColor::White,
        connects(tree_rel(a.up), u, w),
    ensures
        connects(tree_rel(b.up), u, w),
{
    assert forall|x: int, y: int| #[trigger] tree_rel(a.up)(x, y) implies tree_rel(b.up)(x, y) by {
        if a.colors[y] == VisitColor::White {
            assert(a.up[y] == (-1int, -1int));
        }
    }
    lemma_connects_mono(tree_rel(a.up), tree_rel(b.up), u, w);
}

proof fn lemma_bridge_enter(graph: &Graph, b0: BridgeState, low0: Seq<usize>, v: int, pv: int, ev: int)
    requires
        bridge_start(graph, b0, v, pv, ev),
        0 <= b0.time <= usize::MAX,
        low0.len() == graph.order(),
    ensures
        bridge_level(
            graph,
            b0,
            entered(b0, v, pv, ev),
            low0,
            low0.update(v, b0.time as usize),
            v,
            pv,
            ev,
            0,
        ),
{
    let n = graph.order();
    let b = entered(b0, v, pv, ev);
    lemma_connects_self(tree_rel(b.up), v);
    assert forall|x: int| 0 <= x < n && b.colors[x] != VisitColor::White implies #[trigger] parent_ok(
        graph,
        b,
        x,
    ) by {
        if x != v {
            assert(parent_ok(graph, b0, x));
            assert(b0.colors[x] != VisitColor::White);
            if b0.up[x].0 >= 0 {
                assert(b0.up[x].0 != v);
            }
        } else {
            if pv >= 0 {
                assert(b0.colors[pv] != VisitColor::White);
            }
        }
    }
    assert forall|y: int, k: int|
        0 <= y < n && 0 <= k < graph.adj()[y].len() && b.colors[y] == VisitColor::Black implies #[trigger] black_record_ok(
        graph,
        b,
        y,
        k,
    ) by {
        assert(black_record_ok(graph, b0, y, k));
    }
    assert forall|i: int| 0 <= i < b.found.len() implies graph.is_bridge(#[trigger] b.found[i] as int)
        && owned(graph, b, b.found[i] as int) by {
        let e = b0.found[i] as int;
        assert(owned(graph, b0, e));
        let x = choose|x: int| 0 <= x < graph.order() && #[trigger] b0.colors[x] == VisitColor::Black && b0.up[x].1 == e;
        assert(b.colors[x] == VisitColor::Black);
    }
    assert forall|g: int| 0 <= g < n && #[trigger] b.colors[g] == VisitColor::Gray implies b.t_in[g]
        <= b.t_in[v] && connects(tree_rel(b.up), g, v) by {
        if g != v {
            assert(b0.colors[g] == VisitColor::Gray);
            assert(pv >= 0);
            assert(b0.colors[g] != VisitColor::White);
            lemma_tree_grows(graph, b0, b, v, g, pv);
            assert(tree_rel(b.up)(pv, v));
            lemma_connects_push(tree_rel(b.up), g, pv, v);
        }
    }
    assert(b.found.take(b0.found.len() as int) =~= b0.found);
    assert forall|x: int, y: int|
        0 <= x < n && 0 <= y < n && x != y && #[trigger] b.colors[x] != VisitColor::White
            && #[trigger] b.colors[y] != VisitColor::White implies b.t_in[x] != b.t_in[y] by {
        if x != v && y != v {
            assert(b0.colors[x] != VisitColor::White && b0.colors[y] != VisitColor::White);
        } else if x != v {
            assert(b0.colors[x] != VisitColor::White);
        } else {
            assert(b0.colors[y] != VisitColor::White);
        }
    }
    assert forall|x: int| 0 <= x < n && #[trigger] b.colors[x] != VisitColor::White implies b.t_in[x]
        < b.time by {
        if x != v {
            assert(b0.colors[x] != VisitColor::White);
        }
    }
    assert(bridge_inv(graph, b));
}

/// A vertex that the tree enters from another was itself entered, through
/// a record of the stated edge.
proof fn lemma_tree_step(graph: &Graph, b: BridgeState, a: int, x: int) -> (k: int)
    requires
        bridge_inv(graph, b),
        tree_rel(b.up)(a, x),
    ensures
        0 <= a < graph.order(),
        0 <= x < graph.order(),
        b.colors[x] != VisitColor::White,
        b.colors[a] != VisitColor::White,
        b.t_in[a] < b.t_in[x],
        0 <= k < graph.adj()[a].len(),
        graph.adj()[a][k].to == x,
        graph.adj()[a][k].edge_index == b.up[x].1,
{
    if b.colors[x] == VisitColor::White {
        assert(b.up[x] == (-1int, -1int));
    }
    assert(parent_ok(graph, b, x));
    choose|k: int|
        0 <= k < graph.adj()[a].len() && (#[trigger] graph.adj()[a][k]).to == x && graph.adj()[a][k].edge_index
            == b.up[x].1
}

proof fn lemma_bridge_descend(
    graph: &Graph,
    b0: BridgeState,
    b: BridgeState,
    low0: Seq<usize>,
    low: Seq<usize>,
    v: int,
    pv: int,
    ev: int,
    k: int,
)
    requires
        bridge_level(graph, b0, b, low0, low, v, pv, ev, k),
        0 <= k < graph.adj()[v].len(),
        b.colors[graph.adj()[v][k].to as int] == VisitColor::White,
    ensures
        bridge_start(graph, b, graph.adj()[v][k].to as int, v, graph.adj()[v][k].edge_index as int),
{
}

/// A found bridge stays found.
proof fn lemma_decided_kept(graph: &Graph, a: Seq<usize>, b: Seq<usize>, e: int)
    requires
        a.len() <= b.len(),
        b.take(a.len() as int) == a,
        decided(graph, a, e),
    ensures
        decided(graph, b, e),
{
    if a.contains(e as usize) {
        let i = a.index_of(e as usize);
        assert(b.take(a.len() as int)[i] == b[i]);
    }
}

proof fn lemma_bridge_black_target(
    graph: &Graph,
    b0: BridgeState,
    b: BridgeState,
    low0: Seq<usize>,
    low: Seq<usize>,
    v: int,
    pv: int,
    ev: int,
    k: int,
)
    requires
        bridge_level(graph, b0, b, low0, low, v, pv, ev, k),
        0 <= k < graph.adj()[v].len(),
        b.colors[graph.adj()[v][k].to as int] == VisitColor::Black,
    ensures
        bridge_level(graph, b0, b, low0, low, v, pv, ev, k + 1),
{
    let to = graph.adj()[v][k].to as int;
    let e = graph.adj()[v][k].edge_index as int;
    assert(graph.has_arc(to, v, e));
    let k2 = choose|k2: int|
        0 <= k2 < graph.adj()[to].len() && (#[trigger] graph.adj()[to][k2]).to == v && graph.adj()[to][k2].edge_index
            == e;
    assert(black_record_ok(graph, b, to, k2));
    assert(own_record_ok(graph, b, low[v] as int, v, ev, k));
}

proof fn lemma_bridge_parent_target(
    graph: &Graph,
    b0: BridgeState,
    b: BridgeState,
    low0: Seq<usize>,
    low: Seq<usize>,
    v: int,
    pv: int,
    ev: int,
    k: int,
)
    requires
        bridge_level(graph, b0, b, low0, low, v, pv, ev, k),
        0 <= k < graph.adj()[v].len(),
        b.colors[graph.adj()[v][k].to as int] == VisitColor::Gray,
        graph.adj()[v][k].edge_index == ev,
    ensures
        bridge_level(graph, b0, b, low0, low, v, pv, ev, k + 1),
{
    assert(own_record_ok(graph, b, low[v] as int, v, ev, k));
}

/// A record from the gray vertex `v` to a gray vertex, of another edge than
/// the one through which `v` was entered, belongs to no bridge.
proof fn lemma_back_record_no_bridge(
    graph: &Graph,
    b0: BridgeState,
    b: BridgeState,
    low0: Seq<usize>,
    low: Seq<usize>,
    v: int,
    pv: int,
    ev: int,
    k: int,
)
    requires
        bridge_level(graph, b0, b, low0, low, v, pv, ev, k),
        0 <= k < graph.adj()[v].len(),
        b.colors[graph.adj()[v][k].to as int] == VisitColor::Gray,
        graph.adj()[v][k].edge_index != ev,
    ensures
        !graph.is_bridge(graph.adj()[v][k].edge_index as int),
{
    let to = graph.adj()[v][k].to as int;
    let e = graph.adj()[v][k].edge_index as int;
    let r = graph.arrow_without(e);
    if to == v {
        lemma_connects_self(r, v);
    } else {
        assert(connects(tree_rel(b.up), to, v));
        assert forall|a: int, x: int| #[trigger] tree_rel(b.up)(a, x) implies r(a, x) by {
            let ka = lemma_tree_step(graph, b, a, x);
            if graph.adj()[a][ka].edge_index == e {
                graph.lemma_same_edge(a, ka, v, k);
            }
        }
        lemma_connects_mono(tree_rel(b.up), r, to, v);
        graph.lemma_without_symmetric(e, to, v);
    }
    graph.lemma_connected_ends_no_bridge(e, v, k);
}

proof fn lemma_bridge_gray_target(
    graph: &Graph,
    b0: BridgeState,
    b: BridgeState,
    low0: Seq<usize>,
    low: Seq<usize>,
    v: int,
    pv: int,
    ev: int,
    k: int,
)
    requires
        bridge_level(graph, b0, b, low0, low, v, pv, ev, k),
        0 <= k < graph.adj()[v].len(),
        b.colors[graph.adj()[v][k].to as int] == VisitColor::Gray,
        graph.adj()[v][k].edge_index != ev,
    ensures
        bridge_level(
            graph,
            b0,
            b,
            low0,
            low.update(
                v,
                if b.t_in[graph.adj()[v][k].to as int] < low[v] {
                    b.t_in[graph.adj()[v][k].to as int]
                } else {
                    low[v]
                },
            ),
            v,
            pv,
            ev,
            k + 1,
        ),
{
    let to = graph.adj()[v][k].to as int;
    let e = graph.adj()[v][k].edge_index as int;
    let t = b.t_in[to];
    let m = if t < low[v] {
        t
    } else {
        low[v]
    };
    let low2 = low.update(v, m);
    lemma_back_record_no_bridge(graph, b0, b, low0, low, v, pv, ev, k);
    assert forall|k1: int| 0 <= k1 < k + 1 implies #[trigger] own_record_ok(graph, b, low2[v] as int, v, ev, k1) by {
        if k1 < k {
            assert(own_record_ok(graph, b, low[v] as int, v, ev, k1));
        }
    }
    if t < low[v] {
        lemma_connects_self(tree_rel(b.up), v);
        assert(bridge_witness(graph, b, v, ev, low2[v] as int));
    }
}

proof fn lemma_bridge_child(
    graph: &Graph,
    b0: BridgeState,
    mid: BridgeState,
    b: BridgeState,
    low0: Seq<usize>,
    lowm: Seq<usize>,
    low: Seq<usize>,
    v: int,
    pv: int,
    ev: int,
    k: int,
)
    requires
        bridge_level(graph, b0, mid, low0, lowm, v, pv, ev, k),
        0 <= k < graph.adj()[v].len(),
        mid.colors[graph.adj()[v][k].to as int] == VisitColor::White,
        bridge_result(
            graph,
            mid,
            b,
            lowm,
            low,
            graph.adj()[v][k].to as int,
            v,
            graph.adj()[v][k].edge_index as int,
        ),
    ensures
        bridge_level(
            graph,
            b0,
            b,
            low0,
            low.update(
                v,
                if low[graph.adj()[v][k].to as int] < low[v] {
                    low[graph.adj()[v][k].to as int]
                } else {
                    low[v]
                },
            ),
            v,
            pv,
            ev,
            k + 1,
        ),
{
    let n = graph.order();
    let to = graph.adj()[v][k].to as int;
    let ec = graph.adj()[v][k].edge_index as int;
    let m = if low[to] < low[v] {
        low[to]
    } else {
        low[v]
    };
    let low2 = low.update(v, m);
    assert(to < n);
    assert(mid.colors[v] != VisitColor::White);
    assert(low[v] == lowm[v]);
    assert(b.t_in[to] > b.t_in[v]);
    assert forall|x: int| 0 <= x < n && x != v implies (#[trigger] b0.colors[x] != VisitColor::White ==> b.colors[x]
        == b0.colors[x] && b.t_in[x] == b0.t_in[x] && b.up[x] == b0.up[x]) && (b0.colors[x]
        == VisitColor::White ==> b.colors[x] == VisitColor::White || (b.colors[x] == VisitColor::Black
        && b.t_in[x] >= b0.time)) by {
        if b0.colors[x] != VisitColor::White {
            assert(mid.colors[x] != VisitColor::White);
        } else {
            if mid.colors[x] != VisitColor::White {
            }
        }
    }
    assert forall|x: int| 0 <= x < n && x != v && #[trigger] b0.colors[x] != VisitColor::White implies low2[x]
        == low0[x] by {
        assert(mid.colors[x] != VisitColor::White);
    }
    assert forall|g: int| 0 <= g < n && #[trigger] b.colors[g] == VisitColor::Gray implies b.t_in[g]
        <= b.t_in[v] && connects(tree_rel(b.up), g, v) by {
        assert(mid.colors[g] != VisitColor::White);
        assert(mid.colors[g] == VisitColor::Gray);
        lemma_tree_grows(graph, mid, b, -1, g, v);
    }
    assert(b.found.take(b0.found.len() as int) =~= b0.found) by {
        assert(b.found.take(mid.found.len() as int).take(b0.found.len() as int) =~= b.found.take(
            b0.found.len() as int,
        ));
    }
    assert forall|x: int, k1: int|
        0 <= x < n && 0 <= k1 < graph.adj()[x].len() && b.colors[x] == VisitColor::Black && b.t_in[x]
            > b.t_in[v] implies b.t_in[(#[trigger] graph.adj()[x][k1]).to as int] >= low2[v] by {
        let y = graph.adj()[x][k1].to as int;
        if mid.colors[x] != VisitColor::White {
            assert(black_record_ok(graph, mid, x, k1));
            assert(mid.colors[y] != VisitColor::White);
        } else {
            if graph.adj()[x][k1].edge_index == ec {
                graph.lemma_same_edge(x, k1, v, k);
            }
        }
    }
    assert forall|k1: int| 0 <= k1 < k + 1 implies #[trigger] own_record_ok(graph, b, low2[v] as int, v, ev, k1) by {
        if k1 < k {
            assert(own_record_ok(graph, mid, lowm[v] as int, v, ev, k1));
            let r = graph.adj()[v][k1];
            assert(mid.colors[r.to as int] != VisitColor::White);
            if decided(graph, mid.found, r.edge_index as int) {
                lemma_decided_kept(graph, mid.found, b.found, r.edge_index as int);
            }
        }
    }
    if low2[v] != b.t_in[v] {
        if low[to] < low[v] {
            assert(low[to] != b.t_in[to]);
            assert(bridge_witness(graph, b, to, ec, low[to] as int));
            let (x, kx) = choose|x: int, kx: int|
                0 <= x < graph.order() && 0 <= kx < graph.adj()[x].len() && b.colors[x] != VisitColor::White
                    && b.t_in[x] >= b.t_in[to] && connects(tree_rel(b.up), to, x) && (#[trigger] graph.adj()[x][kx]).edge_index
                    != ec && b.colors[graph.adj()[x][kx].to as int] == VisitColor::Gray && b.t_in[graph.adj()[x][kx].to as int]
                    == low[to] && low[to] < b.t_in[to];
            assert(tree_rel(b.up)(v, to));
            lemma_connects_step(tree_rel(b.up), v, to);
            lemma_connects_trans(tree_rel(b.up), v, to, x);
            if pv >= 0 && graph.adj()[x][kx].edge_index == ev {
                let kp = choose|kp: int|
                    0 <= kp < graph.adj()[pv].len() && (#[trigger] graph.adj()[pv][kp]).to == v
                        && graph.adj()[pv][kp].edge_index == ev;
                graph.lemma_same_edge(x, kx, pv, kp);
                assert(mid.colors[pv] != VisitColor::White);
                assert(b0.colors[pv] != VisitColor::White);
            }
            assert(bridge_witness(graph, b, v, ev, low2[v] as int));
        } else {
            assert(bridge_witness(graph, mid, v, ev, lowm[v] as int));
            let (x, kx) = choose|x: int, kx: int|
                0 <= x < graph.order() && 0 <= kx < graph.adj()[x].len() && mid.colors[x] != VisitColor::White
                    && mid.t_in[x] >= mid.t_in[v] && connects(tree_rel(mid.up), v, x) && (#[trigger] graph.adj()[x][kx]).edge_index
                    != ev && mid.colors[graph.adj()[x][kx].to as int] == VisitColor::Gray && mid.t_in[graph.adj()[x][kx].to as int]
                    == lowm[v] && lowm[v] < mid.t_in[v];
            lemma_tree_grows(graph, mid, b, -1, v, x);
            assert(mid.colors[graph.adj()[x][kx].to as int] != VisitColor::White);
            assert(bridge_witness(graph, b, v, ev, low2[v] as int));
        }
    }
}

/// The vertices entered since `v` was, `v` among them.
pub open spec fn below(graph: &Graph, b: BridgeState, v: int) -> spec_fn(int) -> bool {
    |z: int| 0 <= z < graph.order() && b.colors[z] != VisitColor::White && b.t_in[z] >= b.t_in[v]
}

proof fn lemma_exit_bridge(
    graph: &Graph,
    b0: BridgeState,
    b: BridgeState,
    low0: Seq<usize>,
    low: Seq<usize>,
    v: int,
    pv: int,
    ev: int,
)
    requires
        bridge_level(graph, b0, b, low0, low, v, pv, ev, graph.adj()[v].len() as int),
        pv >= 0,
        low[v] == b.t_in[v],
    ensures
        graph.is_bridge(ev),
        !b.found.contains(ev as usize),
{
    let n = graph.order();
    let r = graph.arrow_without(ev);
    let inside = below(graph, b, v);
    let kp = choose|kp: int|
        0 <= kp < graph.adj()[pv].len() && (#[trigger] graph.adj()[pv][kp]).to == v && graph.adj()[pv][kp].edge_index
            == ev;
    assert(parent_ok(graph, b, v));
    assert(b.colors[pv] == VisitColor::Gray);
    assert forall|a: int, y: int| inside(a) && #[trigger] r(a, y) implies inside(y) by {
        let ka = choose|ka: int|
            0 <= ka < graph.adj()[a].len() && (#[trigger] graph.adj()[a][ka]).to == y && graph.adj()[a][ka].edge_index
                != ev;
        assert(graph.adj()[a][ka].to < n);
        if a == v {
            assert(own_record_ok(graph, b, low[v] as int, v, ev, ka));
        } else {
            assert(b.colors[a] != VisitColor::Gray);
            assert(black_record_ok(graph, b, a, ka));
        }
    }
    if connects(r, v, pv) {
        lemma_closed_holds(r, inside, v, pv);
    }
    if connects(r, pv, v) {
        graph.lemma_without_symmetric(ev, pv, v);
    }
    assert(graph.index_used(ev));
    assert forall|u: int, k: int|
        0 <= u < graph.order() && 0 <= k < graph.adj()[u].len() && (#[trigger] graph.adj()[u][k]).edge_index
            == ev implies !connects(r, u, graph.adj()[u][k].to as int) by {
        graph.lemma_same_edge(u, k, pv, kp);
    }
    if b.found.contains(ev as usize) {
        let i = b.found.index_of(ev as usize);
        assert(owned(graph, b, b.found[i] as int));
        let x = choose|x: int| 0 <= x < graph.order() && #[trigger] b.colors[x] == VisitColor::Black && b.up[x].1 == ev;
        assert(parent_ok(graph, b, x));
        let a = b.up[x].0;
        let ka = choose|ka: int|
            0 <= ka < graph.adj()[a].len() && (#[trigger] graph.adj()[a][ka]).to == x && graph.adj()[a][ka].edge_index
                == ev;
        graph.lemma_same_edge(a, ka, pv, kp);
    }
}

proof fn lemma_exit_no_bridge(
    graph: &Graph,
    b0: BridgeState,
    b: BridgeState,
    low0: Seq<usize>,
    low: Seq<usize>,
    v: int,
    pv: int,
    ev: int,
)
    requires
        bridge_level(graph, b0, b, low0, low, v, pv, ev, graph.adj()[v].len() as int),
        pv >= 0,
        low[v] < b.t_in[v],
    ensures
        !graph.is_bridge(ev),
{
    let n = graph.order();
    let r = graph.arrow_without(ev);
    let inside = below(graph, b, v);
    let kp = choose|kp: int|
        0 <= kp < graph.adj()[pv].len() && (#[trigger] graph.adj()[pv][kp]).to == v && graph.adj()[pv][kp].edge_index
            == ev;
    assert(parent_ok(graph, b, v));
    assert(b.colors[pv] == VisitColor::Gray);
    let (x, kx) = choose|x: int, kx: int|
        0 <= x < graph.order() && 0 <= kx < graph.adj()[x].len() && b.colors[x] != VisitColor::White
            && b.t_in[x] >= b.t_in[v] && connects(tree_rel(b.up), v, x) && (#[trigger] graph.adj()[x][kx]).edge_index
            != ev && b.colors[graph.adj()[x][kx].to as int] == VisitColor::Gray && b.t_in[graph.adj()[x][kx].to as int]
            == low[v] && low[v] < b.t_in[v];
    let y = graph.adj()[x][kx].to as int;
    assert(y < n);
    // down the tree from `v` to `x`
    assert forall|a: int, c: int| inside(a) && #[trigger] tree_rel(b.up)(a, c) implies inside(c) && r(a, c) by {
        let ka = lemma_tree_step(graph, b, a, c);
        if graph.adj()[a][ka].edge_index == ev {
            graph.lemma_same_edge(a, ka, pv, kp);
        }
    }
    lemma_connects_restrict(tree_rel(b.up), r, inside, v, x);
    // the record from `x` up to `y`
    assert(r(x, y));
    lemma_connects_push(r, v, x, y);
    // down the tree from `y` to the vertex from which `v` was entered
    assert(y != v);
    assert(b0.colors[y] == VisitColor::Gray) by {
        if b0.colors[y] == VisitColor::White {
        }
    }
    assert(connects(tree_rel(b0.up), y, pv));
    assert forall|a: int, c: int| #[trigger] tree_rel(b0.up)(a, c) implies r(a, c) by {
        let ka = lemma_tree_step(graph, b0, a, c);
        if graph.adj()[a][ka].edge_index == ev {
            graph.lemma_same_edge(a, ka, pv, kp);
        }
    }
    lemma_connects_mono(tree_rel(b0.up), r, y, pv);
    lemma_connects_trans(r, v, y, pv);
    assert(graph.has_arc(graph.adj()[pv][kp].to as int, pv, graph.adj()[pv][kp].edge_index as int));
    let km = choose|km: int|
        0 <= km < graph.adj()[v].len() && (#[trigger] graph.adj()[v][km]).to == pv && graph.adj()[v][km].edge_index
            == ev;
    graph.lemma_connected_ends_no_bridge(ev, v, km);
}

/// The state when the walk from `v` returns: `v` is black, and the edge
/// through which it was entered is among the bridges if the low-link value
/// of `v` is its own entry time.
pub open spec fn left(b: BridgeState, low: Seq<usize>, v: int, pv: int, ev: int) -> BridgeState {
    BridgeState {
        colors: b.colors.update(v, VisitColor::Black),
        t_in: b.t_in,
        time: b.time,
        found: if pv >= 0 && low[v] == b.t_in[v] {
            b.found.push(ev as usize)
        } else {
            b.found
        },
        up: b.up,
    }
}

#[verifier::rlimit(60)]
#[verifier::spinoff_prover]
proof fn lemma_bridge_exit(
    graph: &Graph,
    b0: BridgeState,
    b: BridgeState,
    low0: Seq<usize>,
    low: Seq<usize>,
    v: int,
    pv: int,
    ev: int,
)
    requires
        bridge_level(graph, b0, b, low0, low, v, pv, ev, graph.adj()[v].len() as int),
        ev <= usize::MAX,
    ensures
        bridge_result(graph, b0, left(b, low, v, pv, ev), low0, low, v, pv, ev),
{
    let n = graph.order();
    let bf = left(b, low, v, pv, ev);
    if pv >= 0 {
        if low[v] == b.t_in[v] {
            lemma_exit_bridge(graph, b0, b, low0, low, v, pv, ev);
        } else {
            lemma_exit_no_bridge(graph, b0, b, low0, low, v, pv, ev);
        }
    }
    assert forall|e: int| decided(graph, b.found, e) implies decided(graph, bf.found, e) by {
        if b.found.contains(e as usize) {
            let i = b.found.index_of(e as usize);
            assert(bf.found[i] == e as usize);
        }
    }
    assert(pv >= 0 ==> (graph.is_bridge(ev) <==> bf.found.contains(ev as usize))) by {
        if pv >= 0 && low[v] == b.t_in[v] {
            assert(bf.found[b.found.len() as int] == ev as usize);
        }
        if pv >= 0 && low[v] != b.t_in[v] {
            assert(bf.found == b.found);
            if b.found.contains(ev as usize) {
                let i = b.found.index_of(ev as usize);
                assert(graph.is_bridge(b.found[i] as int));
            }
        }
    }
    assert forall|x: int| 0 <= x < n && bf.colors[x] != VisitColor::White implies #[trigger] parent_ok(
        graph,
        bf,
        x,
    ) by {
        assert(parent_ok(graph, b, x));
    }
    assert forall|y: int, k: int|
        0 <= y < n && 0 <= k < graph.adj()[y].len() && bf.colors[y] == VisitColor::Black implies #[trigger] black_record_ok(
        graph,
        bf,
        y,
        k,
    ) by {
        let x = graph.adj()[y][k].to as int;
        if y != v {
            assert(black_record_ok(graph, b, y, k));
        } else {
            assert(own_record_ok(graph, b, low[v] as int, v, ev, k));
            if graph.adj()[v][k].edge_index == ev {
                assert(pv >= 0);
            }
        }
    }
    assert forall|i: int| 0 <= i < bf.found.len() implies graph.is_bridge(#[trigger] bf.found[i] as int)
        && owned(graph, bf, bf.found[i] as int) by {
        if i < b.found.len() {
            let e = b.found[i] as int;
            assert(bf.found[i] == b.found[i]);
            assert(owned(graph, b, e));
            let x = choose|x: int| 0 <= x < graph.order() && #[trigger] b.colors[x] == VisitColor::Black && b.up[x].1 == e;
            assert(bf.colors[x] == VisitColor::Black);
        } else {
            assert(bf.colors[v] == VisitColor::Black);
        }
    }
    assert(bf.found.no_duplicates());
    assert forall|x: int, y: int|
        0 <= x < n && 0 <= y < n && x != y && #[trigger] bf.colors[x] != VisitColor::White
            && #[trigger] bf.colors[y] != VisitColor::White implies bf.t_in[x] != bf.t_in[y] by {
        assert(b.colors[x] != VisitColor::White && b.colors[y] != VisitColor::White);
    }
    assert forall|x: int| 0 <= x < n && #[trigger] bf.colors[x] != VisitColor::White implies bf.t_in[x]
        < bf.time by {
        assert(b.colors[x] != VisitColor::White);
    }
    assert forall|x: int| 0 <= x < n && #[trigger] bf.colors[x] == VisitColor::White implies bf.up[x] == (
        -1int,
        -1int,
    ) by {
        assert(b.colors[x] == VisitColor::White);
    }
    assert(bridge_inv(graph, bf));
    assert(bf.found.take(b0.found.len() as int) =~= b.found.take(b0.found.len() as int));
    assert forall|x: int, k1: int|
        0 <= x < n && 0 <= k1 < graph.adj()[x].len() && bf.colors[x] != VisitColor::White && bf.t_in[x]
            >= bf.t_in[v] && (#[trigger] graph.adj()[x][k1]).edge_index != ev implies bf.t_in[graph.adj()[x][k1].to as int]
        >= low[v] by {
        if x == v {
            assert(own_record_ok(graph, b, low[v] as int, v, ev, k1));
        } else {
            assert(b.colors[x] != VisitColor::White);
            assert(b.colors[x] != VisitColor::Gray);
        }
    }
    if low[v] != b.t_in[v] {
        let (x, kx) = choose|x: int, kx: int|
            0 <= x < graph.order() && 0 <= kx < graph.adj()[x].len() && b.colors[x] != VisitColor::White
                && b.t_in[x] >= b.t_in[v] && connects(tree_rel(b.up), v, x) && (#[trigger] graph.adj()[x][kx]).edge_index
                != ev && b.colors[graph.adj()[x][kx].to as int] == VisitColor::Gray && b.t_in[graph.adj()[x][kx].to as int]
                == low[v] && low[v] < b.t_in[v];
        assert(graph.adj()[x][kx].to != v);
        assert(bridge_witness(graph, bf, v, ev, low[v] as int));
    }
}

/// The vertex from which a walk was entered, or `-1` for a root.
pub open spec fn parent_vertex(edge_to_parent: Option<Edge>) -> int {
    match edge_to_parent {
        Some(edge) => edge.to as int,
        None => -1,
    }
}

/// The edge through which a walk was entered, or `-1` for a root.
pub open spec fn parent_edge(edge_to_parent: Option<Edge>) -> int {
    match edge_to_parent {
        Some(edge) => edge.edge_index as int,
        None => -1,
    }
}

/// What the search for bridges keeps: the colours, the entry times, the
/// clock, for each vertex the earliest entry time that it is known to
/// reach, and the bridges found so far.
pub struct Probe {
    pub colors: Seq<VisitColor>,
    pub t_in: Seq<usize>,
    pub time: usize,
    pub low: Seq<usize>,
    pub found: Seq<usize>,
}

/// A list of `n` zeros.
pub open spec fn zeros(n: int) -> Seq<usize> {
    Seq::new(n as nat, |x: int| 0usize)
}

/// What the search keeps in the traversal state and its two lists.
pub open spec fn probe_of(s: &DFSSpace, low: Seq<usize>, found: Seq<usize>) -> Probe {
    Probe { colors: s.visit_colors@, t_in: s.t_in@, time: s.time, low, found }
}

/// The search has entered `v`.
pub open spec fn probe_entered(p: Probe, v: int) -> Probe {
    Probe {
        colors: p.colors.update(v, VisitColor::Gray),
        t_in: p.t_in.update(v, p.time),
        time: (p.time + 1) as usize,
        low: p.low.update(v, p.time),
        found: p.found,
    }
}

/// Vertex `v` is known to reach the entry time `t`.
pub open spec fn probe_lowered(p: Probe, v: int, t: usize) -> Probe {
    if t < p.low[v] {
        Probe { colors: p.colors, t_in: p.t_in, time: p.time, low: p.low.update(v, t), found: p.found }
    } else {
        p
    }
}

/// The search has left `v`, which it had entered through edge `via` (`-1`
/// for a root): that edge is a bridge if `v` reaches nothing earlier than
/// itself.
pub open spec fn probe_left(p: Probe, v: int, via: int) -> Probe {
    Probe {
        colors: p.colors.update(v, VisitColor::Black),
        t_in: p.t_in,
        time: p.time,
        low: p.low,
        found: if via >= 0 && p.low[v] == p.t_in[v] {
            p.found.push(via as usize)
        } else {
            p.found
        },
    }
}

/// The search from `v`, entered through edge `via`, `fuel` vertices deep.
pub open spec fn probe_walk(graph: &Graph, p: Probe, v: int, via: int, fuel: nat) -> Probe
    decreases fuel, 0nat, 0nat,
{
    if fuel == 0 {
        p
    } else {
        probe_left(probe_records(graph, probe_entered(p, v), v, via, 0, (fuel - 1) as nat), v, via)
    }
}

/// What record `k` of `v` adds: a search from its end if that is white,
/// and then what the end reaches; the entry time of its end if that is
/// gray and the record is not of the edge `via`; nothing otherwise.
pub open spec fn probe_step(graph: &Graph, p: Probe, v: int, via: int, k: int, fuel: nat) -> Probe
    decreases fuel, 1nat, 0nat,
{
    let record = graph.adj()[v][k];
    let to = record.to as int;
    if p.colors[to] == VisitColor::White {
        let below = probe_walk(graph, p, to, record.edge_index as int, fuel);
        probe_lowered(below, v, below.low[to])
    } else if p.colors[to] == VisitColor::Gray && record.edge_index != via {
        probe_lowered(p, v, p.t_in[to])
    } else {
        p
    }
}

/// What the records of `v` add, from record `k` on.
pub open spec fn probe_records(graph: &Graph, p: Probe, v: int, via: int, k: int, fuel: nat) -> Probe
    decreases fuel, 2nat, graph.adj()[v].len() - k,
{
    if k < 0 || k >= graph.adj()[v].len() {
        p
    } else {
        probe_records(graph, probe_step(graph, p, v, via, k, fuel), v, via, k + 1, fuel)
    }
}

/// The searches from the vertices `from`, `from + 1`, and so on, each from
/// a vertex that is still white.
pub open spec fn probe_sweep(graph: &Graph, p: Probe, from: int) -> Probe
    decreases graph.order() - from,
{
    if from < 0 || from >= graph.order() {
        p
    } else if p.colors[from] == VisitColor::White {
        probe_sweep(graph, probe_walk(graph, p, from, -1, p.colors.len()), from + 1)
    } else {
        probe_sweep(graph, p, from + 1)
    }
}

/// The whole search, from the traversal state `s`: every vertex is taken
/// to reach time zero until it is entered, and no bridge is found yet.
pub open spec fn whole_probe(graph: &Graph, s: &DFSSpace) -> Probe {
    probe_sweep(graph, probe_of(s, zeros(graph.order()), Seq::empty()), 0)
}

proof fn lemma_probe_step(graph: &Graph, start: Probe, p: Probe, next: Probe, v: int, via: int, k: int, floor: nat)
    requires
        0 <= k < graph.adj()[v].len(),
        forall|fuel: nat|
            fuel + 1 >= floor ==> #[trigger] probe_records(graph, start, v, via, 0, fuel) == probe_records(
                graph,
                p,
                v,
                via,
                k,
                fuel,
            ),
        forall|fuel: nat| fuel + 1 >= floor ==> #[trigger] probe_step(graph, p, v, via, k, fuel) == next,
    ensures
        forall|fuel: nat|
            fuel + 1 >= floor ==> #[trigger] probe_records(graph, start, v, via, 0, fuel) == probe_records(
                graph,
                next,
                v,
                via,
                k + 1,
                fuel,
            ),
{
    assert forall|fuel: nat| fuel + 1 >= floor implies #[trigger] probe_records(graph, start, v, via, 0, fuel)
        == probe_records(graph, next, v, via, k + 1, fuel) by {
        assert(probe_step(graph, p, v, via, k, fuel) == next);
    }
}

impl DFSSpace {
    fn bridge_dfs(
        &mut self,
        node: usize,
        graph: &Graph,
        bridges: &mut Vec<usize>,
        highest_reachable: &mut Vec<usize>,
        edge_to_parent: Option<Edge>,
        Ghost(up0): Ghost<Seq<(int, int)>>,
    ) -> (up: Ghost<Seq<(int, int)>>)
        requires
            graph.wf(),
            node < graph.order(),
            old(self).visit_colors@.len() == graph.order(),
            old(self).t_in@.len() == graph.order(),
            old(highest_reachable)@.len() == graph.order(),
            old(self).visit_colors@[node as int] == VisitColor::White,
            old(self).time + white_count(old(self).visit_colors@) <= usize::MAX,
            graph.is_undirected() ==> bridge_start(
                graph,
                bridge_state(old(self), old(bridges)@, up0),
                node as int,
                parent_vertex(edge_to_parent),
                parent_edge(edge_to_parent),
            ),
        ensures
            final(self).visit_colors@.len() == graph.order(),
            final(self).t_in@.len() == graph.order(),
            final(highest_reachable)@.len() == graph.order(),
            final(self).t_out == old(self).t_out,
            final(self).children == old(self).children,
            forall|x: int|
                0 <= x < graph.order() && final(self).visit_colors@[x] == VisitColor::White ==> old(
                    self,
                ).visit_colors@[x] == VisitColor::White,
            forall|x: int|
                0 <= x < graph.order() && final(self).visit_colors@[x] == VisitColor::Gray ==> old(
                    self,
                ).visit_colors@[x] == VisitColor::Gray,
            final(self).visit_colors@[node as int] != VisitColor::White,
            final(self).time + white_count(final(self).visit_colors@) == old(self).time + white_count(
                old(self).visit_colors@,
            ),
            graph.is_undirected() ==> bridge_result(
                graph,
                bridge_state(old(self), old(bridges)@, up0),
                bridge_state(final(self), final(bridges)@, up@),
                old(highest_reachable)@,
                final(highest_reachable)@,
                node as int,
                parent_vertex(edge_to_parent),
                parent_edge(edge_to_parent),
            ),
            forall|fuel: nat|
                fuel >= white_count(old(self).visit_colors@) ==> #[trigger] probe_walk(
                    graph,
                    probe_of(old(self), old(highest_reachable)@, old(bridges)@),
                    node as int,
                    parent_edge(edge_to_parent),
                    fuel,
                ) == probe_of(final(self), final(highest_reachable)@, final(bridges)@),
        decreases white_count(old(self).visit_colors@),
    {
        let ghost b0 = bridge_state(self, bridges@, up0);
        let ghost low0 = highest_reachable@;
        let ghost pv = parent_vertex(edge_to_parent);
        let ghost ev = parent_edge(edge_to_parent);
        let ghost colors0 = self.visit_colors@;
        let ghost p0 = probe_of(self, highest_reachable@, bridges@);
        proof {
            lemma_white_count_update(colors0, node as int, VisitColor::Gray);
        }
        self.visit_colors[node] = VisitColor::Gray;
        self.t_in[node] = self.time;
        highest_reachable[node] = self.time;
        self.time += 1;
        let ghost mut up = up0.update(node as int, (pv, ev));
        let ghost start = probe_entered(p0, node as int);
        proof {
            assert(probe_of(self, highest_reachable@, bridges@) =~= start);
            if graph.is_undirected() {
                lemma_bridge_enter(graph, b0, low0, node as int, pv, ev);
                assert(bridge_state(self, bridges@, up) == entered(b0, node as int, pv, ev));
            }
        }
        let degree: usize = graph.edges[node].len();
        let mut k: usize = 0;
        while k < degree
            invariant
                graph.wf(),
                k <= degree,
                degree == graph.adj()[node as int].len(),
                node < graph.order(),
                b0 == bridge_state(old(self), old(bridges)@, up0),
                low0 == old(highest_reachable)@,
                colors0 == old(self).visit_colors@,
                pv == parent_vertex(edge_to_parent),
                ev == parent_edge(edge_to_parent),
                colors0.len() == graph.order(),
                colors0[node as int] == VisitColor::White,
                self.visit_colors@.len() == graph.order(),
                self.t_in@.len() == graph.order(),
                highest_reachable@.len() == graph.order(),
                self.t_out == old(self).t_out,
                self.children == old(self).children,
                self.visit_colors@[node as int] != VisitColor::White,
                forall|x: int|
                    0 <= x < graph.order() && self.visit_colors@[x] == VisitColor::White ==> colors0[x]
                        == VisitColor::White,
                forall|x: int|
                    0 <= x < graph.order() && x != node && self.visit_colors@[x] == VisitColor::Gray
                        ==> colors0[x] == VisitColor::Gray,
                self.time + white_count(self.visit_colors@) == old(self).time + white_count(colors0),
                old(self).time + white_count(colors0) <= usize::MAX,
                p0 == probe_of(old(self), old(highest_reachable)@, old(bridges)@),
                start == probe_entered(p0, node as int),
                forall|fuel: nat|
                    fuel + 1 >= white_count(colors0) ==> #[trigger] probe_records(graph, start, node as int, ev, 0, fuel)
                        == probe_records(
                        graph,
                        probe_of(self, highest_reachable@, bridges@),
                        node as int,
                        ev,
                        k as int,
                        fuel,
                    ),
                graph.is_undirected() ==> bridge_level(
                    graph,
                    b0,
                    bridge_state(self, bridges@, up),
                    low0,
                    highest_reachable@,
                    node as int,
                    pv,
                    ev,
                    k as int,
                ),
            decreases degree - k,
        {
            let edge = graph.edges[node][k];
            let to: usize = edge.to;
            assert(edge == graph.adj()[node as int][k as int]);
            assert(to < graph.order());
            let ghost mid = bridge_state(self, bridges@, up);
            let ghost lowm = highest_reachable@;
            let ghost pm = probe_of(self, highest_reachable@, bridges@);
            if self.visit_colors[to] == VisitColor::White {
                proof {
                    lemma_white_count_lt(colors0, self.visit_colors@, node as int);
                    if graph.is_undirected() {
                        lemma_bridge_descend(graph, b0, mid, low0, lowm, node as int, pv, ev, k as int);
                    }
                }
                let via = Some(Edge::new(node, edge.edge_index));
                let below = self.bridge_dfs(to, graph, bridges, highest_reachable, via, Ghost(up));
                let ghost lowc = highest_reachable@;
                proof {
                    up = below@;
                    if graph.is_undirected() {
                        lemma_bridge_child(
                            graph,
                            b0,
                            mid,
                            bridge_state(self, bridges@, up),
                            low0,
                            lowm,
                            lowc,
                            node as int,
                            pv,
                            ev,
                            k as int,
                        );
                    }
                }
                let ghost pc = probe_of(self, highest_reachable@, bridges@);
                if highest_reachable[to] < highest_reachable[node] {
                    let value: usize = highest_reachable[to];
                    highest_reachable[node] = value;
                } else {
                    assert(lowc.update(node as int, lowc[node as int]) =~= lowc);
                }
                proof {
                    let next = probe_of(self, highest_reachable@, bridges@);
                    assert(next =~= probe_lowered(pc, node as int, pc.low[to as int]));
                    assert forall|fuel: nat| fuel + 1 >= white_count(colors0) implies #[trigger] probe_step(
                        graph,
                        pm,
                        node as int,
                        ev,
                        k as int,
                        fuel,
                    ) == next by {
                        assert(parent_edge(via) == edge.edge_index as int);
                        assert(probe_walk(graph, pm, to as int, edge.edge_index as int, fuel) == pc);
                    }
                    lemma_probe_step(graph, start, pm, next, node as int, ev, k as int, white_count(colors0));
                }
            } else if self.visit_colors[to] == VisitColor::Gray {
                let is_parent_edge = match edge_to_parent {
                    Some(parent_edge) => parent_edge.edge_index == edge.edge_index,
                    None => false,
                };
                if !is_parent_edge {
                    proof {
                        if graph.is_undirected() {
                            lemma_bridge_gray_target(graph, b0, mid, low0, lowm, node as int, pv, ev, k as int);
                        }
                    }
                    if self.t_in[to] < highest_reachable[node] {
                        highest_reachable[node] = self.t_in[to];
                    } else {
                        assert(lowm.update(node as int, lowm[node as int]) =~= lowm);
                    }
                    proof {
                        let next = probe_of(self, highest_reachable@, bridges@);
                        assert(next =~= probe_lowered(pm, node as int, pm.t_in[to as int]));
                        assert forall|fuel: nat| fuel + 1 >= white_count(colors0) implies #[trigger] probe_step(
                            graph,
                            pm,
                            node as int,
                            ev,
                            k as int,
                            fuel,
                        ) == next by {}
                        lemma_probe_step(graph, start, pm, next, node as int, ev, k as int, white_count(colors0));
                    }
                } else {
                    proof {
                        if graph.is_undirected() {
                            lemma_bridge_parent_target(graph, b0, mid, low0, lowm, node as int, pv, ev, k as int);
                        }
                        assert forall|fuel: nat| fuel + 1 >= white_count(colors0) implies #[trigger] probe_step(
                            graph,
                            pm,
                            node as int,
                            ev,
                            k as int,
                            fuel,
                        ) == pm by {}
                        lemma_probe_step(graph, start, pm, pm, node as int, ev, k as int, white_count(colors0));
                    }
                }
            } else {
                proof {
                    if graph.is_undirected() {
                        lemma_bridge_black_target(graph, b0, mid, low0, lowm, node as int, pv, ev, k as int);
                    }
                    assert forall|fuel: nat| fuel + 1 >= white_count(colors0) implies #[trigger] probe_step(
                        graph,
                        pm,
                        node as int,
                        ev,
                        k as int,
                        fuel,
                    ) == pm by {}
                    lemma_probe_step(graph, start, pm, pm, node as int, ev, k as int, white_count(colors0));
                }
            }
            k += 1;
        }
        let ghost last = bridge_state(self, bridges@, up);
        let ghost pl = probe_of(self, highest_reachable@, bridges@);
        proof {
            if graph.is_undirected() {
                lemma_bridge_exit(graph, b0, last, low0, highest_reachable@, node as int, pv, ev);
            }
            lemma_white_count_update(self.visit_colors@, node as int, VisitColor::Black);
        }
        match edge_to_parent {
            Some(parent_edge) => {
                if highest_reachable[node] == self.t_in[node] {
                    bridges.push(parent_edge.edge_index);
                }
            },
            None => {},
        }
        self.visit_colors[node] = VisitColor::Black;
        proof {
            if graph.is_undirected() {
                assert(bridge_state(self, bridges@, up) == left(last, highest_reachable@, node as int, pv, ev));
            }
            assert(probe_of(self, highest_reachable@, bridges@) =~= probe_left(pl, node as int, ev));
            assert forall|fuel: nat| fuel >= white_count(colors0) implies #[trigger] probe_walk(
                graph,
                p0,
                node as int,
                ev,
                fuel,
            ) == probe_of(self, highest_reachable@, bridges@) by {
                let g = (fuel - 1) as nat;
                assert(probe_records(graph, start, node as int, ev, 0, g) == probe_records(
                    graph,
                    pl,
                    node as int,
                    ev,
                    degree as int,
                    g,
                ));
            }
        }
        Ghost(up)
    }

    /// Finds the bridges of an undirected multigraph: the edges without
    /// which their end points are no longer connected. Parallel edges are
    /// told apart by their identity, so that none of them is a bridge.
    pub fn find_bridges(&mut self, graph: &Graph) -> (bridges: Vec<usize>)
        requires
            graph.wf(),
            old(self).fits(graph),
            old(self).all_white(),
            old(self).time + graph.order() <= usize::MAX,
        ensures
            bridges@ == whole_probe(graph, old(self)).found,
            final(self).t_in@ == whole_probe(graph, old(self)).t_in,
            graph.is_undirected() ==> bridges@.no_duplicates(),
            graph.is_undirected() ==> forall|e: usize| bridges@.contains(e) <==> graph.is_bridge(e as int),
            final(self).fits(graph),
            final(self).time == old(self).time + graph.order(),
            final(self).t_out == old(self).t_out,
            final(self).children == old(self).children,
            forall|x: int|
                0 <= x < graph.order() ==> final(self).visit_colors@[x] == VisitColor::Black,
    {
        let n: usize = graph.vertexes();
        let mut bridges: Vec<usize> = Vec::new();
        let mut highest_reachable = filled(0usize, n);
        let ghost mut up: Seq<(int, int)> = Seq::new(n as nat, |x: int| (-1int, -1int));
        let ghost t0 = self.time as int;
        proof {
            lemma_white_count_all(self.visit_colors@);
            assert(highest_reachable@ =~= zeros(graph.order()));
            assert(bridges@ =~= Seq::<usize>::empty());
        }
        let mut v: usize = 0;
        while v < n
            invariant
                v <= n,
                n == graph.order(),
                graph.wf(),
                self.fits(graph),
                highest_reachable@.len() == n,
                self.t_out == old(self).t_out,
                self.children == old(self).children,
                self.time + white_count(self.visit_colors@) == t0 + n,
                t0 + n <= usize::MAX,
                forall|x: int| 0 <= x < v ==> self.visit_colors@[x] != VisitColor::White,
                forall|x: int| 0 <= x < n ==> #[trigger] self.visit_colors@[x] != VisitColor::Gray,
                graph.is_undirected() ==> bridge_inv(graph, bridge_state(self, bridges@, up)),
                whole_probe(graph, old(self)) == probe_sweep(
                    graph,
                    probe_of(self, highest_reachable@, bridges@),
                    v as int,
                ),
            decreases n - v,
        {
            if self.visit_colors[v] == VisitColor::White {
                let ghost before = self.visit_colors@;
                let ghost pm = probe_of(self, highest_reachable@, bridges@);
                proof {
                    lemma_white_count_bound(before);
                }
                let below = self.bridge_dfs(v, graph, &mut bridges, &mut highest_reachable, None, Ghost(up));
                proof {
                    up = below@;
                    assert(parent_edge(None::<Edge>) == -1);
                    assert(probe_walk(graph, pm, v as int, -1, before.len()) == probe_of(
                        self,
                        highest_reachable@,
                        bridges@,
                    ));
                    assert forall|x: int| 0 <= x < n implies #[trigger] self.visit_colors@[x]
                        != VisitColor::Gray by {
                        if self.visit_colors@[x] == VisitColor::Gray {
                            assert(before[x] != VisitColor::Gray);
                        }
                    }
                }
            }
            v += 1;
        }
        proof {
            lemma_white_count_all(self.visit_colors@);
            if graph.is_undirected() {
                let b = bridge_state(self, bridges@, up);
                assert forall|e: usize| bridges@.contains(e) <==> graph.is_bridge(e as int) by {
                    if bridges@.contains(e) {
                        let i = bridges@.index_of(e);
                        assert(graph.is_bridge(b.found[i] as int));
                    }
                    if graph.is_bridge(e as int) {
                        let (u, k) = choose|u: int, k: int|
                            0 <= u < graph.order() && 0 <= k < graph.adj()[u].len() && (#[trigger] graph.adj()[u][k]).edge_index
                                == e as int;
                        assert(black_record_ok(graph, b, u, k));
                    }
                }
            }
        }
        bridges
    }
}

} // verus!
