//! Cut vertices and the split of the edges into biconnected components.

use crate::counting::lemma_distinct_cover_len;
use crate::decomposition::rows;
use crate::decomposition::Decomposition;
use crate::dfs::lemma_white_count_bound;
use crate::dfs::lemma_white_count_lt;
use crate::dfs::white_count;
use crate::dfs::DFSSpace;
use crate::graph::Edge;
use crate::graph::Graph;
use crate::graph::VisitColor;
use crate::bridges::parent_edge;
use crate::bridges::parent_vertex;
use crate::cutglue::backed;
use crate::cutglue::cs;
use crate::cutglue::ts;
use crate::cutglue::entered;
use crate::cutglue::frame;
use crate::cutglue::left;
use crate::cutglue::lemma_frame_black;
use crate::cutglue::lemma_frame_child;
use crate::cutglue::lemma_frame_enter;
use crate::cutglue::lemma_frame_exit;
use crate::cutglue::lemma_frame_gray;
use crate::cutglue::lemma_frame_parent;
use crate::cutglue::lemma_frame_returned;
use crate::cutglue::lemma_frame_white;
use crate::cutglue::lemma_result_any_first;
use crate::cutglue::lemma_start_any_first;
use crate::cutglue::level_ok;
use crate::cutglue::noted;
use crate::cutglue::pushed;
use crate::cutglue::result_ok;
use crate::cutglue::start_ok;
use crate::cutglue::Frame;
use crate::blocks::block_inv;
use crate::blocks::joined_without;
use crate::blocks::lemma_block_joined;
use crate::blocks::lemma_blocks_apart;
use crate::blocks::lemma_blocks_meet;
use crate::blocks::separates;
use crate::blocks::touches;
use crate::cuttree::cut_tree;
use crate::cuttree::settled_vertex;
use crate::cuttree::tree_inv;
use crate::dfs::lemma_white_count_all;
use crate::dfs::lemma_white_count_update;
use crate::vectors::filled;
use vstd::prelude::*;
use vstd::seq_lib::lemma_no_dup_in_concat;

verus! {

/// The edge identities of the records on the stack, bottom first.
pub open spec fn stack_ids(stack: Seq<Edge>) -> Seq<usize> {
    Seq::new(stack.len(), |i: int| stack[i].edge_index)
}

/// A moment of the search for biconnected components: the colours, which
/// edges were met, the edges that wait on the stack, and the components
/// that are complete.
pub struct CutState {
    pub colors: Seq<VisitColor>,
    pub visited: Seq<bool>,
    pub stack: Seq<usize>,
    pub comps: Seq<Seq<usize>>,
}

/// The moment of the search that the traversal state and the lists make
/// up.
pub open spec fn cut_state(
    s: &DFSSpace,
    visited: Seq<bool>,
    stack: Seq<Edge>,
    comps: Seq<Vec<usize>>,
) -> CutState {
    CutState { colors: s.visit_colors@, visited, stack: stack_ids(stack), comps: rows(comps) }
}

/// What is known of record `k` of vertex `u`: a black vertex has met all
/// its edges, and an edge that was met, other than `pending`, has both end
/// points entered.
pub open spec fn cut_record_ok(graph: &Graph, c: CutState, pending: int, u: int, k: int) -> bool {
    let r = graph.adj()[u][k];
    &&& c.colors[u] == VisitColor::Black ==> c.visited[r.edge_index as int]
    &&& c.visited[r.edge_index as int] && r.edge_index != pending ==> c.colors[u] != VisitColor::White
        && c.colors[r.to as int] != VisitColor::White
}

/// What holds between any two steps of the search: every edge that was met
/// waits on the stack or lies in a complete component, and no edge does so
/// twice.
pub open spec fn cut_inv(graph: &Graph, c: CutState, pending: int) -> bool {
    let n = graph.order();
    let flat = c.comps.flatten();
    &&& c.colors.len() == n
    &&& c.visited.len() == graph.total_edges
    &&& c.stack.no_duplicates()
    &&& flat.no_duplicates()
    &&& forall|i: int, j: int| 0 <= i < c.stack.len() && 0 <= j < flat.len() ==> c.stack[i] != flat[j]
    &&& forall|i: int|
        0 <= i < c.stack.len() ==> (#[trigger] c.stack[i]) < graph.total_edges && c.visited[c.stack[i] as int]
    &&& forall|j: int|
        0 <= j < flat.len() ==> (#[trigger] flat[j]) < graph.total_edges && c.visited[flat[j] as int]
    &&& forall|e: int|
        0 <= e < graph.total_edges && #[trigger] c.visited[e] ==> c.stack.contains(e as usize)
            || flat.contains(e as usize)
    &&& forall|u: int, k: int|
        0 <= u < n && 0 <= k < graph.adj()[u].len() ==> #[trigger] cut_record_ok(graph, c, pending, u, k)
}

/// The graph on which the search works: an undirected multigraph without
/// loops whose edges are numbered without gaps.
pub open spec fn cut_graph(graph: &Graph) -> bool {
    &&& graph.is_undirected()
    &&& graph.is_compact()
    &&& graph.is_loopless()
}

/// What the walk from `v` needs at its start.
pub open spec fn cut_start(graph: &Graph, c0: CutState, v: int, pv: int, ev: int) -> bool {
    let n = graph.order();
    &&& cut_graph(graph)
    &&& 0 <= v < n
    &&& cut_inv(graph, c0, ev)
    &&& c0.colors[v] == VisitColor::White
    &&& if pv >= 0 {
        &&& pv < n
        &&& ev >= 0
        &&& c0.colors[pv] == VisitColor::Gray
        &&& graph.has_arc(pv, v, ev)
        &&& c0.stack.len() > 0
        &&& c0.stack.last() == ev
    } else {
        &&& pv == -1
        &&& ev == -1
        &&& forall|g: int| 0 <= g < n ==> #[trigger] c0.colors[g] != VisitColor::Gray
    }
}

/// Nothing that was entered before has changed colour, what was entered
/// since is black, no edge was forgotten, and the stack and the list of
/// components have only grown at their ends.
pub open spec fn cut_kept(graph: &Graph, c0: CutState, c: CutState, skip: int) -> bool {
    &&& forall|x: int|
        0 <= x < graph.order() && x != skip ==> (#[trigger] c0.colors[x] != VisitColor::White ==> c.colors[x]
            == c0.colors[x]) && (c0.colors[x] == VisitColor::White ==> c.colors[x] == VisitColor::White
            || c.colors[x] == VisitColor::Black)
    &&& forall|e: int| 0 <= e < graph.total_edges && c0.visited[e] ==> #[trigger] c.visited[e]
    &&& c0.comps.len() <= c.comps.len()
    &&& c.comps.take(c0.comps.len() as int) == c0.comps
}

/// What holds while the records of the gray vertex `v` are handled, after
/// the first `k` of them.
pub open spec fn cut_level(
    graph: &Graph,
    c0: CutState,
    c: CutState,
    v: int,
    pv: int,
    ev: int,
    k: int,
) -> bool {
    &&& cut_start(graph, c0, v, pv, ev)
    &&& cut_inv(graph, c, -1)
    &&& c.colors[v] == VisitColor::Gray
    &&& cut_kept(graph, c0, c, v)
    &&& c0.stack.len() <= c.stack.len()
    &&& c.stack.take(c0.stack.len() as int) == c0.stack
    &&& pv < 0 ==> c.stack == c0.stack
    &&& forall|k1: int| 0 <= k1 < k ==> c.visited[(#[trigger] graph.adj()[v][k1]).edge_index as int]
}

/// What the walk from `v` has achieved when it returns.
pub open spec fn cut_result(graph: &Graph, c0: CutState, c: CutState, v: int, pv: int) -> bool {
    &&& cut_inv(graph, c, -1)
    &&& c.colors[v] == VisitColor::Black
    &&& cut_kept(graph, c0, c, -1)
    &&& c0.stack.len() <= c.stack.len()
    &&& c.stack.take(c0.stack.len() as int) == c0.stack
    &&& pv < 0 ==> c.stack == c0.stack
}

/// Colouring a vertex gray leads from the start of its walk to the state
/// before its first record.
pub proof fn lemma_cut_enter(graph: &Graph, c0: CutState, v: int, pv: int, ev: int)
    requires
        cut_start(graph, c0, v, pv, ev),
    ensures
        cut_level(
            graph,
            c0,
            CutState { colors: c0.colors.update(v, VisitColor::Gray), ..c0 },
            v,
            pv,
            ev,
            0,
        ),
{
    let n = graph.order();
    let c = CutState { colors: c0.colors.update(v, VisitColor::Gray), ..c0 };
    assert forall|u: int, k: int| 0 <= u < n && 0 <= k < graph.adj()[u].len() implies #[trigger] cut_record_ok(
        graph,
        c,
        -1,
        u,
        k,
    ) by {
        assert(cut_record_ok(graph, c0, ev, u, k));
        if graph.adj()[u][k].edge_index == ev && ev >= 0 {
            let kp = choose|kp: int|
                0 <= kp < graph.adj()[pv].len() && (#[trigger] graph.adj()[pv][kp]).to == v
                    && graph.adj()[pv][kp].edge_index == ev;
            graph.lemma_same_edge(u, k, pv, kp);
        }
    }
    assert(c.stack.take(c0.stack.len() as int) =~= c0.stack);
    assert(c.comps.take(c0.comps.len() as int) =~= c0.comps);
}

/// Meeting record `k` of the gray vertex `v` for the first time puts its
/// edge on the stack.
pub proof fn lemma_cut_push(graph: &Graph, c0: CutState, c: CutState, v: int, pv: int, ev: int, k: int)
    requires
        cut_level(graph, c0, c, v, pv, ev, k),
        0 <= k < graph.adj()[v].len(),
        graph.indices_in_range(),
        graph.adj()[v][k].edge_index != ev,
        !c.visited[graph.adj()[v][k].edge_index as int],
    ensures
        c.colors[graph.adj()[v][k].to as int] != VisitColor::Black,
        pv < 0 ==> c.colors[graph.adj()[v][k].to as int] == VisitColor::White,
        cut_inv(
            graph,
            CutState {
                visited: c.visited.update(graph.adj()[v][k].edge_index as int, true),
                stack: c.stack.push(graph.adj()[v][k].edge_index),
                ..c
            },
            graph.adj()[v][k].edge_index as int,
        ),
        c.colors[graph.adj()[v][k].to as int] != VisitColor::White ==> cut_inv(
            graph,
            CutState {
                visited: c.visited.update(graph.adj()[v][k].edge_index as int, true),
                stack: c.stack.push(graph.adj()[v][k].edge_index),
                ..c
            },
            -1,
        ),
{
    let n = graph.order();
    let to = graph.adj()[v][k].to as int;
    let e = graph.adj()[v][k].edge_index;
    let c2 = CutState { visited: c.visited.update(e as int, true), stack: c.stack.push(e), ..c };
    let flat = c.comps.flatten();
    assert(to < n);
    // the other end is white
    assert(graph.has_arc(to, v, e as int));
    let k2 = choose|k2: int|
        0 <= k2 < graph.adj()[to].len() && (#[trigger] graph.adj()[to][k2]).to == v && graph.adj()[to][k2].edge_index
            == e;
    assert(cut_record_ok(graph, c, -1, to, k2));
    if c.colors[to] == VisitColor::Gray && pv < 0 {
        assert(to != v);
        assert(c0.colors[to] != VisitColor::Gray);
    }
    assert(!c.stack.contains(e)) by {
        if c.stack.contains(e) {
            let i = c.stack.index_of(e);
            assert(c.visited[c.stack[i] as int]);
        }
    }
    assert(c2.stack.no_duplicates());
    assert forall|i: int, j: int| 0 <= i < c2.stack.len() && 0 <= j < flat.len() implies c2.stack[i]
        != flat[j] by {
        if i < c.stack.len() {
            assert(c2.stack[i] == c.stack[i]);
        } else {
            assert(c.visited[flat[j] as int]);
        }
    }
    assert forall|i: int| 0 <= i < c2.stack.len() implies (#[trigger] c2.stack[i]) < graph.total_edges
        && c2.visited[c2.stack[i] as int] by {
        if i < c.stack.len() {
            assert(c2.stack[i] == c.stack[i]);
        }
    }
    assert forall|e1: int|
        0 <= e1 < graph.total_edges && #[trigger] c2.visited[e1] implies c2.stack.contains(e1 as usize)
        || flat.contains(e1 as usize) by {
        if e1 == e {
            assert(c2.stack[c.stack.len() as int] == e);
        } else {
            assert(c.visited[e1]);
            if c.stack.contains(e1 as usize) {
                let i = c.stack.index_of(e1 as usize);
                assert(c2.stack[i] == e1 as usize);
            }
        }
    }
    assert forall|u: int, k1: int| 0 <= u < n && 0 <= k1 < graph.adj()[u].len() implies #[trigger] cut_record_ok(
        graph,
        c2,
        e as int,
        u,
        k1,
    ) by {
        assert(cut_record_ok(graph, c, -1, u, k1));
    }
    if c.colors[to] != VisitColor::White {
        assert forall|u: int, k1: int| 0 <= u < n && 0 <= k1 < graph.adj()[u].len() implies #[trigger] cut_record_ok(
            graph,
            c2,
            -1,
            u,
            k1,
        ) by {
            assert(cut_record_ok(graph, c, -1, u, k1));
            if graph.adj()[u][k1].edge_index == e {
                graph.lemma_same_edge(u, k1, v, k);
            }
        }
    }
}

/// Moving the top of the stack, from place `at` on, into a new component.
pub proof fn lemma_cut_pop(graph: &Graph, c: CutState, at: int, comp: Seq<usize>)
    requires
        cut_inv(graph, c, -1),
        0 <= at < c.stack.len(),
        comp == c.stack.skip(at).reverse(),
    ensures
        cut_inv(graph, CutState { stack: c.stack.take(at), comps: c.comps.push(comp), ..c }, -1),
{
    let n = graph.order();
    let c2 = CutState { stack: c.stack.take(at), comps: c.comps.push(comp), ..c };
    let flat = c.comps.flatten();
    let flat2 = c2.comps.flatten();
    let top = c.stack.skip(at);
    c.comps.lemma_flatten_push(comp);
    assert(flat2 == flat + comp);
    assert forall|i: int| 0 <= i < comp.len() implies #[trigger] comp[i] == c.stack[c.stack.len() - 1 - i] by {
        assert(comp[i] == top[top.len() - 1 - i]);
    }
    assert(comp.no_duplicates());
    assert forall|i: int, j: int| 0 <= i < flat.len() && 0 <= j < comp.len() implies flat[i] != comp[j] by {
        assert(c.stack[c.stack.len() - 1 - j] != flat[i]);
    }
    lemma_no_dup_in_concat(flat, comp);
    assert forall|i: int, j: int| 0 <= i < c2.stack.len() && 0 <= j < flat2.len() implies c2.stack[i]
        != flat2[j] by {
        assert(c2.stack[i] == c.stack[i]);
        if j < flat.len() {
            assert(flat2[j] == flat[j]);
        } else {
            assert(flat2[j] == comp[j - flat.len()]);
        }
    }
    assert forall|j: int| 0 <= j < flat2.len() implies (#[trigger] flat2[j]) < graph.total_edges
        && c2.visited[flat2[j] as int] by {
        if j < flat.len() {
            assert(flat2[j] == flat[j]);
        } else {
            assert(flat2[j] == comp[j - flat.len()]);
            assert(comp[j - flat.len()] == c.stack[c.stack.len() - 1 - (j - flat.len())]);
        }
    }
    assert forall|e: int|
        0 <= e < graph.total_edges && #[trigger] c2.visited[e] implies c2.stack.contains(e as usize)
        || flat2.contains(e as usize) by {
        if c.stack.contains(e as usize) {
            let i = c.stack.index_of(e as usize);
            if i < at {
                assert(c2.stack[i] == e as usize);
            } else {
                let j = c.stack.len() - 1 - i;
                assert(comp[j] == e as usize);
                assert(flat2[flat.len() + j] == e as usize);
            }
        } else {
            let j = flat.index_of(e as usize);
            assert(flat.contains(e as usize));
            assert(flat2[j] == e as usize);
        }
    }
    assert forall|u: int, k: int| 0 <= u < n && 0 <= k < graph.adj()[u].len() implies #[trigger] cut_record_ok(
        graph,
        c2,
        -1,
        u,
        k,
    ) by {
        assert(cut_record_ok(graph, c, -1, u, k));
    }
    assert forall|i: int| 0 <= i < c2.stack.len() implies (#[trigger] c2.stack[i]) < graph.total_edges
        && c2.visited[c2.stack[i] as int] by {
        assert(c2.stack[i] == c.stack[i]);
    }
}

/// Pops the records of the stack down to and including the one of edge
/// `edge_index`, and returns their edge identities in the order popped.
pub fn pop_component(edge_stack: &mut Vec<Edge>, edge_index: usize) -> (component: Vec<usize>)
    requires
        stack_ids(old(edge_stack)@).no_duplicates(),
        stack_ids(old(edge_stack)@).contains(edge_index),
    ensures
        final(edge_stack)@ == old(edge_stack)@.take(stack_ids(old(edge_stack)@).index_of(edge_index)),
        component@ == stack_ids(old(edge_stack)@).skip(
            stack_ids(old(edge_stack)@).index_of(edge_index),
        ).reverse(),
        component@.len() > 0,
{
    let ghost ids = stack_ids(edge_stack@);
    let ghost at = ids.index_of(edge_index);
    let mut component: Vec<usize> = Vec::new();
    let mut found = false;
    while !found
        invariant
            ids == stack_ids(old(edge_stack)@),
            ids.no_duplicates(),
            0 <= at < ids.len(),
            ids[at] == edge_index,
            !found ==> edge_stack@.len() > at,
            found ==> edge_stack@.len() == at,
            edge_stack@ == old(edge_stack)@.take(edge_stack@.len() as int),
            component@.len() == ids.len() - edge_stack@.len(),
            forall|i: int| 0 <= i < component@.len() ==> component@[i] == ids[ids.len() - 1 - i],
        decreases edge_stack@.len() + (if found { 0int } else { 1int }),
    {
        let ghost before = edge_stack@;
        let popped = edge_stack.pop();
        match popped {
            Some(stack_edge) => {
                assert(stack_edge == old(edge_stack)@[before.len() - 1]);
                assert(stack_edge.edge_index == ids[before.len() - 1]);
                component.push(stack_edge.edge_index);
                if stack_edge.edge_index == edge_index {
                    found = true;
                }
                assert(edge_stack@ =~= old(edge_stack)@.take(edge_stack@.len() as int));
            },
            None => {},
        }
    }
    assert(component@ =~= ids.skip(at).reverse());
    component
}

/// After the walk from a child has returned, and its component was popped
/// where one was complete, the state is that before the next record.
pub proof fn lemma_cut_child(
    graph: &Graph,
    c0: CutState,
    c: CutState,
    mid: CutState,
    c2: CutState,
    v: int,
    pv: int,
    ev: int,
    k: int,
)
    requires
        cut_level(graph, c0, c, v, pv, ev, k),
        0 <= k < graph.adj()[v].len(),
        mid == (CutState {
            visited: c.visited.update(graph.adj()[v][k].edge_index as int, true),
            stack: c.stack.push(graph.adj()[v][k].edge_index),
            ..c
        }),
        cut_result(graph, mid, c2, graph.adj()[v][k].to as int, v),
    ensures
        cut_level(graph, c0, c2, v, pv, ev, k + 1) || pv < 0,
        c2.stack.len() > c.stack.len(),
        c2.stack[c.stack.len() as int] == graph.adj()[v][k].edge_index,
        c2.stack.take(c.stack.len() as int) == c.stack,
        c2.stack.index_of(graph.adj()[v][k].edge_index) == c.stack.len(),
        c2.stack.contains(graph.adj()[v][k].edge_index),
        forall|comp: Seq<usize>|
            comp == c2.stack.skip(c.stack.len() as int).reverse() ==> #[trigger] cut_level(
                graph,
                c0,
                CutState { stack: c.stack, comps: c2.comps.push(comp), ..c2 },
                v,
                pv,
                ev,
                k + 1,
            ),
{
    let n = graph.order();
    let e = graph.adj()[v][k].edge_index;
    let at = c.stack.len() as int;
    assert(c2.stack.take(mid.stack.len() as int) == mid.stack);
    assert(c2.stack[at] == c2.stack.take(mid.stack.len() as int)[at]);
    assert(c2.stack.take(at) =~= mid.stack.take(at));
    assert(mid.stack.take(at) =~= c.stack);
    assert(c2.stack.contains(e));
    assert(c2.stack.take(c0.stack.len() as int) =~= c.stack.take(c0.stack.len() as int));
    assert(c2.comps.take(c0.comps.len() as int) =~= c.comps.take(c0.comps.len() as int)) by {
        assert(c2.comps.take(mid.comps.len() as int).take(c0.comps.len() as int) =~= c2.comps.take(
            c0.comps.len() as int,
        ));
    }
    assert forall|x: int| 0 <= x < n && x != v implies (#[trigger] c0.colors[x] != VisitColor::White ==> c2.colors[x]
        == c0.colors[x]) && (c0.colors[x] == VisitColor::White ==> c2.colors[x] == VisitColor::White
        || c2.colors[x] == VisitColor::Black) by {
        if c0.colors[x] != VisitColor::White {
            assert(mid.colors[x] != VisitColor::White);
        }
    }
    assert forall|e1: int| 0 <= e1 < graph.total_edges && c0.visited[e1] implies #[trigger] c2.visited[e1] by {
        assert(c.visited[e1]);
        assert(mid.visited[e1]);
    }
    assert forall|k1: int| 0 <= k1 < k + 1 implies c2.visited[(#[trigger] graph.adj()[v][k1]).edge_index as int] by {
        if k1 < k {
            assert(c.visited[graph.adj()[v][k1].edge_index as int]);
            assert(mid.visited[graph.adj()[v][k1].edge_index as int]);
        } else {
            assert(mid.visited[e as int]);
        }
    }
    assert(mid.colors[v] != VisitColor::White);
    assert forall|comp: Seq<usize>| comp == c2.stack.skip(at).reverse() implies #[trigger] cut_level(
        graph,
        c0,
        CutState { stack: c.stack, comps: c2.comps.push(comp), ..c2 },
        v,
        pv,
        ev,
        k + 1,
    ) by {
        let c3 = CutState { stack: c.stack, comps: c2.comps.push(comp), ..c2 };
        lemma_cut_pop(graph, c2, at, comp);
        assert(c3.comps.take(c0.comps.len() as int) =~= c2.comps.take(c0.comps.len() as int));
    }
}

/// A record met for the first time that leads to an entered vertex leaves its
/// edge on the stack.
pub proof fn lemma_cut_back(graph: &Graph, c0: CutState, c: CutState, v: int, pv: int, ev: int, k: int)
    requires
        cut_level(graph, c0, c, v, pv, ev, k),
        0 <= k < graph.adj()[v].len(),
        graph.indices_in_range(),
        graph.adj()[v][k].edge_index != ev,
        !c.visited[graph.adj()[v][k].edge_index as int],
        c.colors[graph.adj()[v][k].to as int] != VisitColor::White,
    ensures
        cut_level(
            graph,
            c0,
            CutState {
                visited: c.visited.update(graph.adj()[v][k].edge_index as int, true),
                stack: c.stack.push(graph.adj()[v][k].edge_index),
                ..c
            },
            v,
            pv,
            ev,
            k + 1,
        ),
{
    let e = graph.adj()[v][k].edge_index;
    let c2 = CutState { visited: c.visited.update(e as int, true), stack: c.stack.push(e), ..c };
    lemma_cut_push(graph, c0, c, v, pv, ev, k);
    assert(c2.stack.take(c0.stack.len() as int) =~= c.stack.take(c0.stack.len() as int));
    assert forall|k1: int| 0 <= k1 < k + 1 implies c2.visited[(#[trigger] graph.adj()[v][k1]).edge_index as int] by {
        if k1 < k {
            assert(c.visited[graph.adj()[v][k1].edge_index as int]);
        }
    }
}

/// Colouring a vertex black after its last record ends its walk.
pub proof fn lemma_cut_exit(graph: &Graph, c0: CutState, c: CutState, v: int, pv: int, ev: int)
    requires
        cut_level(graph, c0, c, v, pv, ev, graph.adj()[v].len() as int),
    ensures
        cut_result(graph, c0, CutState { colors: c.colors.update(v, VisitColor::Black), ..c }, v, pv),
{
    let n = graph.order();
    let c2 = CutState { colors: c.colors.update(v, VisitColor::Black), ..c };
    assert forall|u: int, k: int| 0 <= u < n && 0 <= k < graph.adj()[u].len() implies #[trigger] cut_record_ok(
        graph,
        c2,
        -1,
        u,
        k,
    ) by {
        assert(cut_record_ok(graph, c, -1, u, k));
    }
}

/// The entries of `list`, each once, in ascending order.
pub fn sorted_unique(list: &Vec<usize>, bound: usize) -> (r: Vec<usize>)
    requires
        forall|i: int| 0 <= i < list@.len() ==> list@[i] < bound,
    ensures
        forall|a: int, b: int| 0 <= a < b < r@.len() ==> r@[a] < r@[b],
        forall|x: usize| r@.contains(x) <==> list@.contains(x),
{
    let mut marks = filled(false, bound);
    let count: usize = list.len();
    let mut i: usize = 0;
    while i < count
        invariant
            i <= count,
            count == list@.len(),
            marks@.len() == bound,
            forall|j: int| 0 <= j < list@.len() ==> list@[j] < bound,
            forall|x: int| 0 <= x < bound ==> (#[trigger] marks@[x] <==> list@.take(i as int).contains(x as usize)),
        decreases count - i,
    {
        let x: usize = list[i];
        marks[x] = true;
        proof {
            let short = list@.take(i as int);
            let long = list@.take(i + 1);
            assert(long =~= short.push(x));
            assert forall|y: usize| long.contains(y) <==> short.contains(y) || y == x by {
                if short.contains(y) {
                    let j = short.index_of(y);
                    assert(long[j] == y);
                }
                if y == x {
                    assert(long[i as int] == y);
                }
                if long.contains(y) {
                    let j = long.index_of(y);
                    if j < i {
                        assert(short[j] == y);
                    }
                }
            }
        }
        i += 1;
    }
    proof {
        assert(list@.take(count as int) =~= list@);
    }
    let mut r: Vec<usize> = Vec::new();
    let mut x: usize = 0;
    while x < bound
        invariant
            x <= bound,
            marks@.len() == bound,
            forall|y: int| 0 <= y < bound ==> (#[trigger] marks@[y] <==> list@.contains(y as usize)),
            forall|j: int| 0 <= j < list@.len() ==> list@[j] < bound,
            forall|a: int, b: int| 0 <= a < b < r@.len() ==> r@[a] < r@[b],
            forall|a: int| 0 <= a < r@.len() ==> r@[a] < x && marks@[r@[a] as int],
            forall|y: int| 0 <= y < x && marks@[y] ==> r@.contains(y as usize),
        decreases bound - x,
    {
        if marks[x] {
            let ghost before = r@;
            r.push(x);
            proof {
                assert forall|y: int| 0 <= y < x + 1 && marks@[y] implies r@.contains(y as usize) by {
                    if y < x {
                        let j = before.index_of(y as usize);
                        assert(before.contains(y as usize));
                        assert(r@[j] == y as usize);
                    } else {
                        assert(r@[before.len() as int] == x);
                    }
                }
            }
        }
        x += 1;
    }
    proof {
        assert forall|y: usize| r@.contains(y) <==> list@.contains(y) by {
            if r@.contains(y) {
                let a = r@.index_of(y);
                assert(marks@[r@[a] as int]);
            }
            if list@.contains(y) {
                let j = list@.index_of(y);
                assert(list@[j] < bound);
                assert(marks@[y as int]);
            }
        }
    }
    r
}

/// A moment of the search together with the lists of children.
pub struct Search {
    pub frame: Frame,
    pub children: Seq<Seq<usize>>,
}

/// The search from `v`, which it enters from `pv` through edge `ev` (both
/// `-1` for a root), `fuel` vertices deep: it enters `v`, takes the
/// records of `v` in order and leaves `v`.
pub open spec fn search_walk(graph: &Graph, s: Search, v: int, pv: int, ev: int, fuel: nat) -> Search
    decreases fuel, 0nat, 0nat,
{
    if fuel == 0 {
        s
    } else {
        let start = Search { frame: entered(s.frame, v, pv, ev), children: s.children };
        let last = search_records(graph, start, v, pv, ev, 0, (fuel - 1) as nat);
        Search { frame: left(last.frame, v, pv), children: last.children }
    }
}

/// What record `k` of `v` adds. A record of the edge `ev` adds nothing.
/// To a white end the search puts the edge on the stack, searches from
/// that end, notes what the end reaches, pops a component where the end
/// reaches nothing above `v`, and notes the end as a child of `v`. To a
/// gray end it puts the edge on the stack, if it is new, and notes the
/// entry time of the end. To a black end it adds nothing.
pub open spec fn search_step(graph: &Graph, s: Search, v: int, pv: int, ev: int, k: int, fuel: nat) -> Search
    decreases fuel, 1nat, 0nat,
{
    let record = graph.adj()[v][k];
    let to = record.to as int;
    let e = record.edge_index;
    if e == ev {
        s
    } else if s.frame.colors[to] == VisitColor::White {
        let down = Search { frame: Frame { first: -1, ..pushed(s.frame, e) }, children: s.children };
        let below = search_walk(graph, down, to, v, e as int, fuel);
        Search {
            frame: noted(s.frame, below.frame, v, pv, to),
            children: below.children.update(v, below.children[v].push(to as usize)),
        }
    } else if s.frame.colors[to] == VisitColor::Gray {
        Search { frame: backed(s.frame, v, to, e), children: s.children }
    } else {
        s
    }
}

/// What the records of `v` add, from record `k` on.
pub open spec fn search_records(graph: &Graph, s: Search, v: int, pv: int, ev: int, k: int, fuel: nat) -> Search
    decreases fuel, 2nat, graph.adj()[v].len() - k,
{
    if k < 0 || k >= graph.adj()[v].len() {
        s
    } else {
        search_records(graph, search_step(graph, s, v, pv, ev, k, fuel), v, pv, ev, k + 1, fuel)
    }
}

/// The searches from the vertices `from`, `from + 1`, and so on, each from
/// a vertex that is still white.
pub open spec fn search_sweep(graph: &Graph, s: Search, from: int) -> Search
    decreases graph.order() - from,
{
    if from < 0 || from >= graph.order() {
        s
    } else if s.frame.colors[from] == VisitColor::White {
        let root = Search { frame: Frame { first: -1, ..s.frame }, children: s.children };
        search_sweep(graph, search_walk(graph, root, from, -1, -1, s.frame.colors.len()), from + 1)
    } else {
        search_sweep(graph, s, from + 1)
    }
}

/// The whole search, from the traversal state `s`: no edge is met yet, the
/// stack is empty, and no cut vertex and no component is found.
pub open spec fn whole_search(graph: &Graph, s: &DFSSpace) -> Search {
    search_sweep(
        graph,
        Search {
            frame: Frame {
                colors: s.visit_colors@,
                t_in: s.t_in@,
                time: s.time as int,
                kids: Seq::new(s.children@.len(), |x: int| s.children@[x]@.len() as int),
                low: Seq::new(graph.order() as nat, |x: int| 0usize),
                cuts: Seq::empty(),
                comps: Seq::empty(),
                stack: Seq::empty(),
                visited: Seq::new(graph.total_edges as nat, |e: int| false),
                up: Seq::new(graph.order() as nat, |x: int| (-1int, -1int)),
                heads: Seq::empty(),
                first: -1,
            },
            children: rows(s.children@),
        },
        0,
    )
}

proof fn lemma_search_step(
    graph: &Graph,
    start: Search,
    s: Search,
    next: Search,
    v: int,
    pv: int,
    ev: int,
    k: int,
    floor: nat,
)
    requires
        0 <= k < graph.adj()[v].len(),
        forall|fuel: nat|
            fuel + 1 >= floor ==> #[trigger] search_records(graph, start, v, pv, ev, 0, fuel) == search_records(
                graph,
                s,
                v,
                pv,
                ev,
                k,
                fuel,
            ),
        forall|fuel: nat| fuel + 1 >= floor ==> #[trigger] search_step(graph, s, v, pv, ev, k, fuel) == next,
    ensures
        forall|fuel: nat|
            fuel + 1 >= floor ==> #[trigger] search_records(graph, start, v, pv, ev, 0, fuel) == search_records(
                graph,
                next,
                v,
                pv,
                ev,
                k + 1,
                fuel,
            ),
{
    assert forall|fuel: nat| fuel + 1 >= floor implies #[trigger] search_records(graph, start, v, pv, ev, 0, fuel)
        == search_records(graph, next, v, pv, ev, k + 1, fuel) by {
        assert(search_step(graph, s, v, pv, ev, k, fuel) == next);
    }
}

impl DFSSpace {
    fn cutting_point_dfs(
        &mut self,
        graph: &Graph,
        node: usize,
        edge_to_parent: Option<Edge>,
        highest_reachable: &mut Vec<usize>,
        cutting_points: &mut Vec<usize>,
        components: &mut Vec<Vec<usize>>,
        edge_stack: &mut Vec<Edge>,
        edge_visited: &mut Vec<bool>,
        Ghost(up0): Ghost<Seq<(int, int)>>,
        Ghost(heads0): Ghost<Seq<(int, int)>>,
    ) -> (trees: Ghost<(Seq<(int, int)>, Seq<(int, int)>, int)>)
        requires
            graph.wf(),
            graph.indices_in_range(),
            node < graph.order(),
            old(self).fits(graph),
            old(highest_reachable)@.len() == graph.order(),
            old(edge_visited)@.len() == graph.total_edges,
            old(self).visit_colors@[node as int] == VisitColor::White,
            old(self).time + white_count(old(self).visit_colors@) <= usize::MAX,
            forall|i: int| 0 <= i < old(cutting_points)@.len() ==> old(cutting_points)@[i] < graph.order(),
            forall|j: int| 0 <= j < old(components)@.len() ==> (#[trigger] old(components)@[j])@.len() > 0,
            start_ok(
                graph,
                frame(
                    old(self),
                    old(highest_reachable)@,
                    old(cutting_points)@,
                    old(components)@,
                    old(edge_stack)@,
                    old(edge_visited)@,
                    up0,
                    heads0,
                    -1,
                ),
                node as int,
                parent_vertex(edge_to_parent),
                parent_edge(edge_to_parent),
            ),
        ensures
            final(self).fits(graph),
            final(highest_reachable)@.len() == graph.order(),
            final(edge_visited)@.len() == graph.total_edges,
            final(self).t_out == old(self).t_out,
            final(self).time + white_count(final(self).visit_colors@) == old(self).time + white_count(
                old(self).visit_colors@,
            ),
            forall|x: int|
                0 <= x < graph.order() && final(self).visit_colors@[x] == VisitColor::White ==> old(
                    self,
                ).visit_colors@[x] == VisitColor::White,
            forall|i: int| 0 <= i < final(cutting_points)@.len() ==> final(cutting_points)@[i] < graph.order(),
            forall|j: int| 0 <= j < final(components)@.len() ==> (#[trigger] final(components)@[j])@.len() > 0,
            result_ok(
                graph,
                frame(
                    old(self),
                    old(highest_reachable)@,
                    old(cutting_points)@,
                    old(components)@,
                    old(edge_stack)@,
                    old(edge_visited)@,
                    up0,
                    heads0,
                    -1,
                ),
                frame(
                    final(self),
                    final(highest_reachable)@,
                    final(cutting_points)@,
                    final(components)@,
                    final(edge_stack)@,
                    final(edge_visited)@,
                    trees@.0,
                    trees@.1,
                    trees@.2,
                ),
                node as int,
                parent_vertex(edge_to_parent),
                parent_edge(edge_to_parent),
            ),
            forall|fuel: nat|
                fuel >= white_count(old(self).visit_colors@) ==> #[trigger] search_walk(
                    graph,
                    (Search {
                        frame: frame(
                            old(self),
                            old(highest_reachable)@,
                            old(cutting_points)@,
                            old(components)@,
                            old(edge_stack)@,
                            old(edge_visited)@,
                            up0,
                            heads0,
                            -1,
                        ),
                        children: rows(old(self).children@),
                    }),
                    node as int,
                    parent_vertex(edge_to_parent),
                    parent_edge(edge_to_parent),
                    fuel,
                ) == (Search {
                    frame: frame(
                        final(self),
                        final(highest_reachable)@,
                        final(cutting_points)@,
                        final(components)@,
                        final(edge_stack)@,
                        final(edge_visited)@,
                        trees@.0,
                        trees@.1,
                        trees@.2,
                    ),
                    children: rows(final(self).children@),
                }),
        decreases white_count(old(self).visit_colors@),
    {
        let ghost pv = parent_vertex(edge_to_parent);
        let ghost ev = parent_edge(edge_to_parent);
        let ghost colors0 = self.visit_colors@;
        let ghost f0 = frame(
            self,
            highest_reachable@,
            cutting_points@,
            components@,
            edge_stack@,
            edge_visited@,
            up0,
            heads0,
            -1,
        );
        let ghost kin0 = rows(self.children@);
        let ghost start = Search { frame: entered(f0, node as int, pv, ev), children: kin0 };
        proof {
            lemma_white_count_update(colors0, node as int, VisitColor::Gray);
            lemma_frame_enter(graph, f0, node as int, pv, ev);
        }
        self.visit_colors[node] = VisitColor::Gray;
        self.t_in[node] = self.time;
        highest_reachable[node] = self.time;
        self.time += 1;
        let ghost mut up = up0.update(node as int, (pv, ev));
        let ghost mut first: int = -1;
        let ghost mut heads = heads0;
        proof {
            let now = frame(
                self,
                highest_reachable@,
                cutting_points@,
                components@,
                edge_stack@,
                edge_visited@,
                up,
                heads,
                first,
            );
            assert(now.kids =~= f0.kids);
            assert(now == entered(f0, node as int, pv, ev));
        }
        let degree: usize = graph.edges[node].len();
        let mut k: usize = 0;
        while k < degree
            invariant
                graph.wf(),
                graph.indices_in_range(),
                k <= degree,
                degree == graph.adj()[node as int].len(),
                node < graph.order(),
                f0 == frame(
                    old(self),
                    old(highest_reachable)@,
                    old(cutting_points)@,
                    old(components)@,
                    old(edge_stack)@,
                    old(edge_visited)@,
                    up0,
                    heads0,
                    -1,
                ),
                colors0 == old(self).visit_colors@,
                pv == parent_vertex(edge_to_parent),
                ev == parent_edge(edge_to_parent),
                self.fits(graph),
                highest_reachable@.len() == graph.order(),
                edge_visited@.len() == graph.total_edges,
                self.t_out == old(self).t_out,
                colors0.len() == graph.order(),
                colors0[node as int] == VisitColor::White,
                self.visit_colors@[node as int] != VisitColor::White,
                forall|x: int|
                    0 <= x < graph.order() && self.visit_colors@[x] == VisitColor::White ==> colors0[x]
                        == VisitColor::White,
                self.time + white_count(self.visit_colors@) == old(self).time + white_count(colors0),
                old(self).time + white_count(colors0) <= usize::MAX,
                forall|i: int| 0 <= i < cutting_points@.len() ==> cutting_points@[i] < graph.order(),
                forall|j: int| 0 <= j < components@.len() ==> (#[trigger] components@[j])@.len() > 0,
                kin0 == rows(old(self).children@),
                start == (Search { frame: entered(f0, node as int, pv, ev), children: kin0 }),
                forall|fuel: nat|
                    fuel + 1 >= white_count(colors0) ==> #[trigger] search_records(
                        graph,
                        start,
                        node as int,
                        pv,
                        ev,
                        0,
                        fuel,
                    ) == search_records(
                        graph,
                        (Search {
                            frame: frame(
                                self,
                                highest_reachable@,
                                cutting_points@,
                                components@,
                                edge_stack@,
                                edge_visited@,
                                up,
                                heads,
                                first,
                            ),
                            children: rows(self.children@),
                        }),
                        node as int,
                        pv,
                        ev,
                        k as int,
                        fuel,
                    ),
                level_ok(
                    graph,
                    f0,
                    frame(
                        self,
                        highest_reachable@,
                        cutting_points@,
                        components@,
                        edge_stack@,
                        edge_visited@,
                        up,
                        heads,
                        first,
                    ),
                    node as int,
                    pv,
                    ev,
                    k as int,
                ),
            decreases degree - k,
        {
            let edge = graph.edges[node][k];
            let to: usize = edge.to;
            assert(edge == graph.adj()[node as int][k as int]);
            assert(to < graph.order());
            assert(edge.edge_index < graph.total_edges);
            let is_parent_edge = match edge_to_parent {
                Some(parent_edge) => parent_edge.edge_index == edge.edge_index,
                None => false,
            };
            let ghost fc = frame(
                self,
                highest_reachable@,
                cutting_points@,
                components@,
                edge_stack@,
                edge_visited@,
                up,
                heads,
                first,
            );
            let ghost sc = Search { frame: fc, children: rows(self.children@) };
            if !is_parent_edge {
                let fresh = !edge_visited[edge.edge_index];
                proof {
                    if self.visit_colors@[to as int] == VisitColor::White {
                        lemma_frame_white(graph, f0, fc, node as int, pv, ev, k as int);
                    } else if self.visit_colors@[to as int] == VisitColor::Black {
                        lemma_frame_black(graph, f0, fc, node as int, pv, ev, k as int);
                    } else {
                        lemma_frame_gray(graph, f0, fc, node as int, pv, ev, k as int);
                    }
                }
                if fresh {
                    edge_visited[edge.edge_index] = true;
                    edge_stack.push(edge);
                    proof {
                        assert(stack_ids(edge_stack@) =~= fc.stack.push(edge.edge_index));
                    }
                } else {
                    proof {
                        assert(stack_ids(edge_stack@) =~= fc.stack);
                    }
                }
                if self.visit_colors[to] == VisitColor::White {
                    let ghost fm = frame(
                        self,
                        highest_reachable@,
                        cutting_points@,
                        components@,
                        edge_stack@,
                        edge_visited@,
                        up,
                        heads,
                        -1,
                    );
                    proof {
                        assert(fm.kids =~= fc.kids);
                        assert(fm == (Frame { first: -1, ..pushed(fc, edge.edge_index) }));
                        lemma_start_any_first(graph, pushed(fc, edge.edge_index), fm, to as int, node as int, edge.edge_index as int);
                        lemma_white_count_lt(colors0, self.visit_colors@, node as int);
                    }
                    let via = Some(Edge::new(node, edge.edge_index));
                    let below = self.cutting_point_dfs(
                        graph,
                        to,
                        via,
                        highest_reachable,
                        cutting_points,
                        components,
                        edge_stack,
                        edge_visited,
                        Ghost(up),
                        Ghost(heads),
                    );
                    let ghost first2 = below@.2;
                    let ghost kin2 = rows(self.children@);
                    let ghost f2 = frame(
                        self,
                        highest_reachable@,
                        cutting_points@,
                        components@,
                        edge_stack@,
                        edge_visited@,
                        below@.0,
                        below@.1,
                        first2,
                    );
                    proof {
                        assert(parent_vertex(via) == node as int);
                        assert(parent_edge(via) == edge.edge_index as int);
                        lemma_result_any_first(graph, fm, pushed(fc, edge.edge_index), f2, to as int, node as int, edge.edge_index as int);
                        lemma_frame_returned(graph, f0, fc, f2, node as int, pv, ev, k as int);
                        lemma_frame_child(graph, f0, fc, f2, node as int, pv, ev, k as int);
                        up = below@.0;
                        heads = below@.1;
                    }
                    if highest_reachable[to] < highest_reachable[node] {
                        let value: usize = highest_reachable[to];
                        highest_reachable[node] = value;
                    }
                    let is_root = edge_to_parent.is_none();
                    if !is_root && highest_reachable[to] >= self.t_in[node] {
                        cutting_points.push(node);
                    }
                    if is_root || highest_reachable[to] >= self.t_in[node] {
                        let component = pop_component(edge_stack, edge.edge_index);
                        let ghost found = rows(components@);
                        components.push(component);
                        proof {
                            assert(rows(components@) =~= found.push(component@));
                            heads = heads.push((node as int, to as int));
                        }
                    }
                    self.children[node].push(to);
                    proof {
                        first = if pv < 0 && fc.kids[node as int] == 0 {
                            to as int
                        } else {
                            fc.first
                        };
                        let now = frame(
                            self,
                            highest_reachable@,
                            cutting_points@,
                            components@,
                            edge_stack@,
                            edge_visited@,
                            up,
                            heads,
                            first,
                        );
                        let wanted = noted(fc, f2, node as int, pv, to as int);
                        assert(now.kids =~= wanted.kids);
                        assert(now.cuts =~= wanted.cuts);
                        assert(now.low =~= wanted.low);
                        assert(now.stack =~= wanted.stack);
                        assert(now.comps =~= wanted.comps);
                        assert(now.heads =~= wanted.heads);
                        assert(now == wanted);
                        let kin = rows(self.children@);
                        assert(kin =~= kin2.update(node as int, kin2[node as int].push(to)));
                        let next = Search { frame: now, children: kin };
                        assert forall|fuel: nat| fuel + 1 >= white_count(colors0) implies #[trigger] search_step(
                            graph,
                            sc,
                            node as int,
                            pv,
                            ev,
                            k as int,
                            fuel,
                        ) == next by {
                            let down = Search { frame: fm, children: sc.children };
                            assert(search_walk(graph, down, to as int, node as int, edge.edge_index as int, fuel)
                                == (Search { frame: f2, children: kin2 }));
                        }
                        lemma_search_step(graph, start, sc, next, node as int, pv, ev, k as int, white_count(colors0));
                    }
                } else {
                    if self.visit_colors[to] == VisitColor::Gray {
                        if self.t_in[to] < highest_reachable[node] {
                            highest_reachable[node] = self.t_in[to];
                        }
                        proof {
                            let now = frame(
                                self,
                                highest_reachable@,
                                cutting_points@,
                                components@,
                                edge_stack@,
                                edge_visited@,
                                up,
                                heads,
                                first,
                            );
                            let wanted = backed(fc, node as int, to as int, edge.edge_index);
                            assert(now.kids =~= wanted.kids);
                            assert(now.low =~= wanted.low);
                            assert(now.stack =~= wanted.stack);
                            assert(now.visited =~= wanted.visited);
                            assert(now == wanted);
                            let next = Search { frame: now, children: sc.children };
                            assert forall|fuel: nat| fuel + 1 >= white_count(colors0) implies #[trigger] search_step(
                                graph,
                                sc,
                                node as int,
                                pv,
                                ev,
                                k as int,
                                fuel,
                            ) == next by {}
                            lemma_search_step(graph, start, sc, next, node as int, pv, ev, k as int, white_count(colors0));
                        }
                    } else {
                        proof {
                            let now = frame(
                                self,
                                highest_reachable@,
                                cutting_points@,
                                components@,
                                edge_stack@,
                                edge_visited@,
                                up,
                                heads,
                                first,
                            );
                            assert(now.kids =~= fc.kids);
                            assert(now == fc);
                            assert forall|fuel: nat| fuel + 1 >= white_count(colors0) implies #[trigger] search_step(
                                graph,
                                sc,
                                node as int,
                                pv,
                                ev,
                                k as int,
                                fuel,
                            ) == sc by {}
                            lemma_search_step(graph, start, sc, sc, node as int, pv, ev, k as int, white_count(colors0));
                        }
                    }
                }
            } else {
                proof {
                    lemma_frame_parent(graph, f0, fc, node as int, pv, ev, k as int);
                    assert forall|fuel: nat| fuel + 1 >= white_count(colors0) implies #[trigger] search_step(
                        graph,
                        sc,
                        node as int,
                        pv,
                        ev,
                        k as int,
                        fuel,
                    ) == sc by {}
                    lemma_search_step(graph, start, sc, sc, node as int, pv, ev, k as int, white_count(colors0));
                }
            }
            k += 1;
        }
        let ghost last = frame(
            self,
            highest_reachable@,
            cutting_points@,
            components@,
            edge_stack@,
            edge_visited@,
            up,
            heads,
            first,
        );
        proof {
            lemma_frame_exit(graph, f0, last, node as int, pv, ev);
            lemma_white_count_update(self.visit_colors@, node as int, VisitColor::Black);
        }
        if edge_to_parent.is_none() {
            if self.children[node].len() > 1 {
                cutting_points.push(node);
            }
        }
        self.visit_colors[node] = VisitColor::Black;
        proof {
            let now = frame(
                self,
                highest_reachable@,
                cutting_points@,
                components@,
                edge_stack@,
                edge_visited@,
                up,
                heads,
                first,
            );
            let wanted = left(last, node as int, pv);
            assert(now.kids =~= wanted.kids);
            assert(now.cuts =~= wanted.cuts);
            assert(now == wanted);
            assert(result_ok(graph, f0, now, node as int, pv, ev));
            let kin = rows(self.children@);
            assert forall|fuel: nat| fuel >= white_count(colors0) implies #[trigger] search_walk(
                graph,
                (Search { frame: f0, children: kin0 }),
                node as int,
                pv,
                ev,
                fuel,
            ) == (Search { frame: now, children: kin }) by {
                let g = (fuel - 1) as nat;
                assert(search_records(graph, start, node as int, pv, ev, 0, g) == search_records(
                    graph,
                    (Search { frame: last, children: kin }),
                    node as int,
                    pv,
                    ev,
                    degree as int,
                    g,
                ));
            }
        }
        Ghost((up, heads, first))
    }

    /// Finds the cut vertices of an undirected multigraph without loops and
    /// splits its edges into biconnected components. The first result
    /// lists the cut vertices in ascending order; the second is a partition
    /// of the edge identities.
    pub fn find_cutting_points_with_components(&mut self, graph: &Graph) -> (r: (Vec<usize>, Decomposition))
        requires
            cut_graph(graph),
            old(self).fits(graph),
            old(self).all_white(),
            old(self).no_children(),
            old(self).time + graph.order() <= usize::MAX,
        ensures
            r.1.groups() == whole_search(graph, old(self)).frame.comps,
            rows(final(self).children@) == whole_search(graph, old(self)).children,
            final(self).t_in@ == whole_search(graph, old(self)).frame.t_in,
            forall|a: int, b: int| 0 <= a < b < r.0@.len() ==> r.0@[a] < r.0@[b],
            forall|a: int| 0 <= a < r.0@.len() ==> r.0@[a] < graph.order(),
            forall|v: usize| v < graph.order() ==> (r.0@.contains(v) <==> graph.is_cut_vertex(v as int)),
            forall|j1: int, j2: int, x: int|
                0 <= j1 < r.1.groups().len() && 0 <= j2 < r.1.groups().len() && j1 != j2 && #[trigger] touches(
                    graph,
                    r.1.groups()[j1],
                    x,
                ) && #[trigger] touches(graph, r.1.groups()[j2], x) ==> graph.is_cut_vertex(x) && forall|y: int|
                    touches(graph, r.1.groups()[j1], y) && #[trigger] touches(graph, r.1.groups()[j2], y) ==> y
                        == x,
            forall|e1: int, e2: int|
                0 <= e1 < graph.total_edges && 0 <= e2 < graph.total_edges && #[trigger] r.1.group_of(e1)
                    != #[trigger] r.1.group_of(e2) ==> exists|v: int| separates(graph, v, e1, e2),
            forall|e1: int, e2: int, v: int|
                0 <= e1 < graph.total_edges && 0 <= e2 < graph.total_edges && r.1.group_of(e1)
                    == r.1.group_of(e2) ==> #[trigger] joined_without(graph, v, e1, e2),
            r.1.wf(),
            r.1.elements == graph.total_edges,
            forall|j: int| 0 <= j < r.1.groups().len() ==> (#[trigger] r.1.groups()[j]).len() > 0,
            final(self).fits(graph),
            final(self).time == old(self).time + graph.order(),
            final(self).t_out == old(self).t_out,
            forall|x: int|
                0 <= x < graph.order() ==> final(self).visit_colors@[x] == VisitColor::Black,
    {
        let n: usize = graph.vertexes();
        let mut cutting_points: Vec<usize> = Vec::new();
        let mut highest_reachable = filled(0usize, n);
        let mut components: Vec<Vec<usize>> = Vec::new();
        let mut edge_stack: Vec<Edge> = Vec::new();
        let mut edge_visited = filled(false, graph.edges());
        let ghost t0 = self.time as int;
        let ghost mut up: Seq<(int, int)> = Seq::new(n as nat, |x: int| (-1int, -1int));
        let ghost mut heads: Seq<(int, int)> = Seq::empty();
        let ghost mut first: int = -1;
        proof {
            lemma_white_count_all(self.visit_colors@);
            assert(tree_inv(graph, cut_tree(self, up, cutting_points@)));
            assert(rows(components@) =~= Seq::<Seq<usize>>::empty());
            assert(stack_ids(edge_stack@) =~= Seq::<usize>::empty());
            assert(highest_reachable@ =~= Seq::new(graph.order() as nat, |x: int| 0usize));
            assert(edge_visited@ =~= Seq::new(graph.total_edges as nat, |e: int| false));
            assert(cutting_points@ =~= Seq::<usize>::empty());
            let c = cut_state(self, edge_visited@, edge_stack@, components@);
            assert forall|u: int, k: int|
                0 <= u < n && 0 <= k < graph.adj()[u].len() implies #[trigger] cut_record_ok(graph, c, -1, u, k) by {
                assert(graph.adj()[u][k].edge_index < graph.total_edges);
            }
        }
        let mut v: usize = 0;
        while v < n
            invariant
                v <= n,
                n == graph.order(),
                cut_graph(graph),
                self.fits(graph),
                highest_reachable@.len() == n,
                edge_visited@.len() == graph.total_edges,
                self.t_out == old(self).t_out,
                self.time + white_count(self.visit_colors@) == t0 + n,
                t0 + n <= usize::MAX,
                forall|x: int| 0 <= x < v ==> self.visit_colors@[x] != VisitColor::White,
                forall|x: int| 0 <= x < n ==> #[trigger] self.visit_colors@[x] != VisitColor::Gray,
                forall|i: int| 0 <= i < cutting_points@.len() ==> cutting_points@[i] < n,
                forall|j: int| 0 <= j < components@.len() ==> (#[trigger] components@[j])@.len() > 0,
                edge_stack@.len() == 0,
                cut_inv(graph, cut_state(self, edge_visited@, edge_stack@, components@), -1),
                tree_inv(graph, cut_tree(self, up, cutting_points@)),
                block_inv(graph, rows(components@), heads),
                whole_search(graph, old(self)) == search_sweep(
                    graph,
                    (Search {
                        frame: frame(
                            self,
                            highest_reachable@,
                            cutting_points@,
                            components@,
                            edge_stack@,
                            edge_visited@,
                            up,
                            heads,
                            first,
                        ),
                        children: rows(self.children@),
                    }),
                    v as int,
                ),
            decreases n - v,
        {
            if self.visit_colors[v] == VisitColor::White {
                let ghost before = cut_state(self, edge_visited@, edge_stack@, components@);
                let ghost kin = rows(self.children@);
                let ghost here = frame(
                    self,
                    highest_reachable@,
                    cutting_points@,
                    components@,
                    edge_stack@,
                    edge_visited@,
                    up,
                    heads,
                    first,
                );
                let ghost f0 = frame(
                    self,
                    highest_reachable@,
                    cutting_points@,
                    components@,
                    edge_stack@,
                    edge_visited@,
                    up,
                    heads,
                    -1,
                );
                proof {
                    reveal(start_ok);
                    assert(cs(f0) == before);
                    assert(ts(f0) == cut_tree(self, up, cutting_points@));
                    assert(f0 == (Frame { first: -1, ..here }));
                    lemma_white_count_bound(self.visit_colors@);
                }
                let below = self.cutting_point_dfs(
                    graph,
                    v,
                    None,
                    &mut highest_reachable,
                    &mut cutting_points,
                    &mut components,
                    &mut edge_stack,
                    &mut edge_visited,
                    Ghost(up),
                    Ghost(heads),
                );
                proof {
                    up = below@.0;
                    heads = below@.1;
                    first = below@.2;
                    let first2 = below@.2;
                    assert(parent_vertex(None::<Edge>) == -1);
                    assert(parent_edge(None::<Edge>) == -1);
                    assert(search_walk(
                        graph,
                        (Search { frame: f0, children: kin }),
                        v as int,
                        -1,
                        -1,
                        here.colors.len(),
                    ) == (Search {
                        frame: frame(
                            self,
                            highest_reachable@,
                            cutting_points@,
                            components@,
                            edge_stack@,
                            edge_visited@,
                            up,
                            heads,
                            first,
                        ),
                        children: rows(self.children@),
                    }));
                    let f2 = frame(
                        self,
                        highest_reachable@,
                        cutting_points@,
                        components@,
                        edge_stack@,
                        edge_visited@,
                        up,
                        heads,
                        first2,
                    );
                    reveal(result_ok);
                    let after = cut_state(self, edge_visited@, edge_stack@, components@);
                    assert(cs(f2) == after);
                    assert(ts(f2) == cut_tree(self, up, cutting_points@));
                    assert(after.stack == before.stack);
                    assert(stack_ids(edge_stack@).len() == 0);
                    assert forall|x: int| 0 <= x < n implies #[trigger] self.visit_colors@[x]
                        != VisitColor::Gray by {
                        if self.visit_colors@[x] == VisitColor::Gray {
                            assert(before.colors[x] != VisitColor::Gray);
                        }
                    }
                    assert forall|x: int| 0 <= x < v + 1 implies self.visit_colors@[x] != VisitColor::White by {
                        if x < v {
                            assert(before.colors[x] != VisitColor::White);
                        }
                    }
                }
            }
            v += 1;
        }
        proof {
            lemma_white_count_all(self.visit_colors@);
            let c = cut_state(self, edge_visited@, edge_stack@, components@);
            let flat = c.comps.flatten();
            assert forall|e: usize| 0 <= e < graph.total_edges implies flat.contains(e) by {
                assert(graph.index_used(e as int));
                let (u, k) = choose|u: int, k: int|
                    0 <= u < graph.order() && 0 <= k < graph.adj()[u].len() && (#[trigger] graph.adj()[u][k]).edge_index
                        == e as int;
                assert(cut_record_ok(graph, c, -1, u, k));
                assert(c.visited[e as int]);
                if c.stack.contains(e) {
                    let i = c.stack.index_of(e);
                }
            }
            lemma_distinct_cover_len(flat, graph.total_edges as int);
        }
        let ghost found = rows(components@);
        let decomposition = Decomposition::from_component_list(components);
        let cut_vertices = sorted_unique(&cutting_points, n);
        proof {
            let d = &decomposition;
            assert(d.groups() == found);
            assert forall|j1: int, j2: int, x: int|
                0 <= j1 < found.len() && 0 <= j2 < found.len() && j1 != j2 && #[trigger] touches(
                    graph,
                    found[j1],
                    x,
                ) && #[trigger] touches(graph, found[j2], x) implies graph.is_cut_vertex(x) && forall|y: int|
                touches(graph, found[j1], y) && #[trigger] touches(graph, found[j2], y) ==> y == x by {
                if j1 < j2 {
                    lemma_blocks_meet(graph, found, heads, j1, j2, x);
                    assert forall|y: int|
                        touches(graph, found[j1], y) && #[trigger] touches(graph, found[j2], y) implies y == x by {
                        lemma_blocks_meet(graph, found, heads, j1, j2, y);
                    }
                } else {
                    lemma_blocks_meet(graph, found, heads, j2, j1, x);
                    assert forall|y: int|
                        touches(graph, found[j1], y) && #[trigger] touches(graph, found[j2], y) implies y == x by {
                        lemma_blocks_meet(graph, found, heads, j2, j1, y);
                    }
                }
            }
            assert forall|e1: int, e2: int|
                0 <= e1 < graph.total_edges && 0 <= e2 < graph.total_edges && #[trigger] d.group_of(e1)
                    != #[trigger] d.group_of(e2) implies exists|v: int| separates(graph, v, e1, e2) by {
                let j1 = d.group_of(e1);
                let j2 = d.group_of(e2);
                assert(found[j1].contains(e1 as usize));
                assert(found[j2].contains(e2 as usize));
                let i1 = found[j1].index_of(e1 as usize);
                let i2 = found[j2].index_of(e2 as usize);
                if j1 < j2 {
                    lemma_blocks_apart(graph, found, heads, j1, i1, j2, i2);
                    assert(separates(graph, heads[j1].0, e1, e2));
                } else {
                    lemma_blocks_apart(graph, found, heads, j2, i2, j1, i1);
                    assert(separates(graph, heads[j2].0, e1, e2));
                }
            }
            assert forall|e1: int, e2: int, v: int|
                0 <= e1 < graph.total_edges && 0 <= e2 < graph.total_edges && d.group_of(e1) == d.group_of(
                    e2,
                ) implies #[trigger] joined_without(graph, v, e1, e2) by {
                let j = d.group_of(e1);
                assert(found[j].contains(e1 as usize));
                assert(found[j].contains(e2 as usize));
                let i1 = found[j].index_of(e1 as usize);
                let i2 = found[j].index_of(e2 as usize);
                lemma_block_joined(graph, found, heads, j, i1, i2, v);
            }
            let t = cut_tree(self, up, cutting_points@);
            assert forall|v: usize| v < graph.order() implies (cut_vertices@.contains(v) <==> graph.is_cut_vertex(
                v as int,
            )) by {
                if cutting_points@.contains(v) {
                    let i = cutting_points@.index_of(v);
                    assert(graph.is_cut_vertex(t.cuts[i] as int));
                }
                assert(t.colors[v as int] == VisitColor::Black);
                assert(settled_vertex(graph, t, v as int));
            }
            assert forall|a: int| 0 <= a < cut_vertices@.len() implies cut_vertices@[a] < graph.order() by {
                assert(cut_vertices@.contains(cut_vertices@[a]));
                let i = cutting_points@.index_of(cut_vertices@[a]);
                assert(cutting_points@[i] < n);
            }
        }
        (cut_vertices, decomposition)
    }
}

} // verus!
