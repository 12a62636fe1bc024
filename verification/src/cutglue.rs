//! The state of the search for cut vertices and biconnected components as
//! a whole, and what each of its steps keeps.

use crate::blocks::block_inv;
use crate::blocks::ends_under;
use crate::blocks::is_end;
use crate::blocks::lemma_block_pop;
use crate::blocks::lemma_stack_ends_move;
use crate::blocks::stack_ends;
use crate::blocks::stack_tied;
use crate::blocks::stack_tied_up;
use crate::blocks::tied;
use crate::cuttree::lemma_child_holds;
use crate::cuttree::lemma_child_joins;
use crate::cuttree::lemma_gray_to_parent;
use crate::walks::connects;
use crate::walks::lemma_connects_push;
use crate::walks::lemma_connects_self;
use crate::walks::lemma_connects_trans;
use crate::cutpoints::cut_level;
use crate::cutpoints::cut_record_ok;
use crate::cutpoints::cut_result;
use crate::cutpoints::cut_start;
use crate::cutpoints::lemma_cut_back;
use crate::cutpoints::lemma_cut_child;
use crate::cutpoints::lemma_cut_enter;
use crate::cutpoints::lemma_cut_exit;
use crate::cutpoints::lemma_cut_push;
use crate::cutpoints::stack_ids;
use crate::cutpoints::CutState;
use crate::cuttree::child_low;
use crate::cuttree::lemma_tree_black_target;
use crate::cuttree::lemma_tree_child;
use crate::cuttree::lemma_tree_descend;
use crate::cuttree::lemma_tree_enter;
use crate::cuttree::lemma_tree_exit;
use crate::cuttree::lemma_tree_gray_target;
use crate::cuttree::lemma_tree_parent_target;
use crate::cuttree::tree_level;
use crate::cuttree::tree_result;
use crate::cuttree::tree_start;
use crate::cuttree::under;
use crate::cuttree::CutTree;
use crate::decomposition::rows;
use crate::dfs::DFSSpace;
use crate::graph::Edge;
use crate::graph::Graph;
use crate::graph::VisitColor;
use vstd::prelude::*;

verus! {

/// Everything the search holds at one moment.
pub struct Frame {
    pub colors: Seq<VisitColor>,
    pub t_in: Seq<usize>,
    pub time: int,
    pub kids: Seq<int>,
    pub low: Seq<usize>,
    pub cuts: Seq<usize>,
    pub comps: Seq<Seq<usize>>,
    pub stack: Seq<usize>,
    pub visited: Seq<bool>,
    pub up: Seq<(int, int)>,
    pub heads: Seq<(int, int)>,
    pub first: int,
}

/// The moment that the traversal state and the lists of the search make up.
pub open spec fn frame(
    s: &DFSSpace,
    low: Seq<usize>,
    cuts: Seq<usize>,
    comps: Seq<Vec<usize>>,
    stack: Seq<Edge>,
    visited: Seq<bool>,
    up: Seq<(int, int)>,
    heads: Seq<(int, int)>,
    first: int,
) -> Frame {
    Frame {
        colors: s.visit_colors@,
        t_in: s.t_in@,
        time: s.time as int,
        kids: Seq::new(s.children@.len(), |x: int| s.children@[x]@.len() as int),
        low,
        cuts,
        comps: rows(comps),
        stack: stack_ids(stack),
        visited,
        up,
        heads,
        first,
    }
}

/// The part of a moment that the bookkeeping of the stack speaks of.
pub open spec fn cs(f: Frame) -> CutState {
    CutState { colors: f.colors, visited: f.visited, stack: f.stack, comps: f.comps }
}

/// The part of a moment that the bookkeeping of the tree speaks of.
pub open spec fn ts(f: Frame) -> CutTree {
    CutTree { colors: f.colors, t_in: f.t_in, time: f.time, up: f.up, cuts: f.cuts, kids: f.kids }
}

/// What the walk from `v` needs at its start.
#[verifier::opaque]
pub open spec fn start_ok(graph: &Graph, f0: Frame, v: int, pv: int, ev: int) -> bool {
    &&& cut_start(graph, cs(f0), v, pv, ev)
    &&& tree_start(graph, ts(f0), v, pv, ev)
    &&& block_inv(graph, f0.comps, f0.heads)
    &&& f0.low.len() == graph.order()
    &&& 0 <= f0.time <= usize::MAX
}

/// What holds while the records of the gray vertex `v` are handled, after
/// the first `k` of them.
#[verifier::opaque]
pub open spec fn level_ok(graph: &Graph, f0: Frame, f: Frame, v: int, pv: int, ev: int, k: int) -> bool {
    &&& cut_level(graph, cs(f0), cs(f), v, pv, ev, k)
    &&& tree_level(graph, ts(f0), ts(f), f0.low, f.low, v, pv, ev, k, f.first)
    &&& block_inv(graph, f.comps, f.heads)
    &&& stack_ends(graph, f.stack, ts(f), v, f0.stack.len() as int)
    &&& stack_tied(graph, f.stack, v, pv, f0.stack.len() as int)
}

/// What the walk from `v` has achieved when it returns.
#[verifier::opaque]
pub open spec fn result_ok(graph: &Graph, f0: Frame, f: Frame, v: int, pv: int, ev: int) -> bool {
    &&& cut_result(graph, cs(f0), cs(f), v, pv)
    &&& tree_result(graph, ts(f0), ts(f), f0.low, f.low, v, pv, ev)
    &&& block_inv(graph, f.comps, f.heads)
    &&& stack_ends(graph, f.stack, ts(f), v, f0.stack.len() as int)
    &&& pv >= 0 ==> stack_tied_up(graph, f.stack, pv, f0.stack.len() - 1)
}

/// The moment right after `v` was entered.
pub open spec fn entered(f0: Frame, v: int, pv: int, ev: int) -> Frame {
    Frame {
        colors: f0.colors.update(v, VisitColor::Gray),
        t_in: f0.t_in.update(v, f0.time as usize),
        time: f0.time + 1,
        low: f0.low.update(v, f0.time as usize),
        up: f0.up.update(v, (pv, ev)),
        first: -1,
        ..f0
    }
}

/// The moment after edge `e` was met for the first time.
pub open spec fn pushed(f: Frame, e: usize) -> Frame {
    Frame { visited: f.visited.update(e as int, true), stack: f.stack.push(e), ..f }
}

/// The smaller of the low-link value of `v` and `s`, as the new low-link
/// value of `v`.
pub open spec fn lowered(low: Seq<usize>, v: int, s: usize) -> Seq<usize> {
    low.update(
        v,
        if s < low[v] {
            s
        } else {
            low[v]
        },
    )
}

/// The moment after the child `to` of `v` was left and noted.
pub open spec fn noted(fc: Frame, f2: Frame, v: int, pv: int, to: int) -> Frame {
    let popped = pv < 0 || f2.low[to] >= f2.t_in[v];
    Frame {
        low: child_low(f2.low, v, to),
        cuts: if pv >= 0 && f2.low[to] >= f2.t_in[v] {
            f2.cuts.push(v as usize)
        } else {
            f2.cuts
        },
        kids: f2.kids.update(v, f2.kids[v] + 1),
        stack: if popped {
            fc.stack
        } else {
            f2.stack
        },
        comps: if popped {
            f2.comps.push(f2.stack.skip(fc.stack.len() as int).reverse())
        } else {
            f2.comps
        },
        heads: if popped {
            f2.heads.push((v, to))
        } else {
            f2.heads
        },
        first: if pv < 0 && fc.kids[v] == 0 {
            to
        } else {
            fc.first
        },
        ..f2
    }
}

/// The moment when the walk from `v` returns.
pub open spec fn left(f: Frame, v: int, pv: int) -> Frame {
    Frame {
        colors: f.colors.update(v, VisitColor::Black),
        cuts: if pv < 0 && f.kids[v] > 1 {
            f.cuts.push(v as usize)
        } else {
            f.cuts
        },
        ..f
    }
}

/// Entering a vertex leads from the start of its walk to the state before
/// its first record.
pub proof fn lemma_frame_enter(graph: &Graph, f0: Frame, v: int, pv: int, ev: int)
    requires
        start_ok(graph, f0, v, pv, ev),
    ensures
        level_ok(graph, f0, entered(f0, v, pv, ev), v, pv, ev, 0),
{
    reveal(start_ok);
    reveal(level_ok);
    let f = entered(f0, v, pv, ev);
    lemma_cut_enter(graph, cs(f0), v, pv, ev);
    lemma_tree_enter(graph, ts(f0), f0.low, v, pv, ev);
    assert(cs(f) == (CutState { colors: cs(f0).colors.update(v, VisitColor::Gray), ..cs(f0) }));
    assert(ts(f) == crate::cuttree::tree_entered(ts(f0), v, pv, ev));
}

/// The record of the edge through which the vertex was entered is passed
/// by.
pub proof fn lemma_frame_parent(graph: &Graph, f0: Frame, f: Frame, v: int, pv: int, ev: int, k: int)
    requires
        level_ok(graph, f0, f, v, pv, ev, k),
        0 <= k < graph.adj()[v].len(),
        graph.adj()[v][k].edge_index == ev,
    ensures
        level_ok(graph, f0, f, v, pv, ev, k + 1),
{
    reveal(level_ok);
    let c0 = cs(f0);
    assert(c0.stack.last() == ev);
    assert(c0.visited[c0.stack[c0.stack.len() - 1] as int]);
    lemma_tree_parent_target(graph, ts(f0), ts(f), f0.low, f.low, v, pv, ev, k, f.first);
}

/// A record to a white vertex is of an edge not met before, and after
/// that edge is put on the stack the walk from that vertex may start.
pub proof fn lemma_frame_white(graph: &Graph, f0: Frame, f: Frame, v: int, pv: int, ev: int, k: int)
    requires
        level_ok(graph, f0, f, v, pv, ev, k),
        graph.wf(),
        graph.indices_in_range(),
        0 <= k < graph.adj()[v].len(),
        graph.adj()[v][k].edge_index != ev,
        f.colors[graph.adj()[v][k].to as int] == VisitColor::White,
        0 <= f.time <= usize::MAX,
    ensures
        !f.visited[graph.adj()[v][k].edge_index as int],
        start_ok(
            graph,
            pushed(f, graph.adj()[v][k].edge_index),
            graph.adj()[v][k].to as int,
            v,
            graph.adj()[v][k].edge_index as int,
        ),
{
    reveal(level_ok);
    reveal(start_ok);
    let to = graph.adj()[v][k].to as int;
    let e = graph.adj()[v][k].edge_index;
    let fm = pushed(f, e);
    assert(cut_record_ok(graph, cs(f), -1, v, k));
    lemma_cut_push(graph, cs(f0), cs(f), v, pv, ev, k);
    lemma_tree_descend(graph, ts(f0), ts(f), f0.low, f.low, v, pv, ev, k, f.first);
    assert(graph.has_arc(v, to, e as int));
    assert(cs(fm).stack.last() == e);
    assert(cs(fm) == (CutState {
        visited: cs(f).visited.update(e as int, true),
        stack: cs(f).stack.push(e),
        ..cs(f)
    }));
    assert(ts(fm) == ts(f));
}

/// A record to a black vertex is of an edge met before and changes
/// nothing.
pub proof fn lemma_frame_black(graph: &Graph, f0: Frame, f: Frame, v: int, pv: int, ev: int, k: int)
    requires
        level_ok(graph, f0, f, v, pv, ev, k),
        graph.wf(),
        graph.indices_in_range(),
        0 <= k < graph.adj()[v].len(),
        graph.adj()[v][k].edge_index != ev,
        f.colors[graph.adj()[v][k].to as int] == VisitColor::Black,
    ensures
        f.visited[graph.adj()[v][k].edge_index as int],
        level_ok(graph, f0, f, v, pv, ev, k + 1),
{
    reveal(level_ok);
    if !f.visited[graph.adj()[v][k].edge_index as int] {
        lemma_cut_push(graph, cs(f0), cs(f), v, pv, ev, k);
    }
    lemma_tree_black_target(graph, ts(f0), ts(f), f0.low, f.low, v, pv, ev, k, f.first);
}

/// The moment after a record to a gray vertex was handled.
pub open spec fn backed(f: Frame, v: int, to: int, e: usize) -> Frame {
    let g = if f.visited[e as int] {
        f
    } else {
        pushed(f, e)
    };
    Frame { low: lowered(f.low, v, f.t_in[to]), ..g }
}

/// A record to a gray vertex is noted as a way back.
pub proof fn lemma_frame_gray(graph: &Graph, f0: Frame, f: Frame, v: int, pv: int, ev: int, k: int)
    requires
        level_ok(graph, f0, f, v, pv, ev, k),
        graph.wf(),
        graph.indices_in_range(),
        0 <= k < graph.adj()[v].len(),
        graph.adj()[v][k].edge_index != ev,
        f.colors[graph.adj()[v][k].to as int] == VisitColor::Gray,
    ensures
        level_ok(
            graph,
            f0,
            backed(f, v, graph.adj()[v][k].to as int, graph.adj()[v][k].edge_index),
            v,
            pv,
            ev,
            k + 1,
        ),
{
    reveal(level_ok);
    let to = graph.adj()[v][k].to as int;
    let e = graph.adj()[v][k].edge_index;
    let f2 = backed(f, v, to, e);
    lemma_tree_gray_target(graph, ts(f0), ts(f), f0.low, f.low, v, pv, ev, k, f.first);
    assert(ts(f2) == ts(f));
    if !f.visited[e as int] {
        lemma_cut_back(graph, cs(f0), cs(f), v, pv, ev, k);
        assert(cs(f2) == (CutState {
            visited: cs(f).visited.update(e as int, true),
            stack: cs(f).stack.push(e),
            ..cs(f)
        }));
        assert(is_end(graph, v, e as int));
        assert(under(graph, ts(f), v)(v));
        assert(ends_under(graph, ts(f), v, e as int));
        assert forall|i: int| f0.stack.len() <= i < f2.stack.len() implies ends_under(
            graph,
            ts(f2),
            v,
            #[trigger] f2.stack[i] as int,
        ) by {
            if i < f.stack.len() {
                assert(f2.stack[i] == f.stack[i]);
            }
        }
        assert forall|i: int, x: int| f0.stack.len() <= i < f2.stack.len() && x != v implies #[trigger] tied(
            graph,
            x,
            v,
            f2.stack[i] as int,
        ) by {
            if i < f.stack.len() {
                assert(f2.stack[i] == f.stack[i]);
                assert(tied(graph, x, v, f.stack[i] as int));
            } else {
                lemma_connects_self(graph.arrow_avoiding(x), v);
            }
        }
        if pv >= 0 {
            assert(to < graph.order());
            assert(to != v);
            assert(graph.has_arc(to, v, e as int));
            assert(is_end(graph, to, e as int)) by {
                let kt = choose|kt: int|
                    0 <= kt < graph.adj()[to].len() && (#[trigger] graph.adj()[to][kt]).to == v
                        && graph.adj()[to][kt].edge_index == e as int;
            }
            assert(ts(f0).colors[to] == VisitColor::Gray) by {
                if ts(f0).colors[to] == VisitColor::White {
                }
            }
            lemma_gray_to_parent(graph, ts(f0), v, pv, ev, to);
            assert forall|i: int| f0.stack.len() <= i < f2.stack.len() implies tied(
                graph,
                v,
                pv,
                #[trigger] f2.stack[i] as int,
            ) by {
                if i < f.stack.len() {
                    assert(f2.stack[i] == f.stack[i]);
                    assert(tied(graph, v, pv, f.stack[i] as int));
                }
            }
        }
    } else {
        assert(cs(f2) == cs(f));
    }
}

/// What the walk from a child leaves behind fits what the walk from its
/// parent had before.
pub proof fn lemma_frame_returned(
    graph: &Graph,
    f0: Frame,
    fc: Frame,
    f2: Frame,
    v: int,
    pv: int,
    ev: int,
    k: int,
)
    requires
        level_ok(graph, f0, fc, v, pv, ev, k),
        graph.wf(),
        graph.indices_in_range(),
        0 <= k < graph.adj()[v].len(),
        graph.adj()[v][k].edge_index != ev,
        fc.colors[graph.adj()[v][k].to as int] == VisitColor::White,
        result_ok(
            graph,
            pushed(fc, graph.adj()[v][k].edge_index),
            f2,
            graph.adj()[v][k].to as int,
            v,
            graph.adj()[v][k].edge_index as int,
        ),
    ensures
        f2.stack.no_duplicates(),
        f2.stack.contains(graph.adj()[v][k].edge_index),
        f2.stack.index_of(graph.adj()[v][k].edge_index) == fc.stack.len(),
        f2.stack.take(fc.stack.len() as int) == fc.stack,
        f2.stack.len() > fc.stack.len(),
{
    reveal(level_ok);
    reveal(result_ok);
    let e = graph.adj()[v][k].edge_index;
    let fm = pushed(fc, e);
    assert(cs(fm) == (CutState {
        visited: cs(fc).visited.update(e as int, true),
        stack: cs(fc).stack.push(e),
        ..cs(fc)
    }));
    lemma_cut_child(graph, cs(f0), cs(fc), cs(fm), cs(f2), v, pv, ev, k);
}

/// After the walk from a child has returned and the child is noted, the
/// state is that before the next record.
#[verifier::rlimit(60)]
#[verifier::spinoff_prover]
pub proof fn lemma_frame_child(
    graph: &Graph,
    f0: Frame,
    fc: Frame,
    f2: Frame,
    v: int,
    pv: int,
    ev: int,
    k: int,
)
    requires
        level_ok(graph, f0, fc, v, pv, ev, k),
        graph.wf(),
        graph.indices_in_range(),
        0 <= k < graph.adj()[v].len(),
        graph.adj()[v][k].edge_index != ev,
        fc.colors[graph.adj()[v][k].to as int] == VisitColor::White,
        result_ok(
            graph,
            pushed(fc, graph.adj()[v][k].edge_index),
            f2,
            graph.adj()[v][k].to as int,
            v,
            graph.adj()[v][k].edge_index as int,
        ),
    ensures
        level_ok(graph, f0, noted(fc, f2, v, pv, graph.adj()[v][k].to as int), v, pv, ev, k + 1),
{
    reveal(level_ok);
    reveal(result_ok);
    let to = graph.adj()[v][k].to as int;
    let e = graph.adj()[v][k].edge_index;
    let fm = pushed(fc, e);
    let f3 = noted(fc, f2, v, pv, to);
    let popped = pv < 0 || f2.low[to] >= f2.t_in[v];
    let at = fc.stack.len() as int;
    assert(cs(fm) == (CutState {
        visited: cs(fc).visited.update(e as int, true),
        stack: cs(fc).stack.push(e),
        ..cs(fc)
    }));
    assert(ts(fm) == ts(fc));
    lemma_cut_child(graph, cs(f0), cs(fc), cs(fm), cs(f2), v, pv, ev, k);
    lemma_tree_child(graph, ts(f0), ts(fc), ts(f2), f0.low, fc.low, f2.low, v, pv, ev, k, fc.first);
    assert(ts(f3) == crate::cuttree::child_noted(ts(f2), f2.low, v, pv, to));
    assert(fc.colors[v] != VisitColor::White);
    assert(f2.t_in[v] == fc.t_in[v]);
    assert(fm.stack.len() - 1 == at);
    if popped {
        let comp = f2.stack.skip(at).reverse();
        lemma_block_pop(
            graph,
            cs(f0),
            cs(fc),
            cs(fm),
            cs(f2),
            ts(f0),
            ts(fc),
            ts(f2),
            f0.low,
            fc.low,
            f2.low,
            f2.heads,
            v,
            pv,
            ev,
            k,
            fc.first,
            comp,
        );
        assert(cs(f3) == (CutState { stack: cs(fc).stack, comps: cs(f2).comps.push(comp), ..cs(f2) }));
    } else {
        assert(cs(f3) == cs(f2));
    }
    // the edges that stay on the stack have an end under `v`
    assert forall|x: int|
        0 <= x < graph.order() && #[trigger] ts(fc).colors[x] != VisitColor::White implies ts(f3).colors[x]
        != VisitColor::White && ts(f3).t_in[x] == ts(fc).t_in[x] by {
        assert(ts(f2).colors[x] == ts(fc).colors[x]);
    }
    assert(fc.stack.take(at) =~= fc.stack);
    assert(f3.stack.take(at) =~= fc.stack);
    lemma_stack_ends_move(graph, fc.stack, f3.stack, ts(fc), ts(f3), v, v, f0.stack.len() as int, at);
    if !popped {
        assert forall|x: int|
            0 <= x < graph.order() && #[trigger] ts(f2).colors[x] != VisitColor::White implies ts(f3).colors[x]
            != VisitColor::White && ts(f3).t_in[x] == ts(f2).t_in[x] by {}
        lemma_stack_ends_move(
            graph,
            f2.stack,
            f3.stack,
            ts(f2),
            ts(f3),
            to,
            v,
            fm.stack.len() as int,
            f3.stack.len() as int,
        );
        assert(is_end(graph, v, e as int));
        assert(under(graph, ts(f3), v)(v));
        assert(ends_under(graph, ts(f3), v, f3.stack[at] as int));
    }
    // the edges that stay on the stack are tied to `v`
    assert(f2.stack.take(at) =~= fc.stack.take(at));
    assert forall|i: int, x: int| f0.stack.len() <= i < f3.stack.len() && x != v implies #[trigger] tied(
        graph,
        x,
        v,
        f3.stack[i] as int,
    ) by {
        if i < at {
            assert(f3.stack.take(at)[i] == f3.stack[i]);
            assert(fc.stack.take(at)[i] == fc.stack[i]);
            assert(tied(graph, x, v, fc.stack[i] as int));
        } else {
            assert(tied(graph, x, v, f2.stack[i] as int));
        }
    }
    if pv >= 0 {
        let ra = graph.arrow_avoiding(v);
        if !popped {
            lemma_child_joins(graph, ts(f0), ts(fc), ts(f2), f0.low, fc.low, f2.low, v, pv, ev, k, fc.first);
            lemma_connects_self(ra, to);
            assert(to < graph.order());
            assert(to != v);
            assert(graph.has_arc(to, v, e as int));
            assert(is_end(graph, to, e as int)) by {
                let kt = choose|kt: int|
                    0 <= kt < graph.adj()[to].len() && (#[trigger] graph.adj()[to][kt]).to == v
                        && graph.adj()[to][kt].edge_index == e as int;
            }
        }
        assert forall|i: int| f0.stack.len() <= i < f3.stack.len() implies tied(
            graph,
            v,
            pv,
            #[trigger] f3.stack[i] as int,
        ) by {
            if i < at {
                assert(f3.stack.take(at)[i] == f3.stack[i]);
                assert(fc.stack.take(at)[i] == fc.stack[i]);
                assert(tied(graph, v, pv, fc.stack[i] as int));
            } else if i == at {
                assert(f2.stack[at] == e);
            } else {
                assert(ends_under(graph, ts(f2), to, f2.stack[i] as int));
                let a = choose|a: int| #[trigger] is_end(graph, a, f2.stack[i] as int) && under(graph, ts(f2), to)(a);
                lemma_child_holds(graph, ts(fc), ts(f2), fc.low, f2.low, to, v, e as int, a);
                lemma_connects_trans(ra, a, to, pv);
                assert(ts(f2).t_in[v] == ts(fc).t_in[v]);
                assert(ts(fc).t_in[v] < ts(fc).time);
            }
        }
    }
}

/// Leaving a vertex after its last record ends its walk.
pub proof fn lemma_frame_exit(graph: &Graph, f0: Frame, f: Frame, v: int, pv: int, ev: int)
    requires
        level_ok(graph, f0, f, v, pv, ev, graph.adj()[v].len() as int),
    ensures
        result_ok(graph, f0, left(f, v, pv), v, pv, ev),
{
    reveal(level_ok);
    reveal(result_ok);
    let fe = left(f, v, pv);
    lemma_cut_exit(graph, cs(f0), cs(f), v, pv, ev);
    lemma_tree_exit(graph, ts(f0), ts(f), f0.low, f.low, v, pv, ev, f.first);
    assert(cs(fe) == (CutState { colors: cs(f).colors.update(v, VisitColor::Black), ..cs(f) }));
    assert(ts(fe) == crate::cuttree::tree_left(ts(f), v, pv));
    assert(f.colors[v] != VisitColor::White);
    assert forall|x: int|
        0 <= x < graph.order() && #[trigger] ts(f).colors[x] != VisitColor::White implies ts(fe).colors[x]
        != VisitColor::White && ts(fe).t_in[x] == ts(f).t_in[x] by {}
    lemma_stack_ends_move(
        graph,
        f.stack,
        fe.stack,
        ts(f),
        ts(fe),
        v,
        v,
        f0.stack.len() as int,
        f.stack.len() as int,
    );
    if pv >= 0 {
        let base = f0.stack.len() as int;
        assert(f.stack.take(base)[base - 1] == f.stack[base - 1]);
        assert(f.stack[base - 1] == ev);
        assert(graph.has_arc(pv, v, ev));
        assert(is_end(graph, pv, ev));
        graph.lemma_undirected_is_symmetric();
        assert(graph.has_edge(pv, v));
        assert(graph.has_edge(v, pv));
        assert forall|i: int, x: int| base - 1 <= i < fe.stack.len() && x != pv implies #[trigger] tied(
            graph,
            x,
            pv,
            fe.stack[i] as int,
        ) by {
            let ra = graph.arrow_avoiding(x);
            if i == base - 1 {
                lemma_connects_self(ra, pv);
            } else if x == v {
                assert(tied(graph, v, pv, f.stack[i] as int));
            } else {
                assert(tied(graph, x, v, f.stack[i] as int));
                let a = choose|a: int| a != x && #[trigger] is_end(graph, a, f.stack[i] as int) && connects(ra, a, v);
                assert(ra(v, pv));
                lemma_connects_push(ra, a, v, pv);
            }
        }
    }
}

/// What a walk needs at its start does not depend on the first child noted.
pub proof fn lemma_start_any_first(graph: &Graph, f: Frame, g: Frame, v: int, pv: int, ev: int)
    requires
        start_ok(graph, f, v, pv, ev),
        g == (Frame { first: g.first, ..f }),
    ensures
        start_ok(graph, g, v, pv, ev),
{
    reveal(start_ok);
    assert(cs(g) == cs(f));
    assert(ts(g) == ts(f));
}

/// What a walk has achieved does not depend on the first child noted
/// before it.
pub proof fn lemma_result_any_first(graph: &Graph, f: Frame, g: Frame, f2: Frame, v: int, pv: int, ev: int)
    requires
        result_ok(graph, f, f2, v, pv, ev),
        f == (Frame { first: f.first, ..g }),
    ensures
        result_ok(graph, g, f2, v, pv, ev),
{
    reveal(result_ok);
    assert(cs(g) == cs(f));
    assert(ts(g) == ts(f));
}

} // verus!
