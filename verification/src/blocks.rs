//! How the biconnected components that the search completes lie in the graph.

use crate::cutpoints::cut_level;
use crate::cutpoints::cut_result;
use crate::cuttree::lemma_child_holds;
use crate::cuttree::lemma_under_closed;
use crate::cuttree::tree_level;
use crate::cuttree::tree_result;
use crate::walks::lemma_closed_holds;
use crate::cutpoints::cut_record_ok;
use crate::cutpoints::CutState;
use crate::cuttree::under;
use crate::cuttree::CutTree;
use crate::flat::lemma_flat_at;
use crate::flat::lemma_flat_origin;
use crate::flat::lemma_flat_places_differ;
use crate::graph::Graph;
use crate::graph::VisitColor;
use crate::walks::connects;
use crate::walks::lemma_connects_push;
use crate::walks::lemma_connects_self;
use crate::walks::lemma_connects_step;
use crate::walks::lemma_connects_trans;
use vstd::prelude::*;

verus! {

/// Edge `e` has a record at vertex `x`.
pub open spec fn is_end(graph: &Graph, x: int, e: int) -> bool {
    &&& 0 <= x < graph.order()
    &&& exists|k: int| 0 <= k < graph.adj()[x].len() && (#[trigger] graph.adj()[x][k]).edge_index == e
}

/// Some edge of the component has a record at vertex `x`.
pub open spec fn touches(graph: &Graph, comp: Seq<usize>, x: int) -> bool {
    exists|i: int| 0 <= i < comp.len() && is_end(graph, x, #[trigger] comp[i] as int)
}

/// Edge `e` lies in one of the first `m` components.
pub open spec fn in_first(comps: Seq<Seq<usize>>, m: int, e: int) -> bool {
    exists|j: int, i: int| 0 <= j < m && j < comps.len() && 0 <= i < comps[j].len() && #[trigger] comps[j][i] == e
}

/// Without `v`, no walk leads from an end of `e1` to an end of `e2`.
pub open spec fn separates(graph: &Graph, v: int, e1: int, e2: int) -> bool {
    forall|a: int, b: int|
        #[trigger] is_end(graph, a, e1) && #[trigger] is_end(graph, b, e2) && a != v && b != v ==> !connects(
            graph.arrow_avoiding(v),
            a,
            b,
        )
}

/// Some end of `e` other than `h` is connected to `c` without `h`.
pub open spec fn hangs_on(graph: &Graph, h: int, c: int, e: int) -> bool {
    exists|a: int| a != h && #[trigger] is_end(graph, a, e) && connects(graph.arrow_avoiding(h), c, a)
}

/// Some end of `e` other than `x` is connected to `target` without `x`.
pub open spec fn tied(graph: &Graph, x: int, target: int, e: int) -> bool {
    exists|a: int| a != x && #[trigger] is_end(graph, a, e) && connects(graph.arrow_avoiding(x), a, target)
}

/// The edges on the stack from place `from` on are each tied to `v`
/// without any other vertex and, where `v` was entered from `pv`, to `pv`
/// without `v`.
pub open spec fn stack_tied(graph: &Graph, stack: Seq<usize>, v: int, pv: int, from: int) -> bool {
    &&& forall|i: int, x: int|
        from <= i < stack.len() && 0 <= i && x != v ==> #[trigger] tied(graph, x, v, stack[i] as int)
    &&& pv >= 0 ==> forall|i: int|
        from <= i < stack.len() && 0 <= i ==> tied(graph, v, pv, #[trigger] stack[i] as int)
}

/// The edges on the stack from place `from` on are each tied to `pv`
/// without any other vertex.
pub open spec fn stack_tied_up(graph: &Graph, stack: Seq<usize>, pv: int, from: int) -> bool {
    forall|i: int, x: int|
        from <= i < stack.len() && 0 <= i && x != pv ==> #[trigger] tied(graph, x, pv, stack[i] as int)
}

/// Without `v`, some walk leads from an end of `e1` to an end of `e2`.
pub open spec fn joined_without(graph: &Graph, v: int, e1: int, e2: int) -> bool {
    exists|a: int, b: int|
        #[trigger] is_end(graph, a, e1) && #[trigger] is_end(graph, b, e2) && a != v && b != v && connects(
            graph.arrow_avoiding(v),
            a,
            b,
        )
}

/// Component `j` was completed when the search returned from `c` to `h`:
/// each of its edges has an end that is connected to `c` without `h`, and
/// an end that is connected to `h` without any other vertex; and every edge
/// with an end that is connected to `c` without `h` lies in this component
/// or in an earlier one.
pub open spec fn block_ok(graph: &Graph, comps: Seq<Seq<usize>>, heads: Seq<(int, int)>, j: int) -> bool {
    let h = heads[j].0;
    let c = heads[j].1;
    &&& 0 <= h < graph.order()
    &&& 0 <= c < graph.order()
    &&& h != c
    &&& graph.has_edge(h, c)
    &&& forall|i: int| 0 <= i < comps[j].len() ==> hangs_on(graph, h, c, #[trigger] comps[j][i] as int)
    &&& forall|i: int, x: int|
        0 <= i < comps[j].len() && x != h ==> #[trigger] tied(graph, x, h, comps[j][i] as int)
    &&& forall|e: int, b: int|
        0 <= e < graph.total_edges && #[trigger] is_end(graph, b, e) && b != h && connects(
            graph.arrow_avoiding(h),
            c,
            b,
        ) ==> in_first(comps, j + 1, e)
}

/// Every complete component has its head.
pub open spec fn block_inv(graph: &Graph, comps: Seq<Seq<usize>>, heads: Seq<(int, int)>) -> bool {
    &&& heads.len() == comps.len()
    &&& forall|j: int| 0 <= j < comps.len() ==> #[trigger] block_ok(graph, comps, heads, j)
}

/// Edge `e` has an end under `v`.
pub open spec fn ends_under(graph: &Graph, t: CutTree, v: int, e: int) -> bool {
    exists|x: int| #[trigger] is_end(graph, x, e) && under(graph, t, v)(x)
}

/// The edges on the stack from place `from` on each have an end under `v`.
pub open spec fn stack_ends(graph: &Graph, stack: Seq<usize>, t: CutTree, v: int, from: int) -> bool {
    forall|i: int| from <= i < stack.len() && 0 <= i ==> ends_under(graph, t, v, #[trigger] stack[i] as int)
}

/// What is known of a component stays known when more components follow.
pub proof fn lemma_block_keeps(
    graph: &Graph,
    comps: Seq<Seq<usize>>,
    heads: Seq<(int, int)>,
    comps2: Seq<Seq<usize>>,
    heads2: Seq<(int, int)>,
)
    requires
        block_inv(graph, comps, heads),
        comps.len() <= comps2.len(),
        comps2.take(comps.len() as int) == comps,
        heads.len() <= heads2.len(),
        heads2.take(heads.len() as int) == heads,
    ensures
        forall|j: int| 0 <= j < comps.len() ==> #[trigger] block_ok(graph, comps2, heads2, j),
{
    assert forall|j: int| 0 <= j < comps.len() implies #[trigger] block_ok(graph, comps2, heads2, j) by {
        assert(block_ok(graph, comps, heads, j));
        assert(comps2.take(comps.len() as int)[j] == comps2[j]);
        assert(heads2.take(heads.len() as int)[j] == heads2[j]);
        let h = heads[j].0;
        let c = heads[j].1;
        assert forall|i: int| 0 <= i < comps2[j].len() implies hangs_on(
            graph,
            h,
            c,
            #[trigger] comps2[j][i] as int,
        ) by {
            assert(hangs_on(graph, h, c, comps[j][i] as int));
        }
        assert forall|i: int, x: int| 0 <= i < comps2[j].len() && x != h implies #[trigger] tied(
            graph,
            x,
            h,
            comps2[j][i] as int,
        ) by {
            assert(tied(graph, x, h, comps[j][i] as int));
        }
        assert forall|e: int, b: int|
            0 <= e < graph.total_edges && #[trigger] is_end(graph, b, e) && b != h && connects(
                graph.arrow_avoiding(h),
                c,
                b,
            ) implies in_first(comps2, j + 1, e) by {
            assert(in_first(comps, j + 1, e));
            let (j1, i1) = choose|j1: int, i1: int|
                0 <= j1 < j + 1 && j1 < comps.len() && 0 <= i1 < comps[j1].len() && #[trigger] comps[j1][i1]
                    == e;
            assert(comps2.take(comps.len() as int)[j1] == comps2[j1]);
            assert(comps2[j1][i1] == e);
        }
    }
}

/// Two ends of one edge, both other than `h`, are connected without `h`.
pub proof fn lemma_ends_joined(graph: &Graph, h: int, e: int, a: int, b: int)
    requires
        graph.is_undirected(),
        is_end(graph, a, e),
        is_end(graph, b, e),
        a != h,
        b != h,
    ensures
        connects(graph.arrow_avoiding(h), a, b),
{
    let ka = choose|k: int| 0 <= k < graph.adj()[a].len() && (#[trigger] graph.adj()[a][k]).edge_index == e;
    let kb = choose|k: int| 0 <= k < graph.adj()[b].len() && (#[trigger] graph.adj()[b][k]).edge_index == e;
    graph.lemma_same_edge(a, ka, b, kb);
    if a == b {
        lemma_connects_self(graph.arrow_avoiding(h), a);
    } else {
        assert(graph.has_edge(a, b));
        lemma_connects_step(graph.arrow_avoiding(h), a, b);
    }
}

/// An edge of a later component has no end, other than the head of an
/// earlier component, that is connected to that component without its head.
pub proof fn lemma_later_edge_apart(
    graph: &Graph,
    comps: Seq<Seq<usize>>,
    heads: Seq<(int, int)>,
    j1: int,
    j2: int,
    i2: int,
    b: int,
)
    requires
        graph.is_undirected(),
        graph.indices_in_range(),
        block_inv(graph, comps, heads),
        comps.flatten().no_duplicates(),
        0 <= j1 < j2 < comps.len(),
        0 <= i2 < comps[j2].len(),
        is_end(graph, b, comps[j2][i2] as int),
        b != heads[j1].0,
    ensures
        !connects(graph.arrow_avoiding(heads[j1].0), heads[j1].1, b),
{
    let h = heads[j1].0;
    let c = heads[j1].1;
    let e = comps[j2][i2] as int;
    assert(block_ok(graph, comps, heads, j1));
    if connects(graph.arrow_avoiding(h), c, b) {
        let kb = choose|k: int| 0 <= k < graph.adj()[b].len() && (#[trigger] graph.adj()[b][k]).edge_index == e;
        assert(graph.adj()[b][kb].edge_index < graph.total_edges);
        assert(in_first(comps, j1 + 1, e));
        let (j, i) = choose|j: int, i: int|
            0 <= j < j1 + 1 && j < comps.len() && 0 <= i < comps[j].len() && #[trigger] comps[j][i] == e;
        lemma_flat_at(comps, j, i);
        lemma_flat_at(comps, j2, i2);
        lemma_flat_places_differ(comps, j, i, j2, i2);
    }
}

/// Two different components meet in at most one vertex, the head of the
/// earlier one, and that vertex is a cut vertex.
pub proof fn lemma_blocks_meet(
    graph: &Graph,
    comps: Seq<Seq<usize>>,
    heads: Seq<(int, int)>,
    j1: int,
    j2: int,
    x: int,
)
    requires
        graph.is_undirected(),
        graph.indices_in_range(),
        forall|u: int, k: int|
            0 <= u < graph.order() && 0 <= k < graph.adj()[u].len() ==> (#[trigger] graph.adj()[u][k]).to
                != u,
        block_inv(graph, comps, heads),
        comps.flatten().no_duplicates(),
        0 <= j1 < j2 < comps.len(),
        touches(graph, comps[j1], x),
        touches(graph, comps[j2], x),
    ensures
        x == heads[j1].0,
        graph.is_cut_vertex(x),
{
    let h = heads[j1].0;
    let c = heads[j1].1;
    let ra = graph.arrow_avoiding(h);
    assert(block_ok(graph, comps, heads, j1));
    let i1 = choose|i: int| 0 <= i < comps[j1].len() && is_end(graph, x, #[trigger] comps[j1][i] as int);
    let i2 = choose|i: int| 0 <= i < comps[j2].len() && is_end(graph, x, #[trigger] comps[j2][i] as int);
    let e1 = comps[j1][i1] as int;
    let e2 = comps[j2][i2] as int;
    assert(hangs_on(graph, h, c, e1));
    let a = choose|a: int| a != h && #[trigger] is_end(graph, a, e1) && connects(ra, c, a);
    if x != h {
        lemma_ends_joined(graph, h, e1, a, x);
        lemma_connects_trans(ra, c, a, x);
        lemma_later_edge_apart(graph, comps, heads, j1, j2, i2, x);
    }
    // the other end of the later edge
    let k2 = choose|k: int| 0 <= k < graph.adj()[h].len() && (#[trigger] graph.adj()[h][k]).edge_index == e2;
    let b = graph.adj()[h][k2].to as int;
    assert(b < graph.order());
    assert(graph.has_arc(b, h, e2));
    assert(is_end(graph, b, e2)) by {
        let kb = choose|kb: int|
            0 <= kb < graph.adj()[b].len() && (#[trigger] graph.adj()[b][kb]).to == h && graph.adj()[b][kb].edge_index
                == e2;
    }
    lemma_later_edge_apart(graph, comps, heads, j1, j2, i2, b);
    if connects(ra, a, b) {
        lemma_connects_trans(ra, c, a, b);
    }
    // with `h`, the two ends are connected
    graph.lemma_undirected_is_symmetric();
    assert forall|p: int, q: int| #[trigger] ra(p, q) implies graph.arrow()(p, q) by {}
    crate::walks::lemma_connects_mono(ra, graph.arrow(), c, a);
    graph.lemma_arrow_symmetric(c, a);
    assert(graph.has_edge(c, h));
    assert(graph.arrow()(c, h));
    lemma_connects_push(graph.arrow(), a, c, h);
    assert(graph.has_edge(h, b));
    assert(graph.arrow()(h, b));
    lemma_connects_push(graph.arrow(), a, h, b);
}

/// The head of the earlier of two components separates the edges of the
/// one from those of the other.
pub proof fn lemma_blocks_apart(
    graph: &Graph,
    comps: Seq<Seq<usize>>,
    heads: Seq<(int, int)>,
    j1: int,
    i1: int,
    j2: int,
    i2: int,
)
    requires
        graph.is_undirected(),
        graph.indices_in_range(),
        block_inv(graph, comps, heads),
        comps.flatten().no_duplicates(),
        0 <= j1 < j2 < comps.len(),
        0 <= i1 < comps[j1].len(),
        0 <= i2 < comps[j2].len(),
    ensures
        separates(graph, heads[j1].0, comps[j1][i1] as int, comps[j2][i2] as int),
        separates(graph, heads[j1].0, comps[j2][i2] as int, comps[j1][i1] as int),
{
    let h = heads[j1].0;
    let c = heads[j1].1;
    let ra = graph.arrow_avoiding(h);
    let e1 = comps[j1][i1] as int;
    let e2 = comps[j2][i2] as int;
    assert(block_ok(graph, comps, heads, j1));
    assert(hangs_on(graph, h, c, e1));
    let a0 = choose|a: int| a != h && #[trigger] is_end(graph, a, e1) && connects(ra, c, a);
    assert forall|a: int, b: int|
        #[trigger] is_end(graph, a, e1) && #[trigger] is_end(graph, b, e2) && a != h && b != h implies !connects(
        ra,
        a,
        b,
    ) && !connects(ra, b, a) by {
        lemma_later_edge_apart(graph, comps, heads, j1, j2, i2, b);
        lemma_ends_joined(graph, h, e1, a0, a);
        lemma_connects_trans(ra, c, a0, a);
        if connects(ra, a, b) {
            lemma_connects_trans(ra, c, a, b);
        }
        if connects(ra, b, a) {
            graph.lemma_avoiding_symmetric(h, b, a);
            lemma_connects_trans(ra, c, a, b);
        }
    }
}

/// The vertices under `v` stay under `v` while the search goes on.
pub proof fn lemma_stack_ends_move(
    graph: &Graph,
    stack: Seq<usize>,
    stack2: Seq<usize>,
    t: CutTree,
    t2: CutTree,
    v: int,
    w: int,
    from: int,
    to: int,
)
    requires
        stack_ends(graph, stack, t, v, from),
        t.colors.len() == graph.order(),
        forall|x: int|
            0 <= x < graph.order() && #[trigger] t.colors[x] != VisitColor::White ==> t2.colors[x]
                != VisitColor::White && t2.t_in[x] == t.t_in[x],
        0 <= w < graph.order(),
        t.colors[w] != VisitColor::White,
        0 <= v < graph.order(),
        t.colors[v] != VisitColor::White,
        t.t_in[w] <= t.t_in[v],
        0 <= from,
        to <= stack.len(),
        to <= stack2.len(),
        stack2.take(to) == stack.take(to),
    ensures
        forall|i: int| from <= i < to ==> ends_under(graph, t2, w, #[trigger] stack2[i] as int),
{
    assert forall|i: int| from <= i < to implies ends_under(graph, t2, w, #[trigger] stack2[i] as int) by {
        assert(stack2.take(to)[i] == stack2[i]);
        assert(stack.take(to)[i] == stack[i]);
        assert(ends_under(graph, t, v, stack[i] as int));
        let x = choose|x: int| #[trigger] is_end(graph, x, stack[i] as int) && under(graph, t, v)(x);
        assert(t.colors[x] != VisitColor::White);
        assert(under(graph, t2, w)(x));
    }
}

/// When the search returns from the child `c` to `v`, and `v` is a root or
/// the low-link value of `c` is not below the entry time of `v`, the edges
/// on the stack from the edge between them on make up a component with
/// head `(v, c)`.
pub proof fn lemma_block_pop(
    graph: &Graph,
    c0: CutState,
    c: CutState,
    mid: CutState,
    c2: CutState,
    t0: CutTree,
    tm: CutTree,
    t2: CutTree,
    low0: Seq<usize>,
    lowm: Seq<usize>,
    low2: Seq<usize>,
    heads: Seq<(int, int)>,
    v: int,
    pv: int,
    ev: int,
    k: int,
    first: int,
    comp: Seq<usize>,
)
    requires
        graph.indices_in_range(),
        cut_level(graph, c0, c, v, pv, ev, k),
        0 <= k < graph.adj()[v].len(),
        mid == (CutState {
            visited: c.visited.update(graph.adj()[v][k].edge_index as int, true),
            stack: c.stack.push(graph.adj()[v][k].edge_index),
            ..c
        }),
        cut_result(graph, mid, c2, graph.adj()[v][k].to as int, v),
        tree_level(graph, t0, tm, low0, lowm, v, pv, ev, k, first),
        tm.colors[graph.adj()[v][k].to as int] == VisitColor::White,
        tree_result(
            graph,
            tm,
            t2,
            lowm,
            low2,
            graph.adj()[v][k].to as int,
            v,
            graph.adj()[v][k].edge_index as int,
        ),
        c.colors == tm.colors,
        c2.colors == t2.colors,
        pv < 0 || low2[graph.adj()[v][k].to as int] >= tm.t_in[v],
        block_inv(graph, c2.comps, heads),
        stack_ends(graph, c2.stack, t2, graph.adj()[v][k].to as int, mid.stack.len() as int),
        stack_tied_up(graph, c2.stack, v, c.stack.len() as int),
        c2.stack.len() > c.stack.len(),
        c2.stack.take(c.stack.len() as int) == c.stack,
        c2.stack[c.stack.len() as int] == graph.adj()[v][k].edge_index,
        comp == c2.stack.skip(c.stack.len() as int).reverse(),
    ensures
        block_inv(
            graph,
            c2.comps.push(comp),
            heads.push((v, graph.adj()[v][k].to as int)),
        ),
{
    let n = graph.order();
    let to = graph.adj()[v][k].to as int;
    let ec = graph.adj()[v][k].edge_index as int;
    let at = c.stack.len() as int;
    let comps2 = c2.comps.push(comp);
    let heads2 = heads.push((v, to));
    let top = c2.comps.len() as int;
    let ra = graph.arrow_avoiding(v);
    let inside = under(graph, t2, to);
    assert(to < n);
    assert(to != v);
    assert(tm.colors[v] != VisitColor::White);
    assert(comps2.take(top) =~= c2.comps);
    assert(heads2.take(top) =~= heads);
    lemma_block_keeps(graph, c2.comps, heads, comps2, heads2);
    assert(graph.has_edge(v, to));
    // each edge of the new component hangs on the child
    assert forall|i: int| 0 <= i < comp.len() implies hangs_on(graph, v, to, #[trigger] comp[i] as int) by {
        let p = c2.stack.len() - 1 - i;
        assert(comp[i] == c2.stack.skip(at)[c2.stack.skip(at).len() - 1 - i]);
        assert(comp[i] == c2.stack[p]);
        if p == at {
            assert(graph.has_arc(to, v, ec));
            let kc = choose|kc: int|
                0 <= kc < graph.adj()[to].len() && (#[trigger] graph.adj()[to][kc]).to == v && graph.adj()[to][kc].edge_index
                    == ec;
            assert(is_end(graph, to, ec));
            lemma_connects_self(ra, to);
        } else {
            assert(ends_under(graph, t2, to, c2.stack[p] as int));
            let x = choose|x: int| #[trigger] is_end(graph, x, c2.stack[p] as int) && under(graph, t2, to)(x);
            lemma_child_holds(graph, tm, t2, lowm, low2, to, v, ec, x);
            graph.lemma_avoiding_symmetric(v, x, to);
            assert(t2.t_in[v] == tm.t_in[v]);
            assert(tm.t_in[v] < tm.time);
        }
    }
    assert forall|i: int, x: int| 0 <= i < comp.len() && x != v implies #[trigger] tied(
        graph,
        x,
        v,
        comp[i] as int,
    ) by {
        let p = c2.stack.len() - 1 - i;
        assert(comp[i] == c2.stack.skip(at)[c2.stack.skip(at).len() - 1 - i]);
        assert(comp[i] == c2.stack[p]);
        assert(tied(graph, x, v, c2.stack[p] as int));
    }
    // every edge that hangs on the child is in a component now
    assert forall|e: int, b: int|
        0 <= e < graph.total_edges && #[trigger] is_end(graph, b, e) && b != v && connects(ra, to, b) implies in_first(
        comps2,
        top + 1,
        e,
    ) by {
        assert forall|a: int, y: int| inside(a) && #[trigger] ra(a, y) implies inside(y) by {
            lemma_under_closed(graph, t0, tm, t2, low0, lowm, low2, v, pv, ev, k, first, a, y);
        }
        lemma_closed_holds(ra, inside, to, b);
        let kb = choose|kb: int| 0 <= kb < graph.adj()[b].len() && (#[trigger] graph.adj()[b][kb]).edge_index == e;
        crate::cuttree::lemma_under_is_new(graph, tm, t2, lowm, low2, to, v, ec, b);
        assert(cut_record_ok(graph, c2, -1, b, kb));
        assert(c2.visited[e]);
        if c2.stack.contains(e as usize) {
            let p = c2.stack.index_of(e as usize);
            if p < at {
                assert(c2.stack.take(at)[p] == c2.stack[p]);
                assert(c.stack[p] == e as usize);
                assert(c.visited[c.stack[p] as int]);
                assert(cut_record_ok(graph, c, -1, b, kb));
            } else {
                let i = c2.stack.len() - 1 - p;
                assert(comp[i] == c2.stack.skip(at)[c2.stack.skip(at).len() - 1 - i]);
                assert(comps2[top][i] == e as usize);
            }
        } else {
            let f = c2.comps.flatten();
            assert(f.contains(e as usize));
            let q = f.index_of(e as usize);
            let o = lemma_flat_origin(c2.comps, q);
            assert(comps2[o.0][o.1] == e as usize);
        }
    }
    assert(block_ok(graph, comps2, heads2, top));
}

/// No vertex separates two edges of one component.
pub proof fn lemma_block_joined(
    graph: &Graph,
    comps: Seq<Seq<usize>>,
    heads: Seq<(int, int)>,
    j: int,
    i1: int,
    i2: int,
    x: int,
)
    requires
        graph.is_undirected(),
        block_inv(graph, comps, heads),
        0 <= j < comps.len(),
        0 <= i1 < comps[j].len(),
        0 <= i2 < comps[j].len(),
    ensures
        joined_without(graph, x, comps[j][i1] as int, comps[j][i2] as int),
{
    let h = heads[j].0;
    let c = heads[j].1;
    let e1 = comps[j][i1] as int;
    let e2 = comps[j][i2] as int;
    let ra = graph.arrow_avoiding(x);
    assert(block_ok(graph, comps, heads, j));
    if x == h {
        assert(hangs_on(graph, h, c, e1));
        assert(hangs_on(graph, h, c, e2));
        let a = choose|a: int| a != h && #[trigger] is_end(graph, a, e1) && connects(ra, c, a);
        let b = choose|b: int| b != h && #[trigger] is_end(graph, b, e2) && connects(ra, c, b);
        graph.lemma_avoiding_symmetric(h, c, a);
        lemma_connects_trans(ra, a, c, b);
    } else {
        assert(tied(graph, x, h, e1));
        assert(tied(graph, x, h, e2));
        let a = choose|a: int| a != x && #[trigger] is_end(graph, a, e1) && connects(ra, a, h);
        let b = choose|b: int| b != x && #[trigger] is_end(graph, b, e2) && connects(ra, b, h);
        graph.lemma_avoiding_symmetric(x, b, h);
        lemma_connects_trans(ra, a, h, b);
    }
}

} // verus!
