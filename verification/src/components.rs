//! Connected components by repeated depth-first walks.

use crate::counting::lemma_distinct_cover_len;
use crate::decomposition::is_partition;
use crate::decomposition::rows;
use crate::decomposition::Decomposition;
use crate::dfs::has_parent_in;
use crate::dfs::is_sweep;
use crate::dfs::settled;
use crate::dfs::whole_walk;
use crate::dfs::DFSSpace;
use crate::flat::lemma_flat_at;
use crate::graph::Graph;
use crate::graph::VisitColor;
use crate::walks::both_ways;
use crate::walks::connects;
use crate::walks::lemma_both_ways_symmetric;
use crate::walks::lemma_closed_holds;
use crate::walks::lemma_connects_mono;
use crate::walks::lemma_connects_push;
use crate::walks::lemma_connects_self;
use crate::walks::lemma_connects_trans;
use vstd::prelude::*;
use vstd::seq_lib::lemma_no_dup_in_concat;

verus! {

/// The groups of `d` are what walks along the records of `graph` give when
/// each walk starts outside the earlier groups and stays outside them: every
/// group is non-empty, each of its entries but the first is reached by a
/// record from an earlier entry of the same group, and no record leads from
/// a group into a later one.
pub open spec fn is_reach_split(graph: &Graph, d: &Decomposition) -> bool {
    let g = d.groups();
    &&& d.wf()
    &&& d.elements == graph.order()
    &&& forall|k: int| 0 <= k < g.len() ==> (#[trigger] g[k]).len() > 0
    &&& forall|k: int, j: int|
        0 <= k < g.len() && 0 < j < g[k].len() ==> #[trigger] has_parent_in(graph, g[k], j)
    &&& forall|u: int, w: int| #[trigger] graph.has_edge(u, w) ==> d.group_of(w) <= d.group_of(u)
}

/// Each group starts with the least vertex that lies in no earlier group.
pub open spec fn roots_ascend(d: &Decomposition) -> bool {
    forall|k: int, x: int|
        0 <= k < d.groups().len() && 0 <= x < d.elements && k <= #[trigger] d.group_of(x)
            ==> (#[trigger] d.groups()[k])[0] <= x
}

/// The first entry of a block leads to each of its entries.
pub proof fn lemma_block_reached(graph: &Graph, block: Seq<usize>, j: int)
    requires
        0 <= j < block.len(),
        forall|i: int| 0 < i < block.len() ==> #[trigger] has_parent_in(graph, block, i),
    ensures
        connects(graph.arrow(), block[0] as int, block[j] as int),
    decreases j,
{
    if j == 0 {
        lemma_connects_self(graph.arrow(), block[0] as int);
    } else {
        assert(has_parent_in(graph, block, j));
        let i = choose|i: int| 0 <= i < j && graph.has_edge(#[trigger] block[i] as int, block[j] as int);
        lemma_block_reached(graph, block, i);
        assert(graph.arrow()(block[i] as int, block[j] as int));
        lemma_connects_push(graph.arrow(), block[0] as int, block[i] as int, block[j] as int);
    }
}

/// In a graph where every record has its mirror, two vertices lie in one
/// group of such a split exactly when a walk along records, each taken in
/// either direction, leads from one to the other.
pub proof fn lemma_groups_are_connected_components(graph: &Graph, d: &Decomposition, u: int, w: int)
    requires
        graph.wf(),
        graph.is_symmetric(),
        is_reach_split(graph, d),
        0 <= u < graph.order(),
        0 <= w < graph.order(),
    ensures
        (d.group_of(u) == d.group_of(w)) <==> connects(both_ways(graph.arrow()), u, w),
{
    let link = both_ways(graph.arrow());
    let g = d.groups();
    if d.group_of(u) == d.group_of(w) {
        let k = d.group_of(u);
        let ju = g[k].index_of(u as usize);
        let jw = g[k].index_of(w as usize);
        assert(g[k].contains(u as usize));
        assert(g[k].contains(w as usize));
        assert forall|i: int| 0 < i < g[k].len() implies #[trigger] has_parent_in(graph, g[k], i) by {}
        lemma_block_reached(graph, g[k], ju);
        lemma_block_reached(graph, g[k], jw);
        let root = g[k][0] as int;
        assert forall|a: int, b: int| #[trigger] graph.arrow()(a, b) implies link(a, b) by {}
        lemma_connects_mono(graph.arrow(), link, root, u);
        lemma_connects_mono(graph.arrow(), link, root, w);
        lemma_both_ways_symmetric(graph.arrow(), root, u);
        lemma_connects_trans(link, u, root, w);
    }
    if connects(link, u, w) {
        let inside = |x: int| 0 <= x < graph.order() && d.group_of(x) == d.group_of(u);
        assert forall|a: int, b: int| inside(a) && #[trigger] link(a, b) implies inside(b) by {
            if graph.has_edge(a, b) {
                assert(graph.has_edge(b, a));
            } else {
                assert(graph.has_edge(b, a));
                assert(graph.has_edge(a, b));
            }
            let k = choose|k: int| 0 <= k < graph.adj()[a].len() && (#[trigger] graph.adj()[a][k]).to == b;
            assert(graph.adj()[a][k].to < graph.order());
        }
        lemma_closed_holds(link, inside, u, w);
    }
}

/// The state between two walks of a search for groups: `rows` are the
/// groups found so far and `label` gives each vertex of a group its group
/// and every other vertex `-1`.
pub open spec fn split_core(
    graph: &Graph,
    colors: Seq<VisitColor>,
    rows: Seq<Seq<usize>>,
    label: Seq<int>,
) -> bool {
    let n = graph.order();
    &&& colors.len() == n
    &&& label.len() == n
    &&& n <= usize::MAX
    &&& forall|x: int|
        0 <= x < n ==> (#[trigger] colors[x] == VisitColor::White || colors[x] == VisitColor::Black)
    &&& forall|x: int|
        0 <= x < n ==> -1 <= #[trigger] label[x] < rows.len() && ((label[x] >= 0) == (colors[x]
            == VisitColor::Black))
    &&& forall|x: int|
        0 <= x < n && 0 <= #[trigger] label[x] ==> rows[label[x]].contains(x as usize)
    &&& forall|k: int, j: int|
        0 <= k < rows.len() && 0 <= j < rows[k].len() ==> (#[trigger] rows[k][j]) < n
            && label[rows[k][j] as int] == k
    &&& forall|k: int| 0 <= k < rows.len() ==> (#[trigger] rows[k]).len() > 0
    &&& forall|k: int, j: int|
        0 <= k < rows.len() && 0 < j < rows[k].len() ==> #[trigger] has_parent_in(graph, rows[k], j)
    &&& forall|u: int, w: int|
        0 <= u < n && 0 <= label[u] && #[trigger] graph.has_edge(u, w) ==> 0 <= label[w] <= label[u]
    &&& rows.flatten().no_duplicates()
    &&& forall|i: int|
        0 <= i < rows.flatten().len() ==> (#[trigger] rows.flatten()[i]) < n
            && colors[rows.flatten()[i] as int] == VisitColor::Black
}

/// The walks so far started from the vertices in ascending order: the
/// first `vertex` vertices are handled, and each group starts with the least
/// vertex outside the earlier groups.
pub open spec fn split_ascending(
    graph: &Graph,
    colors: Seq<VisitColor>,
    rows: Seq<Seq<usize>>,
    label: Seq<int>,
    vertex: int,
) -> bool {
    let n = graph.order();
    &&& 0 <= vertex <= n
    &&& forall|x: int| 0 <= x < vertex ==> colors[x] == VisitColor::Black
    &&& forall|k: int, x: int|
        0 <= k < rows.len() && 0 <= x < n && (#[trigger] label[x] < 0 || k <= label[x])
            ==> (#[trigger] rows[k])[0] <= x
}

/// The labels after the vertices of `block` have become group `k`.
pub open spec fn relabel(label: Seq<int>, block: Seq<usize>, k: int) -> Seq<int> {
    Seq::new(
        label.len(),
        |x: int|
            if block.contains(x as usize) {
                k
            } else {
                label[x]
            },
    )
}

/// A walk from a white vertex adds its block as one more group.
pub proof fn lemma_split_step(
    graph: &Graph,
    before: Seq<VisitColor>,
    after: Seq<VisitColor>,
    rows: Seq<Seq<usize>>,
    label: Seq<int>,
    vertex: int,
    block: Seq<usize>,
)
    requires
        graph.wf(),
        split_core(graph, before, rows, label),
        0 <= vertex < graph.order(),
        before[vertex] == VisitColor::White,
        is_sweep(graph, before, after, vertex, block),
    ensures
        split_core(graph, after, rows.push(block), relabel(label, block, rows.len() as int)),
        forall|j: int|
            0 <= j < block.len() ==> (#[trigger] block[j]) < graph.order() && before[block[j] as int]
                == VisitColor::White,
        forall|x: int|
            0 <= x < graph.order() ==> #[trigger] after[x] == (if block.contains(x as usize) {
                VisitColor::Black
            } else {
                before[x]
            }),
{
    let n = graph.order();
    let top = rows.len() as int;
    let rows2 = rows.push(block);
    let label2 = relabel(label, block, top);
    let flat = rows.flatten();
    rows.lemma_flatten_push(block);
    assert(rows2.flatten() == flat + block);
    assert forall|j: int| 0 <= j < block.len() implies (#[trigger] block[j]) < n && before[block[j] as int]
        == VisitColor::White && label[block[j] as int] == -1 by {}
    assert forall|i: int, j: int| 0 <= i < flat.len() && 0 <= j < block.len() implies flat[i]
        != block[j] by {}
    lemma_no_dup_in_concat(flat, block);
    assert forall|x: int| 0 <= x < n implies #[trigger] after[x] == (if block.contains(x as usize) {
        VisitColor::Black
    } else {
        before[x]
    }) by {
        let y = x as usize;
        assert(after[y as int] == (if block.contains(y) {
            VisitColor::Black
        } else {
            before[y as int]
        }));
    }
    assert forall|x: int| 0 <= x < n && 0 <= #[trigger] label2[x] implies rows2[label2[x]].contains(
        x as usize,
    ) by {
        if !block.contains(x as usize) {
            assert(rows[label[x]].contains(x as usize));
        }
    }
    assert forall|k: int, j: int| 0 <= k < rows2.len() && 0 <= j < rows2[k].len() implies (
    #[trigger] rows2[k][j]) < n && label2[rows2[k][j] as int] == k by {
        if k < top {
            assert(rows2[k][j] == rows[k][j]);
            if block.contains(rows[k][j]) {
                let i = block.index_of(rows[k][j]);
                assert(label[block[i] as int] == -1);
            }
        } else {
            assert(block.contains(block[j]));
        }
    }
    assert forall|k: int, j: int| 0 <= k < rows2.len() && 0 < j < rows2[k].len() implies #[trigger] has_parent_in(
        graph,
        rows2[k],
        j,
    ) by {
        if k < top {
            assert(has_parent_in(graph, rows[k], j));
        } else {
            assert(has_parent_in(graph, block, j));
        }
    }
    assert forall|u: int, w: int|
        0 <= u < n && 0 <= label2[u] && #[trigger] graph.has_edge(u, w) implies 0 <= label2[w]
        <= label2[u] by {
        let k = choose|k: int| 0 <= k < graph.adj()[u].len() && (#[trigger] graph.adj()[u][k]).to == w;
        assert(w < n);
        if block.contains(u as usize) {
            let j = block.index_of(u as usize);
            assert(settled(graph, after, block[j] as int));
            assert(after[graph.adj()[u][k].to as int] != VisitColor::White);
            assert(after[w] == VisitColor::Black);
        } else {
            assert(0 <= label[w] <= label[u]);
            if block.contains(w as usize) {
                let j = block.index_of(w as usize);
                assert(label[block[j] as int] == -1);
            }
        }
    }
    assert forall|i: int| 0 <= i < rows2.flatten().len() implies (#[trigger] rows2.flatten()[i]) < n
        && after[rows2.flatten()[i] as int] == VisitColor::Black by {
        if i < flat.len() {
            assert(rows2.flatten()[i] == flat[i]);
        } else {
            assert(rows2.flatten()[i] == block[i - flat.len()]);
            assert(block.contains(block[i - flat.len()]));
        }
    }
}

proof fn lemma_ascending_step(
    graph: &Graph,
    before: Seq<VisitColor>,
    after: Seq<VisitColor>,
    rows: Seq<Seq<usize>>,
    label: Seq<int>,
    vertex: int,
    block: Seq<usize>,
)
    requires
        graph.wf(),
        split_core(graph, before, rows, label),
        split_ascending(graph, before, rows, label, vertex),
        vertex < graph.order(),
        before[vertex] == VisitColor::White,
        is_sweep(graph, before, after, vertex, block),
    ensures
        split_ascending(
            graph,
            after,
            rows.push(block),
            relabel(label, block, rows.len() as int),
            vertex + 1,
        ),
{
    let n = graph.order();
    let top = rows.len() as int;
    let rows2 = rows.push(block);
    let label2 = relabel(label, block, top);
    lemma_split_step(graph, before, after, rows, label, vertex, block);
    assert forall|j: int| 0 <= j < block.len() implies label[#[trigger] block[j] as int] == -1 by {}
    assert(block.contains(vertex as usize)) by {
        assert(block[0] == vertex);
    }
    assert forall|k: int, x: int|
        0 <= k < rows2.len() && 0 <= x < n && (#[trigger] label2[x] < 0 || k <= label2[x]) implies (
    #[trigger] rows2[k])[0] <= x by {
        if k < top {
            assert(rows2[k] == rows[k]);
            if block.contains(x as usize) {
                let j = block.index_of(x as usize);
                assert(label[block[j] as int] == -1);
                assert(label[x] < 0);
            }
        } else {
            if x < vertex {
                assert(before[x] == VisitColor::Black);
                assert(label[x] >= 0);
                assert(!block.contains(x as usize)) by {
                    if block.contains(x as usize) {
                        let j = block.index_of(x as usize);
                        assert(label[block[j] as int] == -1);
                    }
                }
            }
        }
    }
}

/// When every vertex is black the groups hold every vertex exactly once.
pub proof fn lemma_split_done(
    graph: &Graph,
    colors: Seq<VisitColor>,
    rows: Seq<Seq<usize>>,
    label: Seq<int>,
)
    requires
        split_core(graph, colors, rows, label),
        forall|x: int| 0 <= x < graph.order() ==> colors[x] == VisitColor::Black,
    ensures
        is_partition(rows),
        rows.flatten().len() == graph.order(),
{
    let n = graph.order();
    let flat = rows.flatten();
    assert forall|v: usize| 0 <= v < n implies flat.contains(v) by {
        assert(colors[v as int] == VisitColor::Black);
        let k = label[v as int];
        assert(rows[k].contains(v));
        let j = rows[k].index_of(v);
        lemma_flat_at(rows, k, j);
    }
    lemma_distinct_cover_len(flat, n);
}

/// The groups that the walks from the vertices `from`, `from + 1`, and so
/// on find, each walk starting from a vertex that is still white.
pub open spec fn walked_groups(graph: &Graph, colors: Seq<VisitColor>, from: int) -> Seq<Seq<usize>>
    decreases graph.order() - from,
{
    if from < 0 || from >= graph.order() {
        Seq::empty()
    } else if colors[from] == VisitColor::White {
        let found = whole_walk(graph, colors, from);
        seq![found.1] + walked_groups(graph, found.0, from + 1)
    } else {
        walked_groups(graph, colors, from + 1)
    }
}

impl DFSSpace {
    /// Splits the vertices into groups by walking depth-first from each
    /// vertex, in ascending order, that no earlier walk has reached. In a
    /// graph where every record has its mirror the groups are the connected
    /// components.
    pub fn find_connected_components(&mut self, graph: &Graph) -> (d: Decomposition)
        requires
            graph.wf(),
            old(self).visit_colors@.len() == graph.order(),
            old(self).all_white(),
        ensures
            d.groups() == walked_groups(graph, old(self).visit_colors@, 0),
            is_reach_split(graph, &d),
            roots_ascend(&d),
            graph.is_symmetric() ==> forall|u: int, w: int|
                0 <= u < graph.order() && 0 <= w < graph.order() ==> ((#[trigger] d.group_of(u)
                    == #[trigger] d.group_of(w)) <==> connects(both_ways(graph.arrow()), u, w)),
            final(self).time == old(self).time,
            final(self).t_in == old(self).t_in,
            final(self).t_out == old(self).t_out,
            final(self).children == old(self).children,
            final(self).visit_colors@.len() == graph.order(),
            forall|x: int|
                0 <= x < graph.order() ==> final(self).visit_colors@[x] == VisitColor::Black,
    {
        let n: usize = graph.vertexes();
        let mut components: Vec<Vec<usize>> = Vec::new();
        let ghost mut label: Seq<int> = Seq::new(n as nat, |x: int| -1int);
        let mut vertex: usize = 0;
        proof {
            assert(rows(components@) =~= Seq::<Seq<usize>>::empty());
            graph.lemma_order_fits();
            assert(rows(components@) + walked_groups(graph, self.visit_colors@, 0) =~= walked_groups(
                graph,
                self.visit_colors@,
                0,
            ));
        }
        while vertex < n
            invariant
                graph.wf(),
                n == graph.order(),
                vertex <= n,
                self.time == old(self).time,
                self.t_in == old(self).t_in,
                self.t_out == old(self).t_out,
                self.children == old(self).children,
                split_core(graph, self.visit_colors@, rows(components@), label),
                split_ascending(graph, self.visit_colors@, rows(components@), label, vertex as int),
                walked_groups(graph, old(self).visit_colors@, 0) == rows(components@) + walked_groups(
                    graph,
                    self.visit_colors@,
                    vertex as int,
                ),
            decreases n - vertex,
        {
            if self.visit_colors[vertex] == VisitColor::White {
                let ghost before = self.visit_colors@;
                let ghost found = rows(components@);
                let mut block: Vec<usize> = Vec::new();
                self.dfs_preorder_with(graph, vertex, &mut block);
                proof {
                    assert(block@.skip(0) =~= block@);
                    assert(found + (seq![block@] + walked_groups(graph, self.visit_colors@, vertex + 1))
                        =~= found.push(block@) + walked_groups(graph, self.visit_colors@, vertex + 1));
                    lemma_split_step(graph, before, self.visit_colors@, found, label, vertex as int, block@);
                    lemma_ascending_step(graph, before, self.visit_colors@, found, label, vertex as int, block@);
                    label = relabel(label, block@, found.len() as int);
                }
                components.push(block);
                proof {
                    assert(rows(components@) =~= found.push(block@));
                }
            }
            vertex += 1;
        }
        proof {
            lemma_split_done(graph, self.visit_colors@, rows(components@), label);
            assert(rows(components@) + Seq::<Seq<usize>>::empty() =~= rows(components@));
        }
        let ghost found = rows(components@);
        let d = Decomposition::from_component_list(components);
        proof {
            assert(d.groups() == found);
            assert forall|x: int| 0 <= x < n implies #[trigger] d.group_of(x) == label[x] by {
                let k = label[x];
                assert(found[k].contains(x as usize));
                let j = found[k].index_of(x as usize);
                assert(found[k][j] == x as usize);
            }
            assert forall|u: int, w: int| #[trigger] graph.has_edge(u, w) implies d.group_of(w)
                <= d.group_of(u) by {
                let k = choose|k: int| 0 <= k < graph.adj()[u].len() && (#[trigger] graph.adj()[u][k]).to == w;
                assert(graph.adj()[u][k].to < n);
            }
            if graph.is_symmetric() {
                assert forall|u: int, w: int| 0 <= u < graph.order() && 0 <= w < graph.order() implies (
                (#[trigger] d.group_of(u) == #[trigger] d.group_of(w)) <==> connects(
                    both_ways(graph.arrow()),
                    u,
                    w,
                )) by {
                    lemma_groups_are_connected_components(graph, &d, u, w);
                }
            }
        }
        d
    }
}

} // verus!
