//! Strongly connected components and the graph of their connections.

use crate::components::lemma_split_done;
use crate::components::lemma_split_step;
use crate::components::relabel;
use crate::components::split_core;
use crate::decomposition::rows;
use crate::decomposition::Decomposition;
use crate::dfs::has_parent_in;
use crate::dfs::is_sweep;
use crate::dfs::DFSSpace;
use crate::flat::lemma_offset_next;
use crate::flat::lemma_offset_zero;
use crate::flat::offset;
use crate::graph::adjacency_of;
use crate::graph::lemma_adjacency_empty;
use crate::graph::lemma_adjacency_push;
use crate::graph::Edge;
use crate::graph::Graph;
use crate::graph::VisitColor;
use crate::graph::WeightedEdge;
use crate::timing::by_falling_exit;
use crate::timing::has_cycle;
use crate::timing::is_traversal_timing;
use crate::timing::is_vertex_listing;
use crate::timing::left_by;
use crate::timing::lemma_late_exit_leads_back;
use crate::transform::deduplicated_adj;
use crate::transform::lemma_record_at;
use crate::transform::lemma_records_grow;
use crate::transform::records_of;
use crate::transform::tagged_lists;
use crate::walks::connects;
use crate::walks::into;
use crate::walks::lemma_closed_holds;
use crate::walks::lemma_connects_mono;
use crate::walks::lemma_connects_self;
use crate::walks::lemma_connects_step;
use crate::walks::lemma_connects_trans;
use crate::dfs::all_white_colors;
use crate::dfs::whole_walk;
use crate::topsort::marks_of;
use crate::topsort::timed_sweep;
use crate::transform::reversed_adj;
use vstd::prelude::*;

verus! {

/// Each of the two vertices leads to the other.
pub open spec fn strongly_connected(graph: &Graph, u: int, w: int) -> bool {
    connects(graph.arrow(), u, w) && connects(graph.arrow(), w, u)
}

/// The groups of `d` are the strongly connected components of `graph`,
/// numbered so that no record leads from a group to an earlier one.
pub open spec fn is_scc_split(graph: &Graph, d: &Decomposition) -> bool {
    &&& d.wf()
    &&& d.elements == graph.order()
    &&& forall|u: int, w: int|
        0 <= u < graph.order() && 0 <= w < graph.order() ==> ((#[trigger] d.group_of(u)
            == #[trigger] d.group_of(w)) <==> strongly_connected(graph, u, w))
    &&& forall|u: int, w: int| #[trigger] graph.has_edge(u, w) ==> d.group_of(u) <= d.group_of(w)
}

/// Some record of `graph` leads from group `a` to the different group `b`.
pub open spec fn joins(graph: &Graph, d: &Decomposition, a: int, b: int) -> bool {
    &&& a != b
    &&& exists|u: int, w: int|
        #[trigger] graph.has_edge(u, w) && 0 <= w < graph.order() && d.group_of(u) == a && d.group_of(w) == b
}

/// The test that keeps the records whose end points lie in different groups.
pub open spec fn crosses(map: Seq<usize>) -> spec_fn((int, Edge)) -> bool {
    |a: (int, Edge)| map[a.0] != map[a.1.to as int]
}

/// The groups of the end points of a record.
pub open spec fn lifted(map: Seq<usize>) -> spec_fn((int, Edge)) -> (int, int) {
    |a: (int, Edge)| (map[a.0] as int, map[a.1.to as int] as int)
}

/// Records from the first to the second entry of each pair, numbered by
/// their place.
pub open spec fn numbered(pairs: Seq<(int, int)>) -> Seq<(int, Edge)> {
    Seq::new(
        pairs.len(),
        |i: int| (pairs[i].0, WeightedEdge { to: pairs[i].1 as usize, edge_index: i as usize, weight: () }),
    )
}

/// The lists of the graph on the groups: each record between different
/// groups, in scan order, becomes a record between its groups.
pub open spec fn quotient_adj(adj: Seq<Seq<Edge>>, map: Seq<usize>, groups: int) -> Seq<Seq<Edge>> {
    adjacency_of(numbered(records_of(adj).filter(crosses(map)).map_values(lifted(map))), groups)
}

/// Among the records handled before record `k` of vertex `v`, one leads
/// from group `a` to group `b`.
pub open spec fn seen_join(graph: &Graph, map: Seq<usize>, a: int, b: int, v: int, k: int) -> bool {
    exists|u: int, k1: int|
        0 <= u < graph.order() && 0 <= k1 < graph.adj()[u].len() && (u < v || (u == v && k1 < k))
            && map[u] == a && map[(#[trigger] graph.adj()[u][k1]).to as int] == b
}

/// Appending a record from `v` adds the step from `v` to its end and no other.
pub proof fn lemma_has_edge_pushed(before: &Graph, after: &Graph, v: int, r: Edge, a: int, b: int)
    requires
        0 <= v < before.order(),
        after.adj() == before.adj().update(v, before.adj()[v].push(r)),
    ensures
        after.has_edge(a, b) <==> before.has_edge(a, b) || (a == v && b == r.to),
{
    assert(after.adj().len() == before.adj().len());
    if after.has_edge(a, b) {
        let k = choose|k: int| 0 <= k < after.adj()[a].len() && (#[trigger] after.adj()[a][k]).to == b;
        if a == v && k == before.adj()[v].len() {
        } else {
            assert(before.adj()[a][k] == after.adj()[a][k]);
        }
    }
    if before.has_edge(a, b) {
        let k = choose|k: int| 0 <= k < before.adj()[a].len() && (#[trigger] before.adj()[a][k]).to == b;
        assert(after.adj()[a][k] == before.adj()[a][k]);
    }
    if a == v && b == r.to {
        assert(after.adj()[v][before.adj()[v].len() as int] == r);
    }
}

/// The graph on the groups of `decomposition`: one record for each record
/// of `graph` that leads from one group to another.
pub fn quotient_graph(graph: &Graph, decomposition: &Decomposition) -> (q: Graph)
    requires
        graph.wf(),
        graph.record_count() <= usize::MAX,
        decomposition.wf(),
        decomposition.elements == graph.order(),
    ensures
        q.order() == decomposition.groups().len(),
        q.adj() == quotient_adj(
            graph.adj(),
            decomposition.component_map@,
            decomposition.groups().len() as int,
        ),
        q.total_edges == q.record_count(),
        q.record_count() <= graph.record_count(),
        q.wf(),
        forall|a: int, b: int| #[trigger] q.has_edge(a, b) <==> joins(graph, decomposition, a, b),
{
    let n: usize = graph.vertexes();
    let groups: usize = decomposition.component_list.len();
    let mut q = Graph::new(groups);
    let ghost adj = graph.adj();
    let ghost recs = records_of(adj);
    let ghost map = decomposition.component_map@;
    let ghost mut pairs: Seq<(int, int)> = Seq::empty();
    let ghost mut pos: int = 0;
    proof {
        lemma_adjacency_empty::<()>(groups as int);
        assert(numbered(pairs) =~= Seq::<(int, Edge)>::empty());
        assert forall|v: int| 0 <= v < groups implies #[trigger] q.adj()[v] =~= adjacency_of(
            numbered(pairs),
            groups as int,
        )[v] by {}
        assert(q.adj() =~= adjacency_of(numbered(pairs), groups as int));
        lemma_offset_zero(tagged_lists(adj));
        assert(recs.take(0) =~= Seq::<(int, Edge)>::empty());
        recs.take(0).lemma_filter_len(crosses(map));
        crate::flat::lemma_flat_of_empty_rows(tagged_lists(q.adj()));
        assert forall|a: int, b: int| !(#[trigger] q.has_edge(a, b)) by {}
    }
    let mut v: usize = 0;
    while v < n
        invariant
            v <= n,
            n == graph.order(),
            groups == decomposition.groups().len(),
            graph.wf(),
            decomposition.wf(),
            decomposition.elements == n,
            adj == graph.adj(),
            recs == records_of(adj),
            map == decomposition.component_map@,
            recs.len() <= usize::MAX,
            q.order() == groups,
            q.wf(),
            pos == offset(tagged_lists(adj), v as int),
            0 <= pos <= recs.len(),
            pairs == recs.take(pos).filter(crosses(map)).map_values(lifted(map)),
            pairs.len() <= pos,
            q.total_edges == pairs.len(),
            q.record_count() == pairs.len(),
            q.adj() == adjacency_of(numbered(pairs), groups as int),
            forall|a: int, b: int|
                #[trigger] q.has_edge(a, b) <==> a != b && seen_join(graph, map, a, b, v as int, 0),
        decreases n - v,
    {
        let size: usize = graph.edges[v].len();
        let mut k: usize = 0;
        while k < size
            invariant
                v < n,
                k <= size,
                size == adj[v as int].len(),
                n == graph.order(),
                groups == decomposition.groups().len(),
                graph.wf(),
                decomposition.wf(),
                decomposition.elements == n,
                adj == graph.adj(),
                recs == records_of(adj),
                map == decomposition.component_map@,
                recs.len() <= usize::MAX,
                q.order() == groups,
                q.wf(),
                pos == offset(tagged_lists(adj), v as int) + k,
                0 <= pos <= recs.len(),
                pairs == recs.take(pos).filter(crosses(map)).map_values(lifted(map)),
                pairs.len() <= pos,
                q.total_edges == pairs.len(),
                q.record_count() == pairs.len(),
                q.adj() == adjacency_of(numbered(pairs), groups as int),
                forall|a: int, b: int|
                    #[trigger] q.has_edge(a, b) <==> a != b && seen_join(graph, map, a, b, v as int, k as int),
            decreases size - k,
        {
            let edge = graph.edges[v][k];
            assert(edge == adj[v as int][k as int]);
            assert(edge.to < n);
            let from = decomposition.component_of(v);
            let to = decomposition.component_of(edge.to);
            let ghost earlier = q;
            proof {
                lemma_record_at(adj, v as int, k as int);
                assert(recs.take(pos + 1) =~= recs.take(pos).push(recs[pos]));
                recs.take(pos).lemma_filter_push(recs[pos], crosses(map));
                assert(map[v as int] < groups);
                assert(map[edge.to as int] < groups);
            }
            if from != to {
                proof {
                    let p = (from as int, to as int);
                    let kept = recs.take(pos).filter(crosses(map));
                    assert(kept.push(recs[pos]).map_values(lifted(map)) =~= pairs.push(p));
                    let a = (from as int, WeightedEdge { to, edge_index: pairs.len() as usize, weight: () });
                    assert(numbered(pairs.push(p)) =~= numbered(pairs).push(a));
                    lemma_adjacency_push(numbered(pairs), groups as int, a);
                    lemma_records_grow(q.adj(), a.0, a.1);
                    pairs = pairs.push(p);
                }
                q.add_directed_edge(from, to);
            }
            proof {
                assert forall|a: int, b: int|
                    #[trigger] q.has_edge(a, b) <==> a != b && seen_join(graph, map, a, b, v as int, k + 1) by {
                    if from != to {
                        lemma_has_edge_pushed(
                            &earlier,
                            &q,
                            from as int,
                            WeightedEdge { to, edge_index: earlier.total_edges, weight: () },
                            a,
                            b,
                        );
                    }
                    if seen_join(graph, map, a, b, v as int, k as int) {
                        let (u, k1) = choose|u: int, k1: int|
                            0 <= u < graph.order() && 0 <= k1 < graph.adj()[u].len() && (u < v || (u == v
                                && k1 < k)) && map[u] == a && map[(#[trigger] graph.adj()[u][k1]).to as int]
                                == b;
                        assert(u < v || (u == v && k1 < k + 1));
                    }
                    if a == from && b == to {
                        assert(map[adj[v as int][k as int].to as int] == b);
                        assert(seen_join(graph, map, a, b, v as int, k + 1));
                    }
                    if seen_join(graph, map, a, b, v as int, k + 1) {
                        let (u, k1) = choose|u: int, k1: int|
                            0 <= u < graph.order() && 0 <= k1 < graph.adj()[u].len() && (u < v || (u == v
                                && k1 < k + 1)) && map[u] == a && map[(#[trigger] graph.adj()[u][k1]).to as int]
                                == b;
                        if u == v && k1 == k {
                        } else {
                            assert(u < v || (u == v && k1 < k));
                            assert(seen_join(graph, map, a, b, v as int, k as int));
                        }
                    }
                }
                pos = pos + 1;
            }
            k += 1;
        }
        proof {
            lemma_offset_next(tagged_lists(adj), v as int);
            assert forall|a: int, b: int| seen_join(graph, map, a, b, v as int, size as int) == seen_join(
                graph,
                map,
                a,
                b,
                v + 1,
                0,
            ) by {
                if seen_join(graph, map, a, b, v as int, size as int) {
                    let (u, k1) = choose|u: int, k1: int|
                        0 <= u < graph.order() && 0 <= k1 < graph.adj()[u].len() && (u < v || (u == v && k1
                            < size)) && map[u] == a && map[(#[trigger] graph.adj()[u][k1]).to as int] == b;
                    assert(u < v + 1 || (u == v + 1 && k1 < 0));
                }
                if seen_join(graph, map, a, b, v + 1, 0) {
                    let (u, k1) = choose|u: int, k1: int|
                        0 <= u < graph.order() && 0 <= k1 < graph.adj()[u].len() && (u < v + 1 || (u == v
                            + 1 && k1 < 0)) && map[u] == a && map[(#[trigger] graph.adj()[u][k1]).to as int]
                            == b;
                    assert(u < v || (u == v && k1 < size));
                }
            }
        }
        v += 1;
    }
    proof {
        lemma_offset_zero(tagged_lists(adj));
        assert(recs.take(recs.len() as int) =~= recs);
        assert forall|a: int, b: int| #[trigger] q.has_edge(a, b) <==> joins(graph, decomposition, a, b) by {
            if seen_join(graph, map, a, b, n as int, 0) {
                let (u, k1) = choose|u: int, k1: int|
                    0 <= u < graph.order() && 0 <= k1 < graph.adj()[u].len() && (u < n || (u == n && k1 < 0))
                        && map[u] == a && map[(#[trigger] graph.adj()[u][k1]).to as int] == b;
                assert(graph.has_edge(u, graph.adj()[u][k1].to as int));
                assert(graph.adj()[u][k1].to < n);
            }
            if joins(graph, decomposition, a, b) {
                let (u, w) = choose|u: int, w: int| #[trigger]
                    graph.has_edge(u, w) && 0 <= w < graph.order() && decomposition.group_of(u) == a
                        && decomposition.group_of(w) == b;
                let k1 = choose|k1: int| 0 <= k1 < graph.adj()[u].len() && (#[trigger] graph.adj()[u][k1]).to == w;
                assert(seen_join(graph, map, a, b, n as int, 0));
            }
        }
    }
    q
}

/// In the reversed graph `rg` of `graph`, every entry of a block whose
/// entries were all left no later than its first entry leads, in `graph`,
/// to the first entry through vertices left no later than that.
proof fn lemma_block_back(graph: &Graph, rg: &Graph, t_out: Seq<usize>, block: Seq<usize>, j: int)
    requires
        0 <= j < block.len(),
        t_out.len() == graph.order(),
        forall|u: int, w: int| #[trigger] rg.has_edge(u, w) <==> graph.has_edge(w, u),
        forall|i: int| 0 < i < block.len() ==> #[trigger] has_parent_in(rg, block, i),
        forall|i: int|
            0 <= i < block.len() ==> (#[trigger] block[i]) < graph.order() && t_out[block[i] as int]
                <= t_out[block[0] as int],
    ensures
        connects(into(graph.arrow(), left_by(t_out, block[0] as int)), block[j] as int, block[0] as int),
    decreases j,
{
    let r = into(graph.arrow(), left_by(t_out, block[0] as int));
    if j == 0 {
        lemma_connects_self(r, block[0] as int);
    } else {
        assert(has_parent_in(rg, block, j));
        let i = choose|i: int| 0 <= i < j && rg.has_edge(#[trigger] block[i] as int, block[j] as int);
        lemma_block_back(graph, rg, t_out, block, i);
        assert(graph.has_edge(block[j] as int, block[i] as int));
        assert(left_by(t_out, block[0] as int)(block[i] as int));
        assert(r(block[j] as int, block[i] as int));
        lemma_connects_step(r, block[j] as int, block[i] as int);
        lemma_connects_trans(r, block[j] as int, block[i] as int, block[0] as int);
    }
}

/// The first entry of each group and each entry of that group lead to each other.
pub open spec fn groups_hang_together(graph: &Graph, rows: Seq<Seq<usize>>) -> bool {
    forall|k: int, j: int|
        0 <= k < rows.len() && 0 <= j < rows[k].len() ==> strongly_connected(
            graph,
            (#[trigger] rows[k])[0] as int,
            #[trigger] rows[k][j] as int,
        )
}

/// A walk of the reversed graph from the vertex that was left last among
/// the white ones reaches only vertices that lead to each other with it.
proof fn lemma_scc_step(
    graph: &Graph,
    rg: &Graph,
    t_in: Seq<usize>,
    t_out: Seq<usize>,
    t0: int,
    time: int,
    order: Seq<usize>,
    before: Seq<VisitColor>,
    after: Seq<VisitColor>,
    i: int,
    block: Seq<usize>,
)
    requires
        graph.wf(),
        is_traversal_timing(graph, t_in, t_out, t0, time),
        is_vertex_listing(graph, order),
        by_falling_exit(order, t_out),
        forall|u: int, w: int| #[trigger] rg.has_edge(u, w) <==> graph.has_edge(w, u),
        rg.order() == graph.order(),
        before.len() == graph.order(),
        0 <= i < order.len(),
        forall|i1: int| 0 <= i1 < i ==> before[#[trigger] order[i1] as int] != VisitColor::White,
        is_sweep(rg, before, after, order[i] as int, block),
    ensures
        forall|j: int|
            0 <= j < block.len() ==> strongly_connected(graph, block[0] as int, #[trigger] block[j] as int),
{
    let root = order[i] as int;
    assert forall|j: int| 0 <= j < block.len() implies (#[trigger] block[j]) < graph.order() && t_out[block[j] as int]
        <= t_out[block[0] as int] by {
        if j > 0 {
            let x = block[j];
            assert(before[x as int] == VisitColor::White);
            assert(order.contains(x));
            let p = order.index_of(x);
            if p < i {
                assert(before[order[p] as int] != VisitColor::White);
            }
            if p > i {
                assert(t_out[order[i] as int] > t_out[order[p] as int]);
            }
        }
    }
    assert forall|j: int| 0 <= j < block.len() implies strongly_connected(
        graph,
        block[0] as int,
        #[trigger] block[j] as int,
    ) by {
        let x = block[j] as int;
        lemma_block_back(graph, rg, t_out, block, j);
        let r = into(graph.arrow(), left_by(t_out, root));
        lemma_late_exit_leads_back(graph, t_in, t_out, t0, time, x, root);
        assert forall|a: int, b: int| #[trigger] r(a, b) implies graph.arrow()(a, b) by {}
        lemma_connects_mono(r, graph.arrow(), x, root);
    }
}

/// Where no record leads to an earlier group, a vertex leads only to
/// vertices of its own group or of later ones.
proof fn lemma_groups_only_rise(graph: &Graph, d: &Decomposition, u: int, w: int)
    requires
        graph.wf(),
        d.wf(),
        d.elements == graph.order(),
        forall|a: int, b: int| #[trigger] graph.has_edge(a, b) ==> d.group_of(a) <= d.group_of(b),
        0 <= u < graph.order(),
        connects(graph.arrow(), u, w),
    ensures
        0 <= w < graph.order(),
        d.group_of(u) <= d.group_of(w),
{
    let inside = |x: int| 0 <= x < graph.order() && d.group_of(u) <= d.group_of(x);
    assert forall|a: int, b: int| inside(a) && #[trigger] graph.arrow()(a, b) implies inside(b) by {
        let k = choose|k: int| 0 <= k < graph.adj()[a].len() && (#[trigger] graph.adj()[a][k]).to == b;
        assert(graph.adj()[a][k].to < graph.order());
        assert(graph.has_edge(a, b));
    }
    lemma_closed_holds(graph.arrow(), inside, u, w);
}

/// A graph whose records all lead to a vertex with a larger number has no cycle.
pub proof fn lemma_rising_records_mean_acyclic(graph: &Graph)
    requires
        graph.wf(),
        forall|a: int, b: int| #[trigger] graph.has_edge(a, b) ==> a < b,
    ensures
        !has_cycle(graph),
{
    if has_cycle(graph) {
        let (u, w) = choose|u: int, w: int| #[trigger]
            graph.has_edge(u, w) && connects(graph.arrow(), w, u);
        let inside = |x: int| w <= x;
        assert forall|a: int, b: int| inside(a) && #[trigger] graph.arrow()(a, b) implies inside(b) by {
            assert(graph.has_edge(a, b));
        }
        lemma_closed_holds(graph.arrow(), inside, w, u);
    }
}

/// The groups that the walks find when they start, in the order of
/// `roots`, from each vertex that is still white.
pub open spec fn listed_groups(graph: &Graph, colors: Seq<VisitColor>, roots: Seq<usize>, from: int) -> Seq<
    Seq<usize>,
>
    decreases roots.len() - from,
{
    if from < 0 || from >= roots.len() {
        Seq::empty()
    } else if colors[roots[from] as int] == VisitColor::White {
        let found = whole_walk(graph, colors, roots[from] as int);
        seq![found.1] + listed_groups(graph, found.0, roots, from + 1)
    } else {
        listed_groups(graph, colors, roots, from + 1)
    }
}

/// The groups are those that the walks in the graph `back` find, started
/// from the vertices in the order in which the timed traversal of `graph`
/// left them, last first.
#[verifier::opaque]
pub open spec fn found_backwards(graph: &Graph, back: &Graph, s: &DFSSpace, groups: Seq<Seq<usize>>) -> bool {
    &&& back.adj() == reversed_adj(graph.adj())
    &&& groups == listed_groups(
        back,
        all_white_colors(graph.order()),
        timed_sweep(graph, marks_of(s, Seq::empty()), 0).left.reverse(),
        0,
    )
}

impl DFSSpace {
    /// Finds the strongly connected components and builds the graph of
    /// their connections. The components are numbered so that every record
    /// between two of them leads from the smaller number to the larger; the
    /// second result maps each vertex to its component, and the first
    /// result has one vertex per component and one edge between two
    /// components where some record leads from the one to the other.
    pub fn condensation(&mut self, graph: &Graph) -> (r: (Graph, Decomposition))
        requires
            graph.wf(),
            graph.record_count() <= usize::MAX,
            old(self).fits(graph),
            old(self).all_white(),
            old(self).time + 2 * graph.order() <= usize::MAX,
        ensures
            exists|back: Graph| #[trigger] found_backwards(graph, &back, old(self), r.1.groups()),
            is_scc_split(graph, &r.1),
            r.0.order() == r.1.groups().len(),
            r.0.adj() == deduplicated_adj(
                quotient_adj(graph.adj(), r.1.component_map@, r.1.groups().len() as int),
                false,
            ),
            r.0.wf(),
            r.0.is_compact(),
            forall|a: int, b: int| #[trigger] r.0.has_edge(a, b) <==> joins(graph, &r.1, a, b),
            forall|a: int, b: int| #[trigger] r.0.has_edge(a, b) ==> a < b,
            !has_cycle(&r.0),
            forall|u: int, w: int|
                0 <= w < graph.order() && #[trigger] graph.has_edge(u, w) ==> r.1.group_of(u)
                    == r.1.group_of(w) || r.0.has_edge(r.1.group_of(u), r.1.group_of(w)),
            final(self).fits(graph),
            final(self).time == 0,
            final(self).no_children(),
            forall|x: int|
                0 <= x < graph.order() ==> final(self).visit_colors@[x] == VisitColor::Black,
            forall|x: int|
                0 <= x < graph.order() ==> final(self).t_in@[x] == 0 && final(self).t_out@[x] == 0,
    {
        let ghost t0 = self.time as int;
        let n: usize = graph.vertexes();
        let quasi_topsort = self.topological_sort(graph).0;
        let ghost t_in = self.t_in@;
        let ghost t_out = self.t_out@;
        let ghost time = self.time as int;
        self.clear();
        let reversed_graph = graph.reversed();
        let mut components: Vec<Vec<usize>> = Vec::new();
        let ghost mut label: Seq<int> = Seq::new(n as nat, |x: int| -1int);
        let ghost order = quasi_topsort@.reverse();
        let ghost wanted = listed_groups(&reversed_graph, all_white_colors(n as int), order, 0);
        proof {
            assert(rows(components@) =~= Seq::<Seq<usize>>::empty());
            graph.lemma_order_fits();
            assert(self.visit_colors@ =~= all_white_colors(n as int));
            assert(rows(components@) + wanted =~= wanted);
            assert(quasi_topsort@.len() == n);
        }
        let mut i: usize = 0;
        while i < n
            invariant
                i <= n,
                n == graph.order(),
                graph.wf(),
                reversed_graph.wf(),
                reversed_graph.order() == n,
                forall|u: int, w: int| #[trigger] reversed_graph.has_edge(u, w) <==> graph.has_edge(w, u),
                order == quasi_topsort@.reverse(),
                quasi_topsort@.len() == n,
                is_traversal_timing(graph, t_in, t_out, t0, time),
                is_vertex_listing(graph, order),
                by_falling_exit(order, t_out),
                self.fits(graph),
                self.time == 0,
                self.no_children(),
                forall|x: int| 0 <= x < n ==> self.t_in@[x] == 0 && self.t_out@[x] == 0,
                split_core(&reversed_graph, self.visit_colors@, rows(components@), label),
                groups_hang_together(graph, rows(components@)),
                forall|i1: int| 0 <= i1 < i ==> self.visit_colors@[#[trigger] order[i1] as int] == VisitColor::Black,
                order.len() == n,
                wanted == rows(components@) + listed_groups(&reversed_graph, self.visit_colors@, order, i as int),
            decreases n - i,
        {
            let root: usize = quasi_topsort[n - 1 - i];
            assert(root == order[i as int]);
            if self.visit_colors[root] == VisitColor::White {
                let ghost before = self.visit_colors@;
                let ghost found = rows(components@);
                let mut block: Vec<usize> = Vec::new();
                self.dfs_preorder_with(&reversed_graph, root, &mut block);
                proof {
                    assert(block@.skip(0) =~= block@);
                    assert(found + (seq![block@] + listed_groups(&reversed_graph, self.visit_colors@, order, i + 1))
                        =~= found.push(block@) + listed_groups(&reversed_graph, self.visit_colors@, order, i + 1));
                    lemma_split_step(&reversed_graph, before, self.visit_colors@, found, label, root as int, block@);
                    lemma_scc_step(graph, &reversed_graph, t_in, t_out, t0, time, order, before, self.visit_colors@, i as int, block@);
                    label = relabel(label, block@, found.len() as int);
                    assert(block@.contains(root)) by {
                        assert(block@[0] == root);
                    }
                }
                components.push(block);
                proof {
                    assert(rows(components@) =~= found.push(block@));
                    assert forall|k: int, j: int|
                        0 <= k < rows(components@).len() && 0 <= j < rows(components@)[k].len() implies strongly_connected(
                        graph,
                        (#[trigger] rows(components@)[k])[0] as int,
                        #[trigger] rows(components@)[k][j] as int,
                    ) by {
                        if k < found.len() {
                            assert(rows(components@)[k] == found[k]);
                            assert(strongly_connected(graph, found[k][0] as int, found[k][j] as int));
                        } else {
                            assert(rows(components@)[k] == block@);
                            assert(strongly_connected(graph, block@[0] as int, block@[j] as int));
                        }
                    }
                }
            }
            i += 1;
        }
        proof {
            assert forall|x: int| 0 <= x < n implies self.visit_colors@[x] == VisitColor::Black by {
                assert(order.contains(x as usize));
                let p = order.index_of(x as usize);
                assert(self.visit_colors@[order[p] as int] == VisitColor::Black);
            }
            lemma_split_done(&reversed_graph, self.visit_colors@, rows(components@), label);
            assert(rows(components@) + Seq::<Seq<usize>>::empty() =~= rows(components@));
        }
        let ghost found = rows(components@);
        let decomposition = Decomposition::from_component_list(components);
        proof {
            let d = &decomposition;
            assert(d.groups() == found);
            assert(found_backwards(graph, &reversed_graph, old(self), d.groups())) by {
                reveal(found_backwards);
            }
            assert forall|x: int| 0 <= x < n implies #[trigger] d.group_of(x) == label[x] by {
                let k = label[x];
                assert(found[k].contains(x as usize));
                let j = found[k].index_of(x as usize);
                assert(found[k][j] == x as usize);
            }
            assert forall|u: int, w: int| #[trigger] graph.has_edge(u, w) implies d.group_of(u)
                <= d.group_of(w) by {
                let k = choose|k: int| 0 <= k < graph.adj()[u].len() && (#[trigger] graph.adj()[u][k]).to == w;
                assert(graph.adj()[u][k].to < n);
                assert(reversed_graph.has_edge(w, u));
            }
            assert forall|u: int, w: int| 0 <= u < n && 0 <= w < n implies ((#[trigger] d.group_of(u)
                == #[trigger] d.group_of(w)) <==> strongly_connected(graph, u, w)) by {
                if d.group_of(u) == d.group_of(w) {
                    let k = d.group_of(u);
                    assert(found[k].contains(u as usize));
                    assert(found[k].contains(w as usize));
                    let ju = found[k].index_of(u as usize);
                    let jw = found[k].index_of(w as usize);
                    let root = found[k][0] as int;
                    assert(strongly_connected(graph, root, found[k][ju] as int));
                    assert(strongly_connected(graph, root, found[k][jw] as int));
                    lemma_connects_trans(graph.arrow(), u, root, w);
                    lemma_connects_trans(graph.arrow(), w, root, u);
                }
                if strongly_connected(graph, u, w) {
                    lemma_groups_only_rise(graph, d, u, w);
                    lemma_groups_only_rise(graph, d, w, u);
                }
            }
        }
        let condensation_graph = quotient_graph(graph, &decomposition);
        let condensed = condensation_graph.deduplicated(false);
        proof {
            let d = &decomposition;
            assert forall|a: int, b: int| #[trigger] condensed.has_edge(a, b) implies a < b by {
                assert(condensation_graph.has_edge(a, b));
                assert(joins(graph, d, a, b));
            }
            lemma_rising_records_mean_acyclic(&condensed);
            assert forall|u: int, w: int| 0 <= w < graph.order() && #[trigger] graph.has_edge(u, w) implies d.group_of(
                u,
            ) == d.group_of(w) || condensed.has_edge(d.group_of(u), d.group_of(w)) by {
                if d.group_of(u) != d.group_of(w) {
                    assert(joins(graph, d, d.group_of(u), d.group_of(w)));
                    assert(condensation_graph.has_edge(d.group_of(u), d.group_of(w)));
                }
            }
        }
        let r = (condensed, decomposition);
        proof {
            assert(found_backwards(graph, &reversed_graph, old(self), r.1.groups()));
        }
        r
    }
}

} // verus!
