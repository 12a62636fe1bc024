//! The connected components of a graph as graphs of their own.

use crate::components::is_reach_split;
use crate::components::roots_ascend;
use crate::construct::edge_list_adj;
use crate::construct::edge_list_built;
use crate::construct::lemma_edge_list_step;
use crate::decomposition::Decomposition;
use crate::dfs::DFSSpace;
use crate::flat::lemma_offset_next;
use crate::flat::lemma_offset_zero;
use crate::flat::offset;
use crate::graph::Edge;
use crate::graph::Graph;
use crate::transform::lemma_record_at;
use crate::transform::records_of;
use crate::transform::tagged_lists;
use crate::vectors::filled;
use crate::walks::both_ways;
use crate::walks::connects;
use crate::components::walked_groups;
use crate::dfs::all_white_colors;
use vstd::prelude::*;

verus! {

/// The test that keeps the records that lead within group `k` from a
/// vertex to one that is not smaller.
pub open spec fn rising_within(map: Seq<usize>, k: int) -> spec_fn((int, Edge)) -> bool {
    |a: (int, Edge)| a.0 <= a.1.to && map[a.0] == k && map[a.1.to as int] == k
}

/// The end points of a record by their places in their group, counted
/// from one.
pub open spec fn placed(place: Seq<usize>) -> spec_fn((int, Edge)) -> (usize, usize, ()) {
    |a: (int, Edge)| ((place[a.0] + 1) as usize, (place[a.1.to as int] + 1) as usize, ())
}

/// The edges of the graph of group `k`: for each record of `recs` that
/// leads within the group from a vertex to one that is not smaller, in
/// order, an undirected edge between the places of its end points.
pub open spec fn part_edges(recs: Seq<(int, Edge)>, map: Seq<usize>, place: Seq<usize>, k: int) -> Seq<
    (usize, usize, ()),
> {
    recs.filter(rising_within(map, k)).map_values(placed(place))
}

/// Entry `v` of `place` is the place of `v` in its group.
pub open spec fn places_ok(d: &Decomposition, place: Seq<usize>) -> bool {
    &&& place.len() == d.elements
    &&& forall|v: int|
        0 <= v < d.elements ==> #[trigger] place[v] < d.groups()[d.group_of(v)].len() && d.groups()[d.group_of(
            v,
        )][place[v] as int] == v
}

/// The place of each vertex in its group.
pub fn index_in_groups(d: &Decomposition) -> (place: Vec<usize>)
    requires
        d.wf(),
    ensures
        places_ok(d, place@),
{
    let mut place = filled(0usize, d.elements);
    let groups: usize = d.component_list.len();
    let mut k: usize = 0;
    while k < groups
        invariant
            k <= groups,
            groups == d.groups().len(),
            d.wf(),
            place@.len() == d.elements,
            forall|k1: int, i: int|
                0 <= k1 < k && 0 <= i < d.groups()[k1].len() ==> place@[#[trigger] d.groups()[k1][i] as int] == i,
        decreases groups - k,
    {
        let size: usize = d.component_list[k].len();
        let mut i: usize = 0;
        while i < size
            invariant
                k < groups,
                i <= size,
                size == d.groups()[k as int].len(),
                groups == d.groups().len(),
                d.wf(),
                place@.len() == d.elements,
                forall|k1: int, i1: int|
                    0 <= k1 < groups && 0 <= i1 < d.groups()[k1].len() && (k1 < k || (k1 == k && i1 < i))
                        ==> place@[#[trigger] d.groups()[k1][i1] as int] == i1,
            decreases size - i,
        {
            let v: usize = d.component_list[k][i];
            proof {
                assert(v == d.groups()[k as int][i as int]);
                assert(d.groups()[k as int].no_duplicates());
                assert forall|k1: int, i1: int|
                    0 <= k1 < groups && 0 <= i1 < d.groups()[k1].len() && (k1 < k || (k1 == k && i1 < i)) implies #[trigger] d.groups()[k1][i1]
                    != v by {
                    if k1 < k {
                        assert(d.component_map@[d.groups()[k1][i1] as int] == k1);
                        assert(d.component_map@[d.groups()[k as int][i as int] as int] == k);
                    }
                }
            }
            place[v] = i;
            i += 1;
        }
        k += 1;
    }
    proof {
        assert forall|v: int| 0 <= v < d.elements implies #[trigger] place@[v] < d.groups()[d.group_of(v)].len()
            && d.groups()[d.group_of(v)][place@[v] as int] == v by {
            let g = d.groups()[d.group_of(v)];
            assert(g.contains(v as usize));
            let i = g.index_of(v as usize);
            assert(d.groups()[d.group_of(v)][i] == v as usize);
        }
    }
    place
}

/// What is built of the graphs of the groups after the first `recs` records.
pub open spec fn parts_built(
    parts: Seq<Graph>,
    d: &Decomposition,
    place: Seq<usize>,
    recs: Seq<(int, Edge)>,
) -> bool {
    &&& parts.len() == d.groups().len()
    &&& forall|k: int|
        0 <= k < parts.len() ==> #[trigger] edge_list_built(
            &parts[k],
            d.groups()[k].len() as usize,
            part_edges(recs, d.component_map@, place, k),
            false,
        )
}

/// Splits the graph into its components as `find_connected_components`
/// does, and builds the graph of each: the vertices of a group are numbered
/// by their places in the group, and each record that leads within the
/// group from a vertex to one that is not smaller becomes an undirected
/// edge. Returns the split, the place of each vertex in its group, and the
/// graphs of the groups.
pub fn decompose_connected_components(graph: &Graph) -> (r: (Decomposition, Vec<usize>, Vec<Graph>))
    requires
        graph.wf(),
        graph.record_count() <= usize::MAX,
    ensures
        r.0.groups() == walked_groups(graph, all_white_colors(graph.order()), 0),
        is_reach_split(graph, &r.0),
        roots_ascend(&r.0),
        graph.is_symmetric() ==> forall|u: int, w: int|
            0 <= u < graph.order() && 0 <= w < graph.order() ==> ((#[trigger] r.0.group_of(u)
                == #[trigger] r.0.group_of(w)) <==> connects(both_ways(graph.arrow()), u, w)),
        places_ok(&r.0, r.1@),
        parts_built(r.2@, &r.0, r.1@, records_of(graph.adj())),
{
    let mut dfs_space = DFSSpace::new(graph);
    proof {
        assert(dfs_space.fits(graph));
        assert(dfs_space.visit_colors@ =~= all_white_colors(graph.order()));
    }
    let decomposition = dfs_space.find_connected_components(graph);
    let index_in_component = index_in_groups(&decomposition);
    let n: usize = graph.vertexes();
    let groups: usize = decomposition.component_list.len();
    let ghost d = decomposition;
    let ghost map = decomposition.component_map@;
    let ghost place = index_in_component@;
    let ghost adj = graph.adj();
    let ghost recs = records_of(adj);
    let mut component_graphs: Vec<Graph> = Vec::new();
    let mut k: usize = 0;
    proof {
        lemma_offset_zero(tagged_lists(adj));
        assert(recs.take(0) =~= Seq::<(int, Edge)>::empty());
    }
    while k < groups
        invariant
            k <= groups,
            groups == decomposition.groups().len(),
            d == decomposition,
            map == decomposition.component_map@,
            component_graphs@.len() == k,
            forall|k1: int|
                0 <= k1 < k ==> #[trigger] edge_list_built(
                    &component_graphs@[k1],
                    d.groups()[k1].len() as usize,
                    part_edges(recs.take(0), map, place, k1),
                    false,
                ),
        decreases groups - k,
    {
        let size: usize = decomposition.component_list[k].len();
        let part = Graph::new(size);
        proof {
            decomposition.lemma_group_fits(k as int);
            recs.take(0).lemma_filter_len(rising_within(map, k as int));
            let list = part_edges(recs.take(0), map, place, k as int);
            assert(list =~= Seq::<(usize, usize, ())>::empty());
            assert(part.is_undirected());
            let start = edge_list_adj(size as int, list, false);
            assert forall|v: int| 0 <= v < size implies #[trigger] part.adj()[v] =~= start[v] by {}
            assert(part.adj() =~= start);
        }
        component_graphs.push(part);
        k += 1;
    }
    let ghost mut pos: int = 0;
    let mut u: usize = 0;
    proof {
        assert forall|k1: int| 0 <= k1 < component_graphs@.len() implies (#[trigger] component_graphs@[k1]).total_edges
            <= 0 by {
            assert(edge_list_built(
                &component_graphs@[k1],
                d.groups()[k1].len() as usize,
                part_edges(recs.take(0), map, place, k1),
                false,
            ));
            recs.take(0).lemma_filter_len(rising_within(map, k1));
        }
    }
    while u < n
        invariant
            u <= n,
            n == graph.order(),
            graph.wf(),
            adj == graph.adj(),
            recs == records_of(adj),
            recs.len() <= usize::MAX,
            d == decomposition,
            decomposition.wf(),
            decomposition.elements == n,
            map == decomposition.component_map@,
            place == index_in_component@,
            places_ok(&decomposition, place),
            pos == offset(tagged_lists(adj), u as int),
            0 <= pos <= recs.len(),
            parts_built(component_graphs@, &decomposition, place, recs.take(pos)),
            forall|k1: int| 0 <= k1 < component_graphs@.len() ==> (#[trigger] component_graphs@[k1]).total_edges <= pos,
        decreases n - u,
    {
        let degree: usize = graph.edges[u].len();
        let mut j: usize = 0;
        while j < degree
            invariant
                u < n,
                j <= degree,
                degree == adj[u as int].len(),
                n == graph.order(),
                graph.wf(),
                adj == graph.adj(),
                recs == records_of(adj),
                recs.len() <= usize::MAX,
                d == decomposition,
                decomposition.wf(),
                decomposition.elements == n,
                map == decomposition.component_map@,
                place == index_in_component@,
                places_ok(&decomposition, place),
                pos == offset(tagged_lists(adj), u as int) + j,
                0 <= pos <= recs.len(),
                parts_built(component_graphs@, &decomposition, place, recs.take(pos)),
                forall|k1: int|
                    0 <= k1 < component_graphs@.len() ==> (#[trigger] component_graphs@[k1]).total_edges <= pos,
            decreases degree - j,
        {
            let e = graph.edges[u][j];
            let v: usize = e.to;
            proof {
                assert(e == adj[u as int][j as int]);
                assert(v < n);
                lemma_record_at(adj, u as int, j as int);
                assert(recs.take(pos + 1) =~= recs.take(pos).push(recs[pos]));
                assert forall|k1: int| 0 <= k1 < groups_of(&decomposition) implies #[trigger] part_edges(
                    recs.take(pos + 1),
                    map,
                    place,
                    k1,
                ) == (if rising_within(map, k1)(recs[pos]) {
                    part_edges(recs.take(pos), map, place, k1).push(placed(place)(recs[pos]))
                } else {
                    part_edges(recs.take(pos), map, place, k1)
                }) by {
                    recs.take(pos).lemma_filter_push(recs[pos], rising_within(map, k1));
                    if rising_within(map, k1)(recs[pos]) {
                        assert(recs.take(pos).filter(rising_within(map, k1)).push(recs[pos]).map_values(
                            placed(place),
                        ) =~= part_edges(recs.take(pos), map, place, k1).push(placed(place)(recs[pos])));
                    }
                }
            }
            if u <= v {
                let u_component = decomposition.component_of(u);
                let v_component = decomposition.component_of(v);
                if u_component == v_component {
                    let ghost before = component_graphs@;
                    let ghost part_before = component_graphs@[u_component as int];
                    proof {
                        assert(edge_list_built(
                            &part_before,
                            d.groups()[u_component as int].len() as usize,
                            part_edges(recs.take(pos), map, place, u_component as int),
                            false,
                        ));
                    }
                    let a: usize = index_in_component[u];
                    let b: usize = index_in_component[v];
                    proof {
                        decomposition.lemma_group_fits(u_component as int);
                        assert(a == place[u as int] && b == place[v as int]);
                        assert(decomposition.group_of(u as int) == u_component);
                        assert(decomposition.group_of(v as int) == u_component);
                        assert(part_before.order() == d.groups()[u_component as int].len());
                        assert(component_graphs@[u_component as int].total_edges <= pos);
                    }
                    component_graphs[u_component].add_undirected_edge(a, b);
                    proof {
                        let part_after = component_graphs@[u_component as int];
                        lemma_edge_list_step(
                            &part_before,
                            &part_after,
                            d.groups()[u_component as int].len() as usize,
                            part_edges(recs.take(pos), map, place, u_component as int),
                            ((a + 1) as usize, (b + 1) as usize, ()),
                            false,
                        );
                        assert forall|k1: int| 0 <= k1 < component_graphs@.len() implies #[trigger] edge_list_built(
                            &component_graphs@[k1],
                            d.groups()[k1].len() as usize,
                            part_edges(recs.take(pos + 1), map, place, k1),
                            false,
                        ) by {
                            if k1 != u_component {
                                assert(component_graphs@[k1] == before[k1]);
                                assert(edge_list_built(
                                    &before[k1],
                                    d.groups()[k1].len() as usize,
                                    part_edges(recs.take(pos), map, place, k1),
                                    false,
                                ));
                            }
                        }
                    }
                }
            }
            proof {
                pos = pos + 1;
            }
            j += 1;
        }
        proof {
            lemma_offset_next(tagged_lists(adj), u as int);
        }
        u += 1;
    }
    proof {
        lemma_offset_zero(tagged_lists(adj));
        assert(recs.take(recs.len() as int) =~= recs);
    }
    (decomposition, index_in_component, component_graphs)
}

/// The number of groups.
pub open spec fn groups_of(d: &Decomposition) -> int {
    d.groups().len() as int
}

} // verus!
