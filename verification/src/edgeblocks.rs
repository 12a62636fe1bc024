//! The components that remain when the bridges are taken away.

use crate::counting::lemma_distinct_below;
use crate::decomposition::Decomposition;
use crate::dfs::DFSSpace;
use crate::graph::Graph;
use crate::bridges::probe_of;
use crate::bridges::probe_sweep;
use crate::bridges::zeros;
use crate::bridges::Probe;
use crate::components::walked_groups;
use crate::dfs::all_white_colors;
use crate::transform::removed_adj;
use crate::transform::survives;
use crate::walks::both_ways;
use crate::walks::connects;
use crate::walks::lemma_connects_mono;
use vstd::prelude::*;

verus! {

/// The relation "some record of an edge that is no bridge leads from the
/// first vertex to the second".
pub open spec fn bridge_free(graph: &Graph) -> spec_fn(int, int) -> bool {
    |u: int, w: int|
        0 <= u < graph.order() && exists|k: int|
            0 <= k < graph.adj()[u].len() && (#[trigger] graph.adj()[u][k]).to == w && !graph.is_bridge(
                graph.adj()[u][k].edge_index as int,
            )
}

/// The bridges that the search finds in `graph`, in the order in which it
/// finds them, when it starts with every vertex white and the clock at
/// zero.
pub open spec fn bridges_found(graph: &Graph) -> Seq<usize> {
    probe_sweep(
        graph,
        (Probe {
            colors: all_white_colors(graph.order()),
            t_in: zeros(graph.order()),
            time: 0,
            low: zeros(graph.order()),
            found: Seq::empty(),
        }),
        0,
    ).found
}

/// The graph `rest` is `graph` without the records of its bridges, and
/// the groups are those that the walks in `rest` find, started from each
/// vertex in ascending order that is still white.
#[verifier::opaque]
pub open spec fn found_without_bridges(graph: &Graph, rest: &Graph, groups: Seq<Seq<usize>>) -> bool {
    &&& rest.adj() == removed_adj(graph.adj(), bridges_found(graph))
    &&& groups == walked_groups(rest, all_white_colors(graph.order()), 0)
}

/// Splits the vertices of an undirected multigraph into its edge-biconnected
/// components: two vertices lie in one group exactly when a walk that uses
/// no bridge leads from one to the other.
pub fn find_edge_biconnected_components(graph: Graph) -> (d: Decomposition)
    requires
        graph.is_undirected(),
        graph.indices_in_range(),
    ensures
        exists|rest: Graph| #[trigger] found_without_bridges(&graph, &rest, d.groups()),
        d.wf(),
        d.elements == graph.order(),
        forall|u: int, w: int|
            0 <= u < graph.order() && 0 <= w < graph.order() ==> ((#[trigger] d.group_of(u)
                == #[trigger] d.group_of(w)) <==> connects(bridge_free(&graph), u, w)),
{
    let ghost whole = graph;
    let mut pruned = graph;
    proof {
        pruned.lemma_order_fits();
    }
    let mut dfs_space = DFSSpace::new(&pruned);
    proof {
        assert(dfs_space.fits(&whole));
        assert(dfs_space.is_reset());
        assert(dfs_space.visit_colors@ =~= all_white_colors(whole.order()));
        assert(dfs_space.t_in@ =~= zeros(whole.order()));
        assert(probe_of(&dfs_space, zeros(whole.order()), Seq::empty()) =~= (Probe {
            colors: all_white_colors(whole.order()),
            t_in: zeros(whole.order()),
            time: 0,
            low: zeros(whole.order()),
            found: Seq::empty(),
        }));
    }
    let bridges = dfs_space.find_bridges(&pruned);
    proof {
        assert(bridges@ == bridges_found(&whole));
        assert forall|i: int| 0 <= i < bridges@.len() implies #[trigger] bridges@[i] < pruned.total_edges by {
            assert(bridges@.contains(bridges@[i]));
            assert(whole.is_bridge(bridges@[i] as int));
            let (u, k) = choose|u: int, k: int|
                0 <= u < whole.order() && 0 <= k < whole.adj()[u].len() && (#[trigger] whole.adj()[u][k]).edge_index
                    == bridges@[i] as int;
        }
        lemma_distinct_below(bridges@, pruned.total_edges as int);
    }
    pruned.remove_edges(bridges.as_slice());
    proof {
        let gone = bridges@;
        assert forall|u: int, w: int| #[trigger] pruned.has_edge(u, w) <==> bridge_free(&whole)(u, w) by {
            if pruned.has_edge(u, w) {
                let k = choose|k: int| 0 <= k < pruned.adj()[u].len() && (#[trigger] pruned.adj()[u][k]).to == w;
                let r = pruned.adj()[u][k];
                whole.adj()[u].lemma_filter_pred(survives(gone), k);
                assert(pruned.adj()[u].contains(r));
                whole.adj()[u].lemma_filter_contains_rev(survives(gone), r);
                let k0 = whole.adj()[u].index_of(r);
                assert(whole.adj()[u][k0].to == w);
                assert(!gone.contains(r.edge_index));
            }
            if bridge_free(&whole)(u, w) {
                let k0 = choose|k0: int|
                    0 <= k0 < whole.adj()[u].len() && (#[trigger] whole.adj()[u][k0]).to == w
                        && !whole.is_bridge(whole.adj()[u][k0].edge_index as int);
                let r = whole.adj()[u][k0];
                assert(survives::<()>(gone)(r));
                whole.adj()[u].lemma_filter_contains(survives(gone), k0);
                let k = pruned.adj()[u].index_of(r);
                assert(pruned.adj()[u][k].to == w);
            }
        }
        assert forall|u: int, w: int| #[trigger] pruned.has_edge(u, w) implies pruned.has_edge(w, u) by {
            let k0 = choose|k0: int|
                0 <= k0 < whole.adj()[u].len() && (#[trigger] whole.adj()[u][k0]).to == w
                    && !whole.is_bridge(whole.adj()[u][k0].edge_index as int);
            assert(whole.has_arc(
                whole.adj()[u][k0].to as int,
                u,
                whole.adj()[u][k0].edge_index as int,
            ));
            let k1 = choose|k1: int|
                0 <= k1 < whole.adj()[w].len() && (#[trigger] whole.adj()[w][k1]).to == u
                    && whole.adj()[w][k1].edge_index == whole.adj()[u][k0].edge_index;
            assert(bridge_free(&whole)(w, u));
        }
    }
    let mut fresh_space = DFSSpace::new(&pruned);
    proof {
        assert(fresh_space.visit_colors@ =~= all_white_colors(whole.order()));
        assert(pruned.adj() =~= removed_adj(whole.adj(), bridges@));
    }
    let d = fresh_space.find_connected_components(&pruned);
    proof {
        assert(found_without_bridges(&whole, &pruned, d.groups())) by {
            reveal(found_without_bridges);
        }
        let link = both_ways(pruned.arrow());
        let free = bridge_free(&whole);
        assert forall|u: int, w: int| 0 <= u < whole.order() && 0 <= w < whole.order() implies ((
        #[trigger] d.group_of(u) == #[trigger] d.group_of(w)) <==> connects(free, u, w)) by {
            assert forall|a: int, b: int| #[trigger] link(a, b) implies free(a, b) by {
                if pruned.has_edge(a, b) {
                } else {
                    assert(pruned.has_edge(b, a));
                }
            }
            assert forall|a: int, b: int| #[trigger] free(a, b) implies link(a, b) by {
                assert(pruned.has_edge(a, b));
            }
            if connects(link, u, w) {
                lemma_connects_mono(link, free, u, w);
            }
            if connects(free, u, w) {
                lemma_connects_mono(free, link, u, w);
            }
        }
    }
    d
}

} // verus!
