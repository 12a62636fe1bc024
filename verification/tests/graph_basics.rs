use graphs::decomposition::Decomposition;
use graphs::graph::Edge;
use graphs::graph::Graph;
use graphs::graph::WeightedGraph;
use graphs::minmax;

fn targets(g: &Graph, v: usize) -> Vec<usize> {
    g.edges[v].iter().map(|e| e.to).collect()
}

fn indices(g: &Graph, v: usize) -> Vec<usize> {
    g.edges[v].iter().map(|e| e.edge_index).collect()
}

#[test]
fn minmax_orders_its_arguments() {
    assert_eq!(minmax(3, 7), (3, 7));
    assert_eq!(minmax(7, 3), (3, 7));
    assert_eq!(minmax(5, 5), (5, 5));
}

#[test]
fn edge_new_has_unit_weight() {
    let e = Edge::new(4, 9);
    assert_eq!(e.to, 4);
    assert_eq!(e.edge_index, 9);
}

#[test]
fn new_graph_has_isolated_vertices() {
    let g = Graph::new(3);
    assert_eq!(g.vertexes(), 3);
    assert_eq!(g.edges(), 0);
    assert!(g.edges.iter().all(|list| list.is_empty()));
    assert!(g.validate_compact_enumeration());
}

#[test]
fn empty_graph_is_compact() {
    let g = Graph::new(0);
    assert_eq!(g.vertexes(), 0);
    assert!(g.validate_compact_enumeration());
}

#[test]
fn undirected_edge_is_stored_twice_under_one_index() {
    let mut g = Graph::new(3);
    g.add_undirected_edge(0, 2);
    g.add_undirected_edge(2, 1);
    assert_eq!(g.edges(), 2);
    assert_eq!(targets(&g, 0), vec![2]);
    assert_eq!(targets(&g, 2), vec![0, 1]);
    assert_eq!(targets(&g, 1), vec![2]);
    assert_eq!(indices(&g, 0), vec![0]);
    assert_eq!(indices(&g, 2), vec![0, 1]);
    assert_eq!(indices(&g, 1), vec![1]);
}

#[test]
fn undirected_loop_is_two_records_in_one_list() {
    let mut g = Graph::new(1);
    g.add_undirected_edge(0, 0);
    assert_eq!(g.edges(), 1);
    assert_eq!(targets(&g, 0), vec![0, 0]);
    assert_eq!(indices(&g, 0), vec![0, 0]);
}

#[test]
fn directed_edge_counts_once() {
    let mut g = Graph::new(2);
    g.add_directed_edge(0, 1);
    g.add_directed_edge(0, 1);
    assert_eq!(g.edges(), 2);
    assert_eq!(targets(&g, 0), vec![1, 1]);
    assert_eq!(indices(&g, 0), vec![0, 1]);
    assert!(g.edges[1].is_empty());
}

#[test]
fn weighted_edges_keep_their_weights() {
    let mut g: WeightedGraph<u32> = WeightedGraph::new(2);
    g.add_weighted_undirected_edge(0, 1, 17);
    g.add_weighted_directed_edge(1, 0, 5);
    assert_eq!(g.edges[0][0].weight, 17);
    assert_eq!(g.edges[1][0].weight, 17);
    assert_eq!(g.edges[1][1].weight, 5);
    assert_eq!(g.edges[1][1].edge_index, 1);
    assert_eq!(g.edges(), 2);
}

#[test]
fn indexed_edge_does_not_change_the_count() {
    let mut g = Graph::new(2);
    g.add_weighted_indexed_directed_edge(0, 1, 7, ());
    assert_eq!(g.edges(), 0);
    assert_eq!(indices(&g, 0), vec![7]);
    assert!(!g.validate_compact_enumeration());
}

#[test]
fn gap_in_the_numbering_is_not_compact() {
    let mut g = Graph::new(2);
    g.add_weighted_indexed_directed_edge(0, 1, 1, ());
    g.total_edges = 2;
    assert!(!g.validate_compact_enumeration());
    g.add_weighted_indexed_directed_edge(1, 0, 0, ());
    assert!(g.validate_compact_enumeration());
}

#[test]
fn adjacency_matrix_gives_edges_in_row_order() {
    let matrix = vec![
        vec![false, true, true],
        vec![false, false, false],
        vec![true, false, true],
    ];
    let g = Graph::from_adjacency_matrix(&matrix);
    assert_eq!(g.vertexes(), 3);
    assert_eq!(g.edges(), 4);
    assert_eq!(targets(&g, 0), vec![1, 2]);
    assert_eq!(targets(&g, 1), Vec::<usize>::new());
    assert_eq!(targets(&g, 2), vec![0, 2]);
    assert_eq!(indices(&g, 0), vec![0, 1]);
    assert_eq!(indices(&g, 2), vec![2, 3]);
}

#[test]
fn weight_matrix_skips_default_weights() {
    let matrix: Vec<Vec<u32>> = vec![vec![0, 4], vec![9, 0]];
    let g = WeightedGraph::from_weight_matrix(&matrix);
    assert_eq!(g.edges(), 2);
    assert_eq!(g.edges[0].len(), 1);
    assert_eq!(g.edges[0][0].to, 1);
    assert_eq!(g.edges[0][0].weight, 4);
    assert_eq!(g.edges[1][0].to, 0);
    assert_eq!(g.edges[1][0].weight, 9);
    assert_eq!(g.edges[1][0].edge_index, 1);
}

#[test]
fn weight_matrix_against_a_chosen_zero() {
    let matrix: Vec<Vec<u32>> = vec![vec![7, 4], vec![7, 7]];
    let g = WeightedGraph::from_weight_matrix_against(&matrix, 7);
    assert_eq!(g.edges(), 1);
    assert_eq!(g.edges[0][0].to, 1);
    assert_eq!(g.edges[0][0].weight, 4);
}

#[test]
fn edge_list_counts_vertices_from_one() {
    let g = Graph::from_stdin(3, &vec![(1, 2), (3, 2)], false);
    assert_eq!(g.vertexes(), 3);
    assert_eq!(g.edges(), 2);
    assert_eq!(targets(&g, 0), vec![1]);
    assert_eq!(targets(&g, 1), vec![0, 2]);
    assert_eq!(targets(&g, 2), vec![1]);
    let d = Graph::from_stdin(3, &vec![(1, 2), (3, 2)], true);
    assert_eq!(targets(&d, 0), vec![1]);
    assert_eq!(targets(&d, 1), Vec::<usize>::new());
    assert_eq!(targets(&d, 2), vec![1]);
}

#[test]
fn weighted_edge_list_keeps_weights() {
    let g: WeightedGraph<i64> = WeightedGraph::weighted_from_stdin(2, &vec![(1, 2, -3)], false);
    assert_eq!(g.edges[0][0].weight, -3);
    assert_eq!(g.edges[1][0].weight, -3);
    assert_eq!(g.edges[1][0].to, 0);
}

#[test]
fn reversed_turns_every_record() {
    let mut g = Graph::new(3);
    g.add_directed_edge(0, 1);
    g.add_directed_edge(0, 2);
    g.add_directed_edge(2, 1);
    let r = g.reversed();
    assert_eq!(r.vertexes(), 3);
    assert_eq!(r.edges(), 3);
    assert_eq!(targets(&r, 0), Vec::<usize>::new());
    assert_eq!(targets(&r, 1), vec![0, 2]);
    assert_eq!(indices(&r, 1), vec![0, 2]);
    assert_eq!(targets(&r, 2), vec![0]);
    assert_eq!(indices(&r, 2), vec![1]);
}

#[test]
fn reversed_keeps_the_count_and_the_identities_of_undirected_edges() {
    let mut g = Graph::new(3);
    g.add_undirected_edge(0, 1);
    g.add_undirected_edge(2, 1);
    let r = g.reversed();
    assert_eq!(r.edges(), 2);
    assert_eq!(r.edges(), g.edges());
    assert_eq!(targets(&r, 0), vec![1]);
    assert_eq!(targets(&r, 1), vec![0, 2]);
    assert_eq!(indices(&r, 1), vec![0, 1]);
    assert_eq!(targets(&r, 2), vec![1]);
    assert_eq!(indices(&r, 2), vec![1]);
    assert!(r.validate_compact_enumeration());
    let single = {
        let mut h = Graph::new(2);
        h.add_undirected_edge(0, 1);
        h.reversed()
    };
    assert_eq!(single.edges(), 1);
}

#[test]
fn remove_edges_keeps_the_other_indices() {
    let mut g = Graph::new(3);
    g.add_undirected_edge(0, 1);
    g.add_undirected_edge(1, 2);
    g.add_undirected_edge(2, 0);
    g.remove_edges(&[1]);
    assert_eq!(g.edges(), 2);
    assert_eq!(indices(&g, 0), vec![0, 2]);
    assert_eq!(indices(&g, 1), vec![0]);
    assert_eq!(indices(&g, 2), vec![2]);
    assert_eq!(targets(&g, 2), vec![0]);
}

#[test]
fn remove_no_edges_changes_nothing() {
    let mut g = Graph::new(2);
    g.add_undirected_edge(0, 1);
    g.remove_edges(&[]);
    assert_eq!(g.edges(), 1);
    assert_eq!(targets(&g, 0), vec![1]);
}

#[test]
fn duplicate_is_equal_and_independent() {
    let mut g = Graph::new(2);
    g.add_undirected_edge(0, 1);
    let mut copy = g.duplicate();
    copy.add_directed_edge(1, 1);
    assert_eq!(g.edges(), 1);
    assert_eq!(copy.edges(), 2);
    assert_eq!(targets(&g, 1), vec![0]);
    assert_eq!(targets(&copy, 1), vec![0, 1]);
}

#[test]
fn leads_to_finds_records() {
    let mut g = Graph::new(3);
    g.add_directed_edge(0, 2);
    assert!(g.leads_to(0, 2));
    assert!(!g.leads_to(2, 0));
    assert!(!g.leads_to(0, 1));
}

#[test]
fn deduplicated_merges_parallel_records() {
    let mut g = Graph::new(2);
    g.add_directed_edge(0, 1);
    g.add_directed_edge(0, 1);
    g.add_directed_edge(1, 0);
    let d = g.deduplicated(false);
    assert_eq!(d.edges(), 2);
    assert_eq!(targets(&d, 0), vec![1]);
    assert_eq!(indices(&d, 0), vec![0]);
    assert_eq!(targets(&d, 1), vec![0]);
    assert_eq!(indices(&d, 1), vec![1]);
    assert!(d.validate_compact_enumeration());
    let u = g.deduplicated(true);
    assert_eq!(u.edges(), 1);
    assert_eq!(targets(&u, 0), vec![1]);
    assert_eq!(targets(&u, 1), vec![0]);
    assert_eq!(indices(&u, 0), vec![0]);
    assert_eq!(indices(&u, 1), vec![0]);
}

#[test]
fn deduplicated_keeps_a_loop_as_its_own_group() {
    let mut g = Graph::new(2);
    g.add_undirected_edge(1, 1);
    g.add_undirected_edge(0, 1);
    let d = g.deduplicated(true);
    assert_eq!(d.edges(), 2);
    assert_eq!(targets(&d, 1), vec![0, 1, 1]);
    assert_eq!(indices(&d, 1), vec![0, 1, 1]);
    assert_eq!(targets(&d, 0), vec![1]);
    let s = g.deduplicated(false);
    assert_eq!(s.edges(), 3);
    assert_eq!(targets(&s, 1), vec![1, 0]);
    assert_eq!(targets(&s, 0), vec![1]);
}

#[test]
fn deduplicated_of_an_edgeless_graph_is_edgeless() {
    let d = Graph::new(4).deduplicated(true);
    assert_eq!(d.vertexes(), 4);
    assert_eq!(d.edges(), 0);
}

#[test]
fn find_edge_ends_gives_the_first_record() {
    let mut g = Graph::new(3);
    g.add_undirected_edge(2, 1);
    g.add_undirected_edge(0, 2);
    assert_eq!(g.find_edge_ends(0), Some((1, 2)));
    assert_eq!(g.find_edge_ends(1), Some((0, 2)));
    assert_eq!(g.find_edge_ends(2), None);
}

#[test]
fn pull_edge_of_a_single_edge_leaves_one_vertex() {
    let mut g = Graph::new(2);
    g.add_undirected_edge(0, 1);
    let p = g.pull_edge(0);
    assert_eq!(p.vertexes(), 1);
    assert_eq!(p.edges(), 0);
    assert!(p.edges[0].is_empty());
}

#[test]
fn pull_edge_of_a_triangle_leaves_one_edge() {
    let mut g = Graph::new(3);
    g.add_undirected_edge(0, 1);
    g.add_undirected_edge(1, 2);
    g.add_undirected_edge(2, 0);
    let p = g.pull_edge(0);
    assert_eq!(p.vertexes(), g.vertexes() - 1);
    assert_eq!(p.edges(), 1);
    assert_eq!(targets(&p, 0), vec![1]);
    assert_eq!(targets(&p, 1), vec![0]);
}

#[test]
fn pull_edge_moves_the_higher_vertices_down() {
    let mut g = Graph::new(4);
    g.add_undirected_edge(1, 2);
    g.add_undirected_edge(2, 3);
    g.add_undirected_edge(0, 3);
    let p = g.pull_edge(0);
    assert_eq!(p.vertexes(), 3);
    assert_eq!(p.edges(), 2);
    assert_eq!(targets(&p, 0), vec![2]);
    assert_eq!(targets(&p, 1), vec![2]);
    assert_eq!(targets(&p, 2), vec![0, 1]);
}

#[test]
fn remove_edges_renumbered_is_compact() {
    let mut g = Graph::new(3);
    g.add_undirected_edge(0, 1);
    g.add_undirected_edge(1, 2);
    g.add_undirected_edge(2, 0);
    let r = g.remove_edges_renumbered(&[0]);
    assert_eq!(r.vertexes(), 3);
    assert_eq!(r.edges(), 2);
    assert!(r.validate_compact_enumeration());
    assert_eq!(targets(&r, 0), vec![2]);
    assert_eq!(targets(&r, 1), vec![2]);
    assert_eq!(targets(&r, 2), vec![0, 1]);
    assert_eq!(indices(&r, 2), vec![0, 1]);
}

#[test]
fn decomposition_from_list_builds_the_map() {
    let d = Decomposition::from_component_list(vec![vec![2, 0], vec![1], vec![4, 3]]);
    assert_eq!(d.elements, 5);
    assert_eq!(d.component_map, vec![0, 1, 0, 2, 2]);
    assert_eq!(d.component_of(3), 2);
    assert_eq!(d.component_list, vec![vec![2, 0], vec![1], vec![4, 3]]);
}

#[test]
fn decomposition_from_map_lists_in_ascending_order() {
    let d = Decomposition::from_component_map(vec![1, 0, 1, 2]);
    assert_eq!(d.elements, 4);
    assert_eq!(d.component_list, vec![vec![1], vec![0, 2], vec![3]]);
    assert_eq!(d.component_of(0), 1);
}

#[test]
fn empty_decomposition() {
    let d = Decomposition::from_component_list(Vec::new());
    assert_eq!(d.elements, 0);
    assert!(d.component_map.is_empty());
    let e = Decomposition::from_component_map(Vec::new());
    assert_eq!(e.elements, 0);
    assert!(e.component_list.is_empty());
}

#[test]
fn remap_vertex_closes_the_gap_of_the_merged_vertex() {
    assert_eq!(graphs::transform::remap_vertex(1, 3, 0), 0);
    assert_eq!(graphs::transform::remap_vertex(1, 3, 2), 2);
    assert_eq!(graphs::transform::remap_vertex(1, 3, 3), 1);
    assert_eq!(graphs::transform::remap_vertex(1, 3, 4), 3);
    assert_eq!(graphs::transform::remap_vertex(1, 3, 9), 8);
}

#[test]
fn merged_graphs_are_undirected_and_without_gaps() {
    let mut g = Graph::new(4);
    g.add_undirected_edge(0, 1);
    g.add_undirected_edge(1, 2);
    g.add_undirected_edge(2, 0);
    g.add_undirected_edge(2, 3);
    let pulled = g.pull_edge(0);
    assert_eq!(pulled.vertexes(), 3);
    assert!(pulled.validate_compact_enumeration());
    for (u, list) in pulled.edges.iter().enumerate() {
        for e in list {
            assert!(pulled.edges[e.to].iter().any(|back| back.to == u && back.edge_index == e.edge_index));
        }
    }
    let mut space = graphs::dfs::DFSSpace::new(&pulled);
    // the triangle has become one edge, so that a path of two edges is left
    assert_eq!(pulled.edges(), 2);
    let mut bridges = space.find_bridges(&pulled);
    bridges.sort();
    assert_eq!(bridges, vec![0, 1]);
}

#[test]
fn records_are_counted_and_loops_are_found() {
    let mut g = Graph::new(3);
    assert_eq!(g.count_records(), Some(0));
    assert!(g.has_no_loops());
    g.add_undirected_edge(0, 1);
    g.add_directed_edge(1, 2);
    assert_eq!(g.count_records(), Some(3));
    assert!(g.has_no_loops());
    g.add_directed_edge(2, 2);
    assert_eq!(g.count_records(), Some(4));
    assert!(!g.has_no_loops());
}
