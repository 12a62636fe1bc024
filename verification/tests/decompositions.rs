use graphs::dfs::DFSSpace;
use graphs::edgeblocks::find_edge_biconnected_components;
use graphs::graph::Graph;
use graphs::graph::VisitColor;

fn path(n: usize) -> Graph {
    let mut g = Graph::new(n);
    for i in 0..n - 1 {
        g.add_undirected_edge(i, i + 1);
    }
    g
}

fn cycle(n: usize) -> Graph {
    let mut g = path(n);
    g.add_undirected_edge(n - 1, 0);
    g
}

fn sorted(mut v: Vec<usize>) -> Vec<usize> {
    v.sort();
    v
}

fn groups_as_sets(list: &Vec<Vec<usize>>) -> Vec<Vec<usize>> {
    let mut sets: Vec<Vec<usize>> = list.iter().map(|g| sorted(g.clone())).collect();
    sets.sort();
    sets
}

#[test]
fn new_space_is_reset() {
    let g = path(3);
    let space = DFSSpace::new(&g);
    assert_eq!(space.time, 0);
    assert_eq!(space.visit_colors, vec![VisitColor::White; 3]);
    assert_eq!(space.t_in, vec![0; 3]);
    assert_eq!(space.t_out, vec![0; 3]);
    assert_eq!(space.children, vec![Vec::<usize>::new(); 3]);
}

#[test]
fn clear_returns_to_the_reset_state() {
    let g = path(3);
    let mut space = DFSSpace::new(&g);
    space.topological_sort(&g);
    assert_eq!(space.time, 6);
    space.clear();
    assert_eq!(space.time, 0);
    assert_eq!(space.visit_colors, vec![VisitColor::White; 3]);
    assert_eq!(space.t_in, vec![0; 3]);
    assert_eq!(space.t_out, vec![0; 3]);
}

#[test]
fn ignored_vertices_are_passed_by() {
    let g = path(4);
    let mut space = DFSSpace::new(&g);
    space.ignore_vertexes(&[2]);
    assert_eq!(space.visit_colors[2], VisitColor::Black);
    let mut visited = Vec::new();
    space.dfs_preorder_with(&g, 0, &mut visited);
    assert_eq!(visited, vec![0, 1]);
    assert_eq!(space.visit_colors[3], VisitColor::White);
}

#[test]
fn preorder_follows_the_records() {
    let mut g = Graph::new(5);
    g.add_directed_edge(0, 3);
    g.add_directed_edge(0, 1);
    g.add_directed_edge(3, 4);
    g.add_directed_edge(1, 4);
    g.add_directed_edge(4, 0);
    let mut space = DFSSpace::new(&g);
    let mut visited = vec![9];
    space.dfs_preorder_with(&g, 0, &mut visited);
    assert_eq!(visited, vec![9, 0, 3, 4, 1]);
    assert_eq!(space.visit_colors[2], VisitColor::White);
    assert_eq!(space.visit_colors[4], VisitColor::Black);
}

#[test]
fn connected_components_of_two_edges_and_a_lone_vertex() {
    let mut g = Graph::new(5);
    g.add_undirected_edge(3, 2);
    g.add_undirected_edge(0, 1);
    let mut space = DFSSpace::new(&g);
    let d = space.find_connected_components(&g);
    assert_eq!(d.elements, 5);
    assert_eq!(d.component_list, vec![vec![0, 1], vec![2, 3], vec![4]]);
    assert_eq!(d.component_of(3), d.component_of(2));
    assert_ne!(d.component_of(0), d.component_of(4));
}

#[test]
fn connected_components_of_an_empty_graph() {
    let g = Graph::new(0);
    let mut space = DFSSpace::new(&g);
    let d = space.find_connected_components(&g);
    assert_eq!(d.elements, 0);
    assert!(d.component_list.is_empty());
}

#[test]
fn topological_sort_orders_a_dag() {
    let mut g = Graph::new(5);
    g.add_directed_edge(3, 1);
    g.add_directed_edge(0, 3);
    g.add_directed_edge(0, 2);
    g.add_directed_edge(2, 1);
    g.add_directed_edge(4, 0);
    let mut space = DFSSpace::new(&g);
    let (order, acyclic) = space.topological_sort(&g);
    assert!(acyclic);
    assert_eq!(sorted(order.clone()), vec![0, 1, 2, 3, 4]);
    assert_eq!(order, vec![1, 3, 2, 0, 4]);
    let reversed: Vec<usize> = order.iter().rev().copied().collect();
    let place = |v: usize| reversed.iter().position(|&x| x == v).unwrap();
    for v in 0..5 {
        for e in &g.edges[v] {
            assert!(place(v) < place(e.to));
        }
    }
    for i in 1..order.len() {
        assert!(space.t_out[order[i - 1]] < space.t_out[order[i]]);
    }
    for v in 0..5 {
        assert!(space.t_in[v] < space.t_out[v]);
    }
    assert_eq!(space.time, 10);
}

#[test]
fn topological_sort_reports_a_cycle() {
    let mut g = Graph::new(3);
    g.add_directed_edge(0, 1);
    g.add_directed_edge(1, 2);
    g.add_directed_edge(2, 0);
    let mut space = DFSSpace::new(&g);
    let (order, acyclic) = space.topological_sort(&g);
    assert!(!acyclic);
    assert_eq!(order, vec![2, 1, 0]);
    let mut other = DFSSpace::new(&g);
    assert!(!other.test_acyclic(&g));
}

#[test]
fn a_loop_is_a_cycle() {
    let mut g = Graph::new(2);
    g.add_directed_edge(1, 1);
    let mut space = DFSSpace::new(&g);
    assert!(!space.test_acyclic(&g));
    let h = Graph::new(2);
    let mut fresh = DFSSpace::new(&h);
    assert!(fresh.test_acyclic(&h));
}

#[test]
fn four_cycle_has_no_bridges() {
    let g = cycle(4);
    let mut space = DFSSpace::new(&g);
    assert_eq!(space.find_bridges(&g), Vec::<usize>::new());
}

#[test]
fn path_edges_are_all_bridges() {
    let g = path(5);
    let mut space = DFSSpace::new(&g);
    assert_eq!(sorted(space.find_bridges(&g)), vec![0, 1, 2, 3]);
}

#[test]
fn parallel_edges_are_no_bridges() {
    let mut g = Graph::new(3);
    g.add_undirected_edge(0, 1);
    g.add_undirected_edge(0, 1);
    g.add_undirected_edge(1, 2);
    let mut space = DFSSpace::new(&g);
    assert_eq!(space.find_bridges(&g), vec![2]);
}

#[test]
fn bridge_between_two_triangles() {
    let mut g = Graph::new(6);
    g.add_undirected_edge(0, 1);
    g.add_undirected_edge(1, 2);
    g.add_undirected_edge(2, 0);
    g.add_undirected_edge(2, 3);
    g.add_undirected_edge(3, 4);
    g.add_undirected_edge(4, 5);
    g.add_undirected_edge(5, 3);
    let mut space = DFSSpace::new(&g);
    assert_eq!(space.find_bridges(&g), vec![3]);
    let d = find_edge_biconnected_components(g);
    assert_eq!(groups_as_sets(&d.component_list), vec![vec![0, 1, 2], vec![3, 4, 5]]);
}

#[test]
fn path_inner_vertices_are_cut_vertices() {
    let g = path(5);
    let mut space = DFSSpace::new(&g);
    let (cuts, blocks) = space.find_cutting_points_with_components(&g);
    assert_eq!(cuts, vec![1, 2, 3]);
    assert_eq!(blocks.elements, 4);
    assert_eq!(groups_as_sets(&blocks.component_list), vec![vec![0], vec![1], vec![2], vec![3]]);
}

#[test]
fn simple_cycle_is_one_block_without_cut_vertices() {
    let g = cycle(5);
    let mut space = DFSSpace::new(&g);
    let (cuts, blocks) = space.find_cutting_points_with_components(&g);
    assert_eq!(cuts, Vec::<usize>::new());
    assert_eq!(groups_as_sets(&blocks.component_list), vec![vec![0, 1, 2, 3, 4]]);
}

#[test]
fn two_triangles_sharing_a_vertex() {
    let mut g = Graph::new(5);
    g.add_undirected_edge(0, 1);
    g.add_undirected_edge(1, 2);
    g.add_undirected_edge(2, 0);
    g.add_undirected_edge(2, 3);
    g.add_undirected_edge(3, 4);
    g.add_undirected_edge(4, 2);
    let mut space = DFSSpace::new(&g);
    let (cuts, blocks) = space.find_cutting_points_with_components(&g);
    assert_eq!(cuts, vec![2]);
    assert_eq!(groups_as_sets(&blocks.component_list), vec![vec![0, 1, 2], vec![3, 4, 5]]);
    assert_eq!(blocks.component_of(0), blocks.component_of(2));
    assert_ne!(blocks.component_of(0), blocks.component_of(3));
}

#[test]
fn root_with_two_children_is_a_cut_vertex() {
    let mut g = Graph::new(3);
    g.add_undirected_edge(0, 1);
    g.add_undirected_edge(0, 2);
    let mut space = DFSSpace::new(&g);
    let (cuts, blocks) = space.find_cutting_points_with_components(&g);
    assert_eq!(cuts, vec![0]);
    assert_eq!(blocks.component_list.len(), 2);
    assert_eq!(space.children[0], vec![1, 2]);
}

#[test]
fn directed_triangle_with_tail_condenses_to_two_groups() {
    let mut g = Graph::new(4);
    g.add_directed_edge(0, 1);
    g.add_directed_edge(1, 2);
    g.add_directed_edge(2, 0);
    g.add_directed_edge(2, 3);
    let mut space = DFSSpace::new(&g);
    let (condensed, groups) = space.condensation(&g);
    assert_eq!(condensed.vertexes(), 2);
    assert_eq!(condensed.edges(), 1);
    assert_eq!(groups_as_sets(&groups.component_list), vec![vec![0, 1, 2], vec![3]]);
    let a = groups.component_of(0);
    let b = groups.component_of(3);
    assert_eq!(a, 0);
    assert_eq!(b, 1);
    assert_eq!(condensed.edges[a].len(), 1);
    assert_eq!(condensed.edges[a][0].to, b);
    assert_eq!(condensed.edges[b].len(), 0);
    let mut again = DFSSpace::new(&condensed);
    assert!(again.test_acyclic(&condensed));
}

#[test]
fn condensation_merges_parallel_connections() {
    let mut g = Graph::new(4);
    g.add_directed_edge(2, 3);
    g.add_directed_edge(3, 2);
    g.add_directed_edge(0, 1);
    g.add_directed_edge(1, 0);
    g.add_directed_edge(2, 0);
    g.add_directed_edge(3, 1);
    let mut space = DFSSpace::new(&g);
    let (condensed, groups) = space.condensation(&g);
    assert_eq!(condensed.vertexes(), 2);
    assert_eq!(condensed.edges(), 1);
    assert_eq!(groups.component_of(2), groups.component_of(3));
    assert_eq!(groups.component_of(0), groups.component_of(1));
    assert!(groups.component_of(2) < groups.component_of(0));
    for v in 0..4 {
        for e in &g.edges[v] {
            assert!(groups.component_of(v) <= groups.component_of(e.to));
        }
    }
}

#[test]
fn bridges_come_in_the_order_in_which_the_search_leaves_them() {
    let g = path(5);
    let mut space = DFSSpace::new(&g);
    assert_eq!(space.find_bridges(&g), vec![3, 2, 1, 0]);
    assert_eq!(space.t_in, vec![0, 1, 2, 3, 4]);
    assert_eq!(space.time, 5);
}

#[test]
fn timed_traversal_stamps_entries_and_exits() {
    let mut g = Graph::new(4);
    g.add_directed_edge(2, 3);
    g.add_directed_edge(0, 1);
    let mut space = DFSSpace::new(&g);
    let (order, acyclic) = space.topological_sort(&g);
    assert!(acyclic);
    assert_eq!(order, vec![1, 0, 3, 2]);
    assert_eq!(space.t_in, vec![0, 1, 4, 5]);
    assert_eq!(space.t_out, vec![3, 2, 7, 6]);
    assert_eq!(space.time, 8);
}

#[test]
fn blocks_of_a_short_path_come_deepest_first() {
    let g = path(3);
    let mut space = DFSSpace::new(&g);
    let (cuts, blocks) = space.find_cutting_points_with_components(&g);
    assert_eq!(cuts, vec![1]);
    assert_eq!(blocks.component_list, vec![vec![1], vec![0]]);
    assert_eq!(space.children, vec![vec![1], vec![2], vec![]]);
    assert_eq!(space.t_in, vec![0, 1, 2]);
}

#[test]
fn block_of_a_triangle_lists_its_edges_as_popped() {
    let g = cycle(3);
    let mut space = DFSSpace::new(&g);
    let (cuts, blocks) = space.find_cutting_points_with_components(&g);
    assert_eq!(cuts, Vec::<usize>::new());
    assert_eq!(blocks.component_list, vec![vec![2, 1, 0]]);
    assert_eq!(space.children, vec![vec![1], vec![2], vec![]]);
}

#[test]
fn strong_components_list_their_vertices_as_walked_backwards() {
    let mut g = Graph::new(4);
    g.add_directed_edge(0, 1);
    g.add_directed_edge(1, 2);
    g.add_directed_edge(2, 0);
    g.add_directed_edge(2, 3);
    let mut space = DFSSpace::new(&g);
    let (_, groups) = space.condensation(&g);
    assert_eq!(groups.component_list, vec![vec![0, 2, 1], vec![3]]);
    assert_eq!(groups.component_map, vec![0, 0, 0, 1]);
}

#[test]
fn edge_blocks_list_their_vertices_as_walked() {
    let mut g = Graph::new(6);
    g.add_undirected_edge(0, 1);
    g.add_undirected_edge(1, 2);
    g.add_undirected_edge(2, 0);
    g.add_undirected_edge(2, 3);
    g.add_undirected_edge(3, 4);
    g.add_undirected_edge(4, 5);
    g.add_undirected_edge(5, 3);
    let d = find_edge_biconnected_components(g);
    assert_eq!(d.component_list, vec![vec![0, 1, 2], vec![3, 4, 5]]);
}

#[test]
fn components_list_their_vertices_as_walked() {
    let mut g = Graph::new(5);
    g.add_undirected_edge(0, 3);
    g.add_undirected_edge(3, 1);
    g.add_undirected_edge(0, 1);
    g.add_undirected_edge(2, 4);
    let mut space = DFSSpace::new(&g);
    let d = space.find_connected_components(&g);
    assert_eq!(d.component_list, vec![vec![0, 3, 1], vec![2, 4]]);
}

#[test]
fn sorted_unique_orders_and_drops_repetitions() {
    assert_eq!(graphs::cutpoints::sorted_unique(&vec![3, 1, 3, 0, 1], 4), vec![0, 1, 3]);
    assert_eq!(graphs::cutpoints::sorted_unique(&vec![], 0), Vec::<usize>::new());
    assert_eq!(graphs::cutpoints::sorted_unique(&vec![2, 2, 2], 5), vec![2]);
}

#[test]
fn pop_component_takes_the_stack_down_to_the_edge() {
    let mut stack = vec![
        graphs::graph::Edge::new(1, 4),
        graphs::graph::Edge::new(2, 0),
        graphs::graph::Edge::new(3, 7),
        graphs::graph::Edge::new(0, 2),
    ];
    let component = graphs::cutpoints::pop_component(&mut stack, 0);
    assert_eq!(component, vec![2, 7, 0]);
    assert_eq!(stack.len(), 1);
    assert_eq!(stack[0].edge_index, 4);
    let rest = graphs::cutpoints::pop_component(&mut stack, 4);
    assert_eq!(rest, vec![4]);
    assert!(stack.is_empty());
}

#[test]
fn quotient_graph_keeps_the_records_between_groups() {
    let mut g = Graph::new(4);
    g.add_directed_edge(0, 1);
    g.add_directed_edge(1, 0);
    g.add_directed_edge(1, 2);
    g.add_directed_edge(0, 2);
    g.add_directed_edge(2, 3);
    g.add_directed_edge(3, 3);
    let d = graphs::decomposition::Decomposition::from_component_list(vec![vec![0, 1], vec![2], vec![3]]);
    let q = graphs::condense::quotient_graph(&g, &d);
    assert_eq!(q.vertexes(), 3);
    assert_eq!(q.edges(), 3);
    let targets: Vec<Vec<usize>> = q.edges.iter().map(|l| l.iter().map(|e| e.to).collect()).collect();
    assert_eq!(targets, vec![vec![1, 1], vec![2], vec![]]);
    let ids: Vec<Vec<usize>> = q.edges.iter().map(|l| l.iter().map(|e| e.edge_index).collect()).collect();
    assert_eq!(ids, vec![vec![0, 1], vec![2], vec![]]);
}

#[test]
fn cycles_of_every_length_have_no_bridge_and_one_block() {
    for n in 3..12usize {
        let g = graphs::families::cycle_graph(n);
        assert_eq!(g.vertexes(), n);
        assert_eq!(g.edges(), n);
        let mut space = DFSSpace::new(&g);
        assert_eq!(space.find_bridges(&g), Vec::<usize>::new());
        let mut other = DFSSpace::new(&g);
        let (cuts, blocks) = other.find_cutting_points_with_components(&g);
        assert_eq!(cuts, Vec::<usize>::new());
        assert_eq!(blocks.component_list.len(), 1);
        assert_eq!(sorted(blocks.component_list[0].clone()), (0..n).collect::<Vec<usize>>());
    }
}

#[test]
fn paths_of_every_length_have_all_their_edges_as_bridges() {
    for n in 1..12usize {
        let g = graphs::families::path_graph(n);
        assert_eq!(g.vertexes(), n);
        assert_eq!(g.edges(), n - 1);
        let mut space = DFSSpace::new(&g);
        let bridges = space.find_bridges(&g);
        assert_eq!(sorted(bridges), (0..n - 1).collect::<Vec<usize>>());
        let mut other = DFSSpace::new(&g);
        let (cuts, blocks) = other.find_cutting_points_with_components(&g);
        let inner: Vec<usize> = if n >= 3 { (1..n - 1).collect() } else { Vec::new() };
        assert_eq!(cuts, inner);
        assert!(blocks.component_list.iter().all(|c| c.len() == 1));
    }
}

#[test]
fn built_cycle_is_the_cycle_of_single_edges() {
    let g = graphs::families::cycle_graph(4);
    let mut h = Graph::new(4);
    for i in 0..4 {
        h.add_undirected_edge(i, (i + 1) % 4);
    }
    for v in 0..4 {
        let a: Vec<(usize, usize)> = g.edges[v].iter().map(|e| (e.to, e.edge_index)).collect();
        let b: Vec<(usize, usize)> = h.edges[v].iter().map(|e| (e.to, e.edge_index)).collect();
        assert_eq!(a, b);
    }
}

#[test]
fn prufer_code_is_decoded_with_the_least_leaf_first() {
    let tree = graphs::prufer::tree_of_prufer_code(6, &vec![4, 4, 4, 5]);
    assert_eq!(tree, vec![(4, 1), (4, 2), (4, 3), (5, 4), (6, 5)]);
    assert_eq!(graphs::prufer::tree_of_prufer_code(2, &vec![]), vec![(2, 1)]);
    assert_eq!(graphs::prufer::tree_of_prufer_code(3, &vec![2]), vec![(2, 1), (3, 2)]);
    assert_eq!(graphs::prufer::tree_of_prufer_code(4, &vec![1, 1]), vec![(1, 2), (1, 3), (4, 1)]);
}

#[test]
fn decoded_tree_is_connected_and_has_the_degrees_of_the_code() {
    let code = vec![3, 1, 3, 7, 7];
    let n = 7;
    let tree = graphs::prufer::tree_of_prufer_code(n, &code);
    assert_eq!(tree.len(), n - 1);
    let mut g = Graph::new(n);
    let mut degree = vec![0usize; n + 1];
    for &(u, v) in &tree {
        g.add_undirected_edge(u - 1, v - 1);
        degree[u] += 1;
        degree[v] += 1;
    }
    for x in 1..=n {
        assert_eq!(degree[x], 1 + code.iter().filter(|&&c| c == x).count());
    }
    let mut space = DFSSpace::new(&g);
    assert_eq!(space.find_connected_components(&g).component_list.len(), 1);
    assert_eq!(graphs::prufer::least_leaf(&vec![0, 2, 1, 1], &vec![false, false, true, false]), 3);
    assert_eq!(graphs::prufer::least_leaf(&vec![0, 2, 2], &vec![false, false, false]), 3);
}

#[test]
fn tree_is_encoded_by_taking_the_least_leaf_away() {
    let tree = vec![(4, 1), (4, 2), (4, 3), (5, 4), (6, 5)];
    assert_eq!(graphs::prufer::prufer_code_of_tree(6, &tree), vec![4, 4, 4, 5]);
    assert_eq!(graphs::prufer::prufer_code_of_tree(4, &vec![(1, 2), (2, 3), (3, 4)]), vec![2, 3]);
    assert_eq!(graphs::prufer::prufer_code_of_tree(4, &vec![(3, 4), (2, 1), (3, 2)]), vec![2, 3]);
    assert_eq!(graphs::prufer::prufer_code_of_tree(2, &vec![(2, 1)]), Vec::<usize>::new());
    assert_eq!(graphs::prufer::prufer_code_of_tree(3, &vec![(3, 1), (2, 3)]), vec![3]);
    assert_eq!(graphs::prufer::prufer_code_of_tree(5, &vec![(1, 5), (2, 5), (3, 5), (4, 5)]), vec![5, 5, 5]);
}

#[test]
fn encoding_undoes_decoding() {
    let codes: Vec<Vec<usize>> =
        vec![vec![], vec![1], vec![3, 3], vec![4, 4, 4, 5], vec![3, 1, 3, 7, 7], vec![2, 5, 2, 5, 1, 1]];
    for code in codes {
        let n = code.len() + 2;
        let tree = graphs::prufer::tree_of_prufer_code(n, &code);
        assert_eq!(graphs::prufer::prufer_code_of_tree(n, &tree), code);
    }
    assert_eq!(graphs::prufer::least_edge_at(&vec![(1, 2), (2, 3), (3, 1)], &vec![true, false, false], 1), 2);
    assert_eq!(graphs::prufer::least_edge_at(&vec![(1, 2), (2, 3)], &vec![false, false], 4), 2);
}
