use graphs::bits::to_bitmask;
use graphs::bits::BitSet;
use graphs::bits::BoolFunction;
use graphs::hamming::ascii_as_bool_vector;
use graphs::hamming::bool_vector_to_string;
use graphs::scheme::FuncNode;
use graphs::scheme::Node;
use graphs::scheme::Scheme;
use graphs::scheme::VarData;
use graphs::vectors::indexes_of_two_smallest;
use graphs::vectors::swap_range;
use std::collections::VecDeque;

fn variable(at: usize, var: usize) -> Node {
    Node::Variable(VarData { element_index: at, var_index: var })
}

fn function(inputs: Vec<usize>, table: Vec<bool>) -> Node {
    Node::Function(FuncNode { inputs, func: BoolFunction::new(table) })
}

/// The circuit `(x0 and x1) or not x2`.
fn sample() -> Scheme {
    Scheme {
        nodes: vec![
            variable(0, 0),
            variable(1, 1),
            variable(2, 2),
            function(vec![0, 1], vec![false, false, false, true]),
            function(vec![2], vec![true, false]),
            function(vec![3, 4], vec![false, true, true, true]),
        ],
    }
}

#[test]
fn circuit_is_computed_for_every_assignment() {
    let scheme = sample();
    for mask in 0..8usize {
        let x0 = mask & 1 != 0;
        let x1 = mask & 2 != 0;
        let x2 = mask & 4 != 0;
        assert_eq!(scheme.compute(&BitSet::from(mask)), (x0 && x1) || !x2);
    }
}

#[test]
fn circuit_of_one_variable_gives_that_variable() {
    let scheme = Scheme { nodes: vec![variable(0, 3)] };
    assert!(scheme.compute(&BitSet::from(8)));
    assert!(!scheme.compute(&BitSet::from(7)));
    assert_eq!(scheme.get_depth(None), 0);
}

#[test]
fn depth_counts_the_functions_on_the_longest_way() {
    let scheme = sample();
    assert_eq!(scheme.get_depth(Some(0)), 0);
    assert_eq!(scheme.get_depth(Some(3)), 1);
    assert_eq!(scheme.get_depth(Some(4)), 1);
    assert_eq!(scheme.get_depth(Some(5)), 2);
    assert_eq!(scheme.get_depth(None), 2);
}

#[test]
fn function_element_looks_its_value_up() {
    let node = FuncNode { inputs: vec![0, 1], func: BoolFunction::new(vec![true, false, false, true]) };
    assert!(node.compute(0));
    assert!(!node.compute(1));
    assert!(!node.compute(2));
    assert!(node.compute(3));
}

#[test]
fn bits_are_packed_lowest_first() {
    assert_eq!(to_bitmask(&vec![]), 0);
    assert_eq!(to_bitmask(&vec![true]), 1);
    assert_eq!(to_bitmask(&vec![false, true, true]), 6);
    assert_eq!(to_bitmask(&vec![true, false, false, true]), 9);
}

#[test]
fn range_of_a_queue_is_turned_round() {
    let mut q: VecDeque<usize> = (0..6).collect();
    swap_range(&mut q, 1..5);
    assert_eq!(q, VecDeque::from(vec![0, 4, 3, 2, 1, 5]));
    swap_range(&mut q, 0..6);
    assert_eq!(q, VecDeque::from(vec![5, 1, 2, 3, 4, 0]));
    swap_range(&mut q, 2..3);
    assert_eq!(q, VecDeque::from(vec![5, 1, 2, 3, 4, 0]));
    swap_range(&mut q, 4..4);
    assert_eq!(q, VecDeque::from(vec![5, 1, 2, 3, 4, 0]));
    swap_range(&mut q, 3..5);
    assert_eq!(q, VecDeque::from(vec![5, 1, 2, 4, 3, 0]));
}

#[test]
fn two_smallest_are_found_at_their_first_places() {
    assert_eq!(indexes_of_two_smallest(&[]), (None, None));
    assert_eq!(indexes_of_two_smallest(&[7]), (Some(0), None));
    assert_eq!(indexes_of_two_smallest(&[1, 1]), (Some(0), Some(1)));
    assert_eq!(indexes_of_two_smallest(&[2, 1, 1]), (Some(1), Some(2)));
    assert_eq!(indexes_of_two_smallest(&[2, 2, 1]), (Some(2), Some(0)));
    assert_eq!(indexes_of_two_smallest(&[3, 1, 2, 2]), (Some(1), Some(2)));
    assert_eq!(indexes_of_two_smallest(&[5, 4, 3, 2, 1]), (Some(4), Some(3)));
}

#[test]
fn bit_texts_are_read_and_written() {
    assert_eq!(ascii_as_bool_vector("0110"), vec![false, true, true, false]);
    assert_eq!(ascii_as_bool_vector(""), Vec::<bool>::new());
    assert_eq!(bool_vector_to_string(&vec![true, false, true]), "101");
    assert_eq!(bool_vector_to_string(&vec![]), "");
    assert_eq!(bool_vector_to_string(&ascii_as_bool_vector("0001011")), "0001011");
}

#[test]
fn sets_with_one_member_less_are_listed() {
    let mut found: Vec<usize> = graphs::bits::get_slight_dominated(0b1011).into_iter().collect();
    found.sort();
    assert_eq!(found, vec![0b0011, 0b1001, 0b1010]);
    assert!(graphs::bits::get_slight_dominated(0).is_empty());
    let mut single: Vec<usize> = graphs::bits::get_slight_dominated(4).into_iter().collect();
    single.sort();
    assert_eq!(single, vec![0]);
}

#[test]
fn sets_within_a_set_are_listed() {
    let mut found: Vec<usize> = graphs::bits::get_dominated_or_eq(0b101).into_iter().collect();
    found.sort();
    assert_eq!(found, vec![0, 1, 4, 5]);
    let mut none: Vec<usize> = graphs::bits::get_dominated_or_eq(0).into_iter().collect();
    none.sort();
    assert_eq!(none, vec![0]);
}

#[test]
fn entries_are_grouped_by_their_keys_in_the_order_met() {
    let items: Vec<(usize, usize, usize)> = vec![(2, 1, 0), (0, 1, 1), (1, 2, 2), (1, 0, 3), (2, 1, 4)];
    let groups = graphs::grouping::group_by(&items, |r: &(usize, usize, usize)| graphs::minmax(r.0, r.1));
    assert_eq!(
        groups,
        vec![((1, 2), vec![(2, 1, 0), (1, 2, 2), (2, 1, 4)]), ((0, 1), vec![(0, 1, 1), (1, 0, 3)])]
    );
    let plain = graphs::grouping::group_by(&items, |r: &(usize, usize, usize)| (r.0, r.1));
    assert_eq!(plain.len(), 4);
    assert_eq!(plain[0], ((2, 1), vec![(2, 1, 0), (2, 1, 4)]));
    let empty: Vec<(usize, usize, usize)> = Vec::new();
    assert!(graphs::grouping::group_by(&empty, |r: &(usize, usize, usize)| (r.0, r.1)).is_empty());
}

#[test]
fn elements_are_written_with_the_number_of_their_kind() {
    assert_eq!(graphs::scheme::Element::Not(3).to_string(), "1 3");
    assert_eq!(graphs::scheme::Element::And(1, 12).to_string(), "2 1 12");
    assert_eq!(graphs::scheme::Element::Or(40, 0).to_string(), "3 40 0");
}
