use graphs::comb::combinatorial_object_by_number;
use graphs::comb::factorial;
use graphs::comb::generate_all;
use graphs::comb::minimal_with_prefix;
use graphs::comb::CombinatorialObject;
use graphs::comb::Permutation;
use graphs::comb::PermutationDescriptor;
use graphs::comb::Sequence;

fn letters(n: u64) -> PermutationDescriptor {
    PermutationDescriptor { len: n as usize, sorted_alphabet: (1..=n).collect() }
}

#[test]
fn factorials_of_small_numbers() {
    assert_eq!(factorial(&1), 1);
    assert_eq!(factorial(&2), 2);
    assert_eq!(factorial(&5), 120);
    assert_eq!(factorial(&20), 2432902008176640000);
}

#[test]
fn sequences_are_listed_in_the_order_of_the_alphabet() {
    let mut prefix = Sequence::new(3, 2);
    let alphabet: Vec<u64> = vec![0, 1];
    let mut all: Vec<Sequence> = Vec::new();
    generate_all(&mut prefix, &alphabet, &mut all);
    let listed: Vec<Vec<u64>> = all.iter().map(|s| s.data.clone()).collect();
    assert_eq!(
        listed,
        vec![
            vec![0, 0, 0],
            vec![0, 0, 1],
            vec![0, 1, 0],
            vec![0, 1, 1],
            vec![1, 0, 0],
            vec![1, 0, 1],
            vec![1, 1, 0],
            vec![1, 1, 1]
        ]
    );
    assert!(prefix.data.is_empty());
}

#[test]
fn sequences_count_their_successors_by_powers() {
    let mut prefix = Sequence::new(3, 2);
    assert_eq!(prefix.count_successors(), 8);
    prefix.push(1);
    assert_eq!(prefix.count_successors(), 4);
    assert!(prefix.can_add(&7));
    prefix.push(0);
    prefix.push(0);
    assert_eq!(prefix.count_successors(), 1);
    assert!(prefix.is_self_contained());
    assert!(!prefix.can_add(&0));
    assert_eq!(prefix.pop(), 0);
    assert!(!prefix.is_self_contained());
    assert_eq!(Sequence::new(4, 3).count_successors(), 81);
}

#[test]
fn permutations_are_listed_in_the_order_of_the_alphabet() {
    let descriptor = letters(3);
    let mut prefix = Permutation::new(&descriptor);
    let mut all: Vec<Permutation> = Vec::new();
    generate_all(&mut prefix, &descriptor.sorted_alphabet, &mut all);
    let listed: Vec<Vec<u64>> = all.iter().map(|p| p.data.clone()).collect();
    assert_eq!(
        listed,
        vec![vec![1, 2, 3], vec![1, 3, 2], vec![2, 1, 3], vec![2, 3, 1], vec![3, 1, 2], vec![3, 2, 1]]
    );
}

#[test]
fn permutations_count_their_successors_by_factorials() {
    let descriptor = letters(4);
    let mut prefix = Permutation::new(&descriptor);
    assert_eq!(prefix.count_successors(), 24);
    prefix.push(3);
    assert_eq!(prefix.count_successors(), 6);
    assert!(!prefix.can_add(&3));
    assert!(prefix.can_add(&1));
    prefix.push(1);
    assert_eq!(prefix.count_successors(), 2);
    let copy = prefix.duplicate();
    assert_eq!(copy.data, vec![3, 1]);
}

#[test]
fn the_first_object_takes_the_first_letters() {
    let descriptor = letters(4);
    let mut prefix = Permutation::new(&descriptor);
    prefix.push(3);
    let first = minimal_with_prefix(&prefix, &descriptor.sorted_alphabet);
    assert_eq!(first.data, vec![3, 1, 2, 4]);
    let whole = minimal_with_prefix(&first, &descriptor.sorted_alphabet);
    assert_eq!(whole.data, vec![3, 1, 2, 4]);
    let sequence = minimal_with_prefix(&Sequence::new(3, 2), &vec![5, 6]);
    assert_eq!(sequence.data, vec![5, 5, 5]);
}

#[test]
fn permutations_are_found_by_their_numbers() {
    let descriptor = letters(3);
    let prefix = Permutation::new(&descriptor);
    let expected: Vec<Vec<u64>> =
        vec![vec![1, 2, 3], vec![1, 3, 2], vec![2, 1, 3], vec![2, 3, 1], vec![3, 1, 2], vec![3, 2, 1]];
    for (number, wanted) in expected.iter().enumerate() {
        let found = combinatorial_object_by_number(number as u64, &prefix, &descriptor.sorted_alphabet);
        assert_eq!(&found.data, wanted);
    }
    let four = letters(4);
    let last = combinatorial_object_by_number(23, &Permutation::new(&four), &four.sorted_alphabet);
    assert_eq!(last.data, vec![4, 3, 2, 1]);
    let tenth = combinatorial_object_by_number(9, &Permutation::new(&four), &four.sorted_alphabet);
    assert_eq!(tenth.data, vec![2, 3, 4, 1]);
}

#[test]
fn sequences_are_found_by_their_numbers() {
    let alphabet: Vec<u64> = vec![0, 1];
    let prefix = Sequence::new(3, 2);
    for number in 0..8u64 {
        let found = combinatorial_object_by_number(number, &prefix, &alphabet);
        let wanted = vec![(number >> 2) & 1, (number >> 1) & 1, number & 1];
        assert_eq!(found.data, wanted);
    }
}
