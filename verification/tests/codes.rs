use graphs::hamming::hamming_decode;
use graphs::hamming::hamming_encode;
use graphs::hamming::is_power_of_two;
use graphs::hamming::parity_of;

fn bits(text: &str) -> Vec<bool> {
    text.chars().map(|c| c == '1').collect()
}

#[test]
fn powers_of_two_are_told() {
    assert!(!is_power_of_two(0));
    assert!(is_power_of_two(1));
    assert!(is_power_of_two(2));
    assert!(!is_power_of_two(3));
    assert!(is_power_of_two(4));
    assert!(!is_power_of_two(6));
    assert!(is_power_of_two(1 << 40));
    assert!(!is_power_of_two((1 << 40) + 1));
}

#[test]
fn parity_counts_the_places_that_share_a_bit() {
    let word = bits("0110011");
    assert!(!parity_of(&word, 1));
    assert!(!parity_of(&word, 2));
    assert!(!parity_of(&word, 4));
    assert!(parity_of(&bits("1000000"), 1));
    assert!(!parity_of(&bits("1000000"), 2));
    assert!(parity_of(&bits("0010000"), 3));
}

#[test]
fn four_bits_become_seven() {
    assert_eq!(hamming_encode(&bits("1011")), bits("0110011"));
    assert_eq!(hamming_encode(&bits("0000")), bits("0000000"));
    assert_eq!(hamming_encode(&bits("1111")), bits("1111111"));
}

#[test]
fn short_and_empty_words_are_encoded() {
    assert_eq!(hamming_encode(&bits("")), bits(""));
    assert_eq!(hamming_encode(&bits("1")), bits("111"));
    assert_eq!(hamming_encode(&bits("0")), bits("000"));
    assert_eq!(hamming_encode(&bits("10110")).len(), 9);
}

#[test]
fn decoding_inverts_encoding() {
    for text in ["", "0", "1", "1011", "10110", "110100111010", "0000000000000001"] {
        let source = bits(text);
        assert_eq!(hamming_decode(&hamming_encode(&source)), source);
    }
}

#[test]
fn one_wrong_bit_is_mended() {
    for text in ["1", "1011", "10110", "110100111010"] {
        let source = bits(text);
        let code = hamming_encode(&source);
        for at in 0..code.len() {
            let mut bad = code.clone();
            bad[at] = !bad[at];
            assert_eq!(hamming_decode(&bad), source);
        }
    }
}

#[test]
fn decoding_takes_out_the_data_bits() {
    assert_eq!(hamming_decode(&bits("0110011")), bits("1011"));
    assert_eq!(hamming_decode(&bits("0110111")), bits("1011"));
    assert_eq!(hamming_decode(&bits("11")), bits(""));
}

fn cost(freqs: &Vec<(usize, usize)>) -> usize {
    let tree = graphs::huffman::build_huffman_tree(freqs);
    let codes = graphs::huffman::dump_tree(&tree);
    freqs.iter().map(|(symbol, freq)| freq * codes[symbol].len()).sum()
}

#[test]
fn symbols_are_counted() {
    let counts = graphs::huffman::count_symbol_freqs(&[3, 1, 3, 3, 7, 1]);
    assert_eq!(counts.len(), 3);
    assert_eq!(counts[&3], 3);
    assert_eq!(counts[&1], 2);
    assert_eq!(counts[&7], 1);
    assert!(graphs::huffman::count_symbol_freqs(&[]).is_empty());
}

#[test]
fn huffman_tree_has_the_least_cost_on_a_known_example() {
    let freqs = vec![(0, 5), (1, 9), (2, 12), (3, 13), (4, 16), (5, 45)];
    let tree = graphs::huffman::build_huffman_tree(&freqs);
    assert_eq!(tree.freq, 100);
    assert_eq!(cost(&freqs), 224);
    assert_eq!(cost(&vec![(0, 1), (1, 1), (2, 2), (3, 3), (4, 5)]), 25);
}

#[test]
fn a_single_symbol_is_a_leaf_with_the_empty_code() {
    let tree = graphs::huffman::build_huffman_tree(&vec![(4, 10)]);
    assert_eq!(tree.freq, 10);
    assert!(matches!(tree.structure_data, graphs::huffman::HuffmanTreeNodeStructureData::Leaf(4)));
    let codes = graphs::huffman::dump_tree(&tree);
    assert_eq!(codes.len(), 1);
    assert_eq!(codes[&4], Vec::<bool>::new());
}

#[test]
fn equal_weights_are_joined_in_the_order_of_the_pool() {
    let tree = graphs::huffman::build_huffman_tree(&vec![(0, 1), (1, 1), (2, 1)]);
    let codes = graphs::huffman::dump_tree(&tree);
    assert_eq!(codes[&2], vec![false]);
    assert_eq!(codes[&0], vec![true, false]);
    assert_eq!(codes[&1], vec![true, true]);
}
