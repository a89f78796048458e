use huffman::bits::BitWriter;
use huffman::codes::{generate_binary_table, lookup_code};
use huffman::encode::{compress, encode_text, pack};
use huffman::freq::count_frequencies;
use huffman::tree::{huffman_tree_builder, Tree};

fn chars_of(s: &str) -> Vec<char> {
    s.chars().collect()
}

fn code_string(code: &Vec<bool>) -> String {
    code.iter().map(|b| if *b { '1' } else { '0' }).collect()
}

#[test]
fn frequencies_of_aab() {
    let pairs = count_frequencies(&chars_of("aab"));
    assert_eq!(pairs, vec![('a', 2), ('b', 1)]);
}

#[test]
fn frequencies_count_newline() {
    let pairs = count_frequencies(&chars_of("ab\n"));
    assert_eq!(pairs.len(), 3);
    assert!(pairs.contains(&('\n', 1)));
    assert!(pairs.contains(&('a', 1)));
    assert!(pairs.contains(&('b', 1)));
}

#[test]
fn frequencies_of_empty_text() {
    let pairs = count_frequencies(&chars_of(""));
    assert!(pairs.is_empty());
}

#[test]
fn tree_of_empty_text_is_none() {
    assert!(huffman_tree_builder(&chars_of("")).is_none());
}

#[test]
fn tree_of_aab_has_root_weight_three() {
    let root = huffman_tree_builder(&chars_of("aab")).unwrap();
    match root {
        Tree::Internal { weight, left, right } => {
            assert_eq!(weight, 3);
            match *left {
                Tree::Leaf { weight, symbol } => {
                    assert_eq!((symbol, weight), ('b', 1));
                }
                _ => panic!("left child should be the rarer leaf"),
            }
            match *right {
                Tree::Leaf { weight, symbol } => {
                    assert_eq!((symbol, weight), ('a', 2));
                }
                _ => panic!("right child should be the commoner leaf"),
            }
        }
        _ => panic!("two symbols must give an internal root"),
    }
}

#[test]
fn tree_of_single_symbol_is_one_leaf() {
    let root = huffman_tree_builder(&chars_of("aaaa")).unwrap();
    match root {
        Tree::Leaf { weight, symbol } => {
            assert_eq!((symbol, weight), ('a', 4));
        }
        _ => panic!("one symbol must give a single leaf"),
    }
}

#[test]
fn table_of_aab() {
    let root = huffman_tree_builder(&chars_of("aab")).unwrap();
    let table = generate_binary_table(&root);
    assert_eq!(table.len(), 2);
    assert_eq!(table[0].0, 'b');
    assert_eq!(code_string(&table[0].1), "0");
    assert_eq!(table[1].0, 'a');
    assert_eq!(code_string(&table[1].1), "1");
}

#[test]
fn table_of_single_symbol_has_empty_code() {
    let root = huffman_tree_builder(&chars_of("aaaa")).unwrap();
    let table = generate_binary_table(&root);
    assert_eq!(table.len(), 1);
    assert_eq!(table[0].0, 'a');
    assert!(table[0].1.is_empty());
}

#[test]
fn table_of_ab_newline() {
    let root = huffman_tree_builder(&chars_of("ab\n")).unwrap();
    let table = generate_binary_table(&root);
    let mut shown: Vec<(char, String)> = Vec::new();
    for (c, code) in &table {
        shown.push((*c, code_string(code)));
    }
    assert_eq!(
        shown,
        vec![
            ('b', String::from("0")),
            ('\n', String::from("10")),
            ('a', String::from("11")),
        ]
    );
}

fn is_bit_prefix(a: &Vec<bool>, b: &Vec<bool>) -> bool {
    a.len() <= b.len() && a.iter().zip(b.iter()).all(|(x, y)| x == y)
}

#[test]
fn table_codes_are_prefix_free() {
    let root = huffman_tree_builder(&chars_of("the quick brown fox jumps over the lazy dog")).unwrap();
    let table = generate_binary_table(&root);
    for i in 0..table.len() {
        for j in 0..table.len() {
            if i != j {
                assert!(!is_bit_prefix(&table[i].1, &table[j].1));
            }
        }
    }
}

#[test]
fn lookup_finds_each_symbol_and_only_those() {
    let root = huffman_tree_builder(&chars_of("aab")).unwrap();
    let table = generate_binary_table(&root);
    assert_eq!(lookup_code(&table, 'a'), Some(vec![true]));
    assert_eq!(lookup_code(&table, 'b'), Some(vec![false]));
    assert_eq!(lookup_code(&table, 'c'), None);
}

#[test]
fn bit_writer_pads_final_byte_with_zeros() {
    let mut w = BitWriter::new();
    w.write_bit(true);
    w.write_bit(false);
    w.write_bit(true);
    assert_eq!(w.flush(), vec![0b1010_0000u8]);
}

#[test]
fn bit_writer_emits_full_byte_without_padding() {
    let mut w = BitWriter::new();
    for b in [true, false, true, true, false, false, true, true] {
        w.write_bit(b);
    }
    assert_eq!(w.flush(), vec![0b1011_0011u8]);
}

#[test]
fn bit_writer_with_no_bits_emits_nothing() {
    let mut w = BitWriter::new();
    assert!(w.flush().is_empty());
}

#[test]
fn pack_rounds_up_to_whole_bytes() {
    let nine_bits = vec![true, true, true, true, true, true, true, true, true];
    let bytes = pack(&nine_bits);
    assert_eq!(bytes, vec![0xFFu8, 0x80u8]);
}

#[test]
fn encode_text_concatenates_codes_in_input_order() {
    let root = huffman_tree_builder(&chars_of("aab")).unwrap();
    let table = generate_binary_table(&root);
    let bits = encode_text(&chars_of("aab"), &table);
    assert_eq!(bits, vec![true, true, false]);
}

#[test]
fn compress_aab_gives_one_byte() {
    let out = compress(&chars_of("aab")).unwrap();
    assert_eq!(out, vec![0b1100_0000u8]);
}

#[test]
fn compress_counts_newline_as_a_symbol() {
    let out = compress(&chars_of("ab\n")).unwrap();
    assert_eq!(out, vec![0b1101_0000u8]);
}

#[test]
fn compress_empty_text_gives_no_output() {
    assert!(compress(&chars_of("")).is_none());
}

#[test]
fn compress_single_symbol_text_gives_empty_output() {
    let out = compress(&chars_of("aaaa")).unwrap();
    assert!(out.is_empty());
}

#[test]
fn compress_is_deterministic_across_runs() {
    let text = chars_of("abracadabra\nabracadabra");
    let first = compress(&text).unwrap();
    let second = compress(&text).unwrap();
    assert_eq!(first, second);
    let t1 = generate_binary_table(&huffman_tree_builder(&text).unwrap());
    let t2 = generate_binary_table(&huffman_tree_builder(&text).unwrap());
    assert_eq!(t1, t2);
}

#[test]
fn compressed_length_matches_summed_code_lengths() {
    let text = chars_of("abracadabra");
    let root = huffman_tree_builder(&text).unwrap();
    let table = generate_binary_table(&root);
    let mut total_bits: usize = 0;
    for c in &text {
        total_bits += lookup_code(&table, *c).unwrap().len();
    }
    let out = compress(&text).unwrap();
    assert_eq!(out.len(), (total_bits + 7) / 8);
}

#[test]
fn root_weight_is_text_length() {
    let text = chars_of("mississippi river");
    let root = huffman_tree_builder(&text).unwrap();
    let weight = match root {
        Tree::Leaf { weight, .. } => weight,
        Tree::Internal { weight, .. } => weight,
    };
    assert_eq!(weight as usize, text.len());
}

fn check_weights(t: &Tree) -> u32 {
    match t {
        Tree::Leaf { weight, .. } => *weight,
        Tree::Internal { weight, left, right } => {
            let l = check_weights(left);
            let r = check_weights(right);
            assert_eq!(*weight, l + r);
            *weight
        }
    }
}

#[test]
fn every_internal_weight_is_the_sum_of_its_children() {
    let text = chars_of("mississippi river\nrises slowly");
    let root = huffman_tree_builder(&text).unwrap();
    assert_eq!(check_weights(&root) as usize, text.len());
}
