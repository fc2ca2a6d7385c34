use huffman::builder::get_tree;
use huffman::codes::{dfs, get_char_encoding, CodeTable};
use huffman::encoder::{encode_string, encode_text};
use huffman::forest::parse_map;
use huffman::freq::parse_text;
use huffman::tree::Tree;

#[test]
fn encode_string_empty_test() {
    let contents = encode_string(&String::from(""));
    assert_eq!(contents, Vec::<u8>::new());
}

#[test]
fn encode_string_single_char_test() {
    let contents = encode_string(&String::from("aaaa"));
    assert_eq!(contents, vec![0u8, 0, 0, 0]);
}

#[test]
fn encode_string_two_chars_test() {
    let contents = encode_string(&String::from("aaababababa"));
    assert_eq!(contents.len(), 11);
    assert_eq!(contents, vec![0u8, 0, 0, 1, 0, 1, 0, 1, 0, 1, 0]);
}

#[test]
fn encode_string_three_chars_test() {
    let map = parse_text(&String::from("aaababababaccc"));
    let sorted_vector = parse_map(map);
    let tree = get_tree(sorted_vector);
    let char_encoding = get_char_encoding(tree);
    assert_eq!(char_encoding.get(&'a').unwrap(), 0b0000_0000);
    assert_eq!(char_encoding.get(&'b').unwrap(), 0b0000_0001);
    assert_eq!(char_encoding.get(&'c').unwrap(), 0b0000_0011);
    let contents = encode_string(&String::from("aaababababaccc"));
    assert_eq!(contents, vec![0u8, 0, 0, 1, 0, 1, 0, 1, 0, 1, 0, 3, 3, 3]);
}

#[test]
fn encode_string_five_chars_test() {
    let contents = encode_string(&String::from("ababababacccdee"));
    assert_eq!(contents, vec![0u8, 2, 0, 2, 0, 2, 0, 2, 0, 1, 1, 1, 7, 3, 3]);
}

#[test]
fn encode_string_twice_same_output_test() {
    let first = encode_string(&String::from("ababababacccdee"));
    let second = encode_string(&String::from("ababababacccdee"));
    assert_eq!(first, second);
}

#[test]
fn initial_forest_weight_sum_test() {
    let text = String::from("ababababacccdee");
    let map = parse_text(&text);
    let sorted_vector = parse_map(map);
    let total: usize = sorted_vector.iter().map(|e| e.weight).sum();
    assert_eq!(total, text.len());
}

#[test]
fn initial_forest_sorted_test() {
    let map = parse_text(&String::from("ababababacccdee"));
    let sorted_vector = parse_map(map);
    let weights: Vec<usize> = sorted_vector.iter().map(|e| e.weight).collect();
    assert_eq!(weights, vec![1, 2, 3, 4, 5]);
    for pair in weights.windows(2) {
        assert!(pair[0] <= pair[1]);
    }
}

#[test]
fn codes_distinct_test() {
    let map = parse_text(&String::from("ababababacccdee"));
    let sorted_vector = parse_map(map);
    let tree = get_tree(sorted_vector);
    let char_encoding = get_char_encoding(tree);
    let codes = vec![
        char_encoding.get(&'a').unwrap(),
        char_encoding.get(&'b').unwrap(),
        char_encoding.get(&'c').unwrap(),
        char_encoding.get(&'d').unwrap(),
        char_encoding.get(&'e').unwrap(),
    ];
    for i in 0..codes.len() {
        for j in 0..codes.len() {
            if i != j {
                assert_ne!(codes[i], codes[j]);
            }
        }
    }
}

#[test]
fn dfs_two_leaves_test() {
    let tree = Tree::Node {
        left: Box::new(Tree::Leaf { ch: 'a' }),
        right: Box::new(Tree::Leaf { ch: 'b' }),
    };
    let mut result = CodeTable::new();
    dfs(&tree, &mut result, 0b0000_0000, 0b0000_0001);
    assert_eq!(result.get(&'a').unwrap(), 0b0000_0000);
    assert_eq!(result.get(&'b').unwrap(), 0b0000_0001);
}

#[test]
fn encode_text_classic_test() {
    let text = String::from("aaababababa");
    let map = parse_text(&text);
    let sorted_vector = parse_map(map);
    let tree = get_tree(sorted_vector);
    let char_encoding = get_char_encoding(tree);
    let contents = encode_text(&text, char_encoding);
    assert_eq!(contents, vec![0u8, 0, 0, 1, 0, 1, 0, 1, 0, 1, 0]);
}

#[test]
fn parse_text_absent_char_test() {
    let map = parse_text(&String::from("aaababababa"));
    assert_eq!(map.get(&'z'), None);
    assert!(!map.contains_key(&'z'));
}

#[test]
fn encode_string_non_ascii_test() {
    let contents = encode_string(&String::from("ééa"));
    assert_eq!(contents.len(), 3);
    assert_eq!(contents, vec![0u8, 0, 1]);
}
