use std::borrow::Borrow;

use huffman::builder::get_tree;
use huffman::codes::get_char_encoding;
use huffman::forest::{get_sorted_index, parse_map, WeightedEntry};
use huffman::freq::parse_text;
use huffman::tree::Tree;

#[test]
fn get_sorted_index_in_empty_vector() {
    let sorted_vector = vec![];
    let count = 0;
    let index = get_sorted_index(&sorted_vector, &count);
    assert_eq!(index, 0);
    let count = 10;
    let index = get_sorted_index(&sorted_vector, &count);
    assert_eq!(index, 0);
}

#[test]
fn get_sorted_index_classic_test() {
    let mut sorted_vector = vec![];
    let element = Tree::Leaf { ch: '0' };
    let count = 1;
    sorted_vector.push(WeightedEntry { tree: element, weight: count });
    let element = Tree::Leaf { ch: '0' };
    let count = 3;
    sorted_vector.push(WeightedEntry { tree: element, weight: count });
    let count = 2;
    let index = get_sorted_index(&sorted_vector, &count);
    assert_eq!(index, 1);
    let count = 0;
    let index = get_sorted_index(&sorted_vector, &count);
    assert_eq!(index, 0);
    let count = 4;
    let index = get_sorted_index(&sorted_vector, &count);
    assert_eq!(index, 2);
}

#[test]
fn parse_text_classic_test() {
    let map = parse_text(&String::from("aaababababa"));
    assert!(map.contains_key(&'a'));
    assert!(map.contains_key(&'b'));
    assert_eq!(map.len(), 2);
    assert_eq!(map.get(&'a').unwrap(), 7);
    assert_eq!(map.get(&'b').unwrap(), 4);
}

#[test]
fn parse_text_empty_test() {
    let map = parse_text(&String::from(""));
    assert!(map.is_empty());
}

#[test]
fn parse_map_classic_test() {
    let map = parse_text(&String::from("aaababababa"));
    let sorted_vector = parse_map(map);
    assert_eq!(sorted_vector.len(), 2);
    assert_eq!(sorted_vector.get(0).unwrap().weight, 4);
    assert_eq!(sorted_vector.get(1).unwrap().weight, 7);
}

#[test]
fn parse_map_empty_test() {
    let map = parse_text(&String::from(""));
    let sorted_vector = parse_map(map);
    assert_eq!(sorted_vector.len(), 0);
}

#[test]
fn get_tree_classic_test() {
    let map = parse_text(&String::from("aaababababa"));
    let sorted_vector = parse_map(map);
    let tree = get_tree(sorted_vector);
    match tree {
        Tree::Node { left, right } => {
            match left.borrow() {
                Tree::Leaf { ch } => assert_eq!(ch, &'a'),
                Tree::Node { left: _, right: _ } => {
                    panic!("Left should be a Tree::Leaf with 'a' as value")
                }
            }
            match right.borrow() {
                Tree::Leaf { ch } => assert_eq!(ch, &'b'),
                Tree::Node { left: _, right: _ } => {
                    panic!("Right should be a Tree::Leaf with 'b' as value")
                }
            }
        }
        _ => panic!("Tree should be a Tree::Node!"),
    }
}

#[test]
fn get_tree_three_chars_test() {
    let map = parse_text(&String::from("aaababababaccc"));
    let sorted_vector = parse_map(map);
    let tree = get_tree(sorted_vector);
    match tree {
        Tree::Node { left, right } => {
            match left.borrow() {
                Tree::Leaf { ch } => assert_eq!(ch, &'a'),
                Tree::Node { left: _, right: _ } => {
                    panic!("Left should be a Tree::Leaf with 'a' as value")
                }
            }
            match right.borrow() {
                Tree::Leaf { ch: _ } => panic!("Left should be a Tree::Node"),
                Tree::Node { left, right } => {
                    match left.borrow() {
                        Tree::Leaf { ch } => assert_eq!(ch, &'b'),
                        Tree::Node { left: _, right: _ } => {
                            panic!("Left should be a Tree::Leaf with 'b' as value")
                        }
                    }
                    match right.borrow() {
                        Tree::Leaf { ch } => assert_eq!(ch, &'c'),
                        Tree::Node { left: _, right: _ } => {
                            panic!("Right should be a Tree::Leaf with 'c' as value")
                        }
                    }
                }
            }
        }
        _ => panic!("Tree should be a Tree::Node!"),
    }
}

#[test]
fn get_tree_empty_test() {
    let map = parse_text(&String::from(""));
    let sorted_vector = parse_map(map);
    let tree = get_tree(sorted_vector);
    match tree {
        Tree::Leaf { ch } => assert_eq!(ch, '\0'),
        _ => panic!("Tree should be a Tree::Leaf!"),
    }
}

#[test]
fn get_char_encoding_classic_test() {
    let map = parse_text(&String::from("aaababababa"));
    let sorted_vector = parse_map(map);
    let tree = get_tree(sorted_vector);
    let char_encoding = get_char_encoding(tree);
    assert_eq!(char_encoding.get(&'a').unwrap(), 0b0000_0000);
    assert_eq!(char_encoding.get(&'b').unwrap(), 0b0000_0001);
}

#[test]
fn get_char_encoding_five_chars_test() {
    let map = parse_text(&String::from("ababababacccdee"));
    let sorted_vector = parse_map(map);
    let tree = get_tree(sorted_vector);
    let char_encoding = get_char_encoding(tree);
    assert_eq!(char_encoding.get(&'a').unwrap(), 0b0000_0000);
    assert_eq!(char_encoding.get(&'b').unwrap(), 0b0000_0010);
    assert_eq!(char_encoding.get(&'c').unwrap(), 0b0000_0001);
    assert_eq!(char_encoding.get(&'d').unwrap(), 0b0000_0111);
    assert_eq!(char_encoding.get(&'e').unwrap(), 0b0000_0011);
}

#[test]
fn get_char_encoding_empty_test() {
    let map = parse_text(&String::from(""));
    let sorted_vector = parse_map(map);
    let tree = get_tree(sorted_vector);
    let char_encoding = get_char_encoding(tree);
    assert_eq!(char_encoding.get(&'\0').unwrap(), 0b0000_0000);
}
