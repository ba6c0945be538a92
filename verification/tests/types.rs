use std::cmp::Ordering;
use std::collections::HashMap;
use tik::application::menu::{parse_option_from_str, ChoiceError};
use tik::statistic;
use tik::types::{Node, Quantity};
use tik::utils::terminal::BadPathError;

#[test]
fn quantities_are_ordered_by_weight_then_byte() {
    let light = Quantity { byte: 200, quantity: 1 };
    let heavy = Quantity { byte: 3, quantity: 2 };
    let heavy_too = Quantity { byte: 4, quantity: 2 };
    assert!(light < heavy);
    assert!(heavy < heavy_too);
    assert!(heavy_too > light);
    assert_eq!(heavy.partial_cmp(&heavy), Some(Ordering::Equal));
    assert_eq!(heavy.partial_cmp(&light), Some(Ordering::Greater));
    assert!(heavy == Quantity { byte: 3, quantity: 2 });
    assert!(heavy != heavy_too);
}

#[test]
fn nodes_take_subtrees() {
    let mut root = Node::new(1u8);
    assert!(root.left.is_none() && root.right.is_none());
    root.push_left(Node::new(2));
    root.push_right(Node::new(3));
    root.push_left(Node::new(4));
    assert_eq!(root.val, 1);
    assert_eq!(root.left.as_ref().unwrap().val, 4);
    assert_eq!(root.right.as_ref().unwrap().val, 3);
}

#[test]
fn counting_into_a_map() {
    let mut map: HashMap<u8, i64> = HashMap::new();
    let mut counter = 0i64;
    statistic::parse_chunk_for_unique_bytes(&mut map, b"abca\n\0a", &mut counter);
    assert_eq!(counter, 5);
    assert_eq!(map.len(), 3);
    assert_eq!(map[&b'a'], 3);
    assert_eq!(map[&b'b'], 1);
    assert_eq!(map[&b'c'], 1);
    statistic::parse_chunk_for_unique_bytes(&mut map, b"cd", &mut counter);
    assert_eq!(counter, 7);
    assert_eq!(map[&b'c'], 2);
    assert_eq!(map[&b'd'], 1);
}

#[test]
fn a_bad_path_is_named() {
    assert_eq!(
        BadPathError::new("/opfwe").message(),
        "Could not find directory: /opfwe"
    );
}

#[test]
fn choices_are_read() {
    let map = HashMap::from([(1u8, 'a'), (2, 'b'), (255, 'z')]);
    assert_eq!(parse_option_from_str(&map, "1"), Ok('a'));
    assert_eq!(parse_option_from_str(&map, "+2"), Ok('b'));
    assert_eq!(parse_option_from_str(&map, "002"), Ok('b'));
    assert_eq!(parse_option_from_str(&map, "255"), Ok('z'));
    assert_eq!(parse_option_from_str(&map, "3"), Err(ChoiceError::NoSuchOption));
    assert_eq!(parse_option_from_str(&map, "0"), Err(ChoiceError::NoSuchOption));
    for text in ["", "x", "-1", "-0", "256", "1 ", "+", "99999999999"] {
        assert_eq!(parse_option_from_str(&map, text), Err(ChoiceError::NotADigit));
        assert!(text.parse::<u8>().is_err());
    }
    assert_eq!(ChoiceError::NotADigit.message(), "Option must be a digit");
    assert_eq!(ChoiceError::NoSuchOption.message(), "There is no such option");
}
