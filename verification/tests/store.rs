use mlc::bag::{Bag, Label};
use mlc::store::{format_bags, format_bags_in_order, parse_bags, LabelEntry, LineError, ReadError};
use mlc::text::{lines, parse_number, push_decimal, push_joined, split};
use std::collections::HashMap;

fn label(node_id: usize, path: Vec<usize>, values: Vec<u64>, hidden: Vec<u64>) -> Label<usize> {
    Label { values, hidden_values: hidden, path, node_id }
}

#[test]
fn numbers_are_written_in_decimal() {
    let mut out = b"x".to_vec();
    push_decimal(&mut out, 0);
    push_decimal(&mut out, 7);
    push_decimal(&mut out, 1203);
    push_decimal(&mut out, u64::MAX);
    assert_eq!(out, b"x07120318446744073709551615".to_vec());
}

#[test]
fn numbers_are_read_with_or_without_a_plus() {
    assert_eq!(parse_number(b"0"), Some(0));
    assert_eq!(parse_number(b"007"), Some(7));
    assert_eq!(parse_number(b"+15"), Some(15));
    assert_eq!(parse_number(b"18446744073709551615"), Some(u64::MAX));
    assert_eq!(parse_number(b"18446744073709551616"), None);
    assert_eq!(parse_number(b"99999999999999999999999"), None);
    assert_eq!(parse_number(b""), None);
    assert_eq!(parse_number(b"+"), None);
    assert_eq!(parse_number(b"-1"), None);
    assert_eq!(parse_number(b"1 "), None);
    assert_eq!(parse_number(b"1+"), None);
    assert_eq!(parse_number(b"++1"), None);
}

#[test]
fn a_written_number_is_read_back() {
    for n in [0u64, 1, 9, 10, 99, 100, 12345, u64::MAX - 1, u64::MAX] {
        let mut out = Vec::new();
        push_decimal(&mut out, n);
        assert_eq!(parse_number(&out), Some(n));
    }
}

#[test]
fn a_text_has_one_field_more_than_separators() {
    assert_eq!(split(b"", b'|'), vec![b"".to_vec()]);
    assert_eq!(split(b"a", b'|'), vec![b"a".to_vec()]);
    assert_eq!(split(b"a|bc|", b'|'), vec![b"a".to_vec(), b"bc".to_vec(), b"".to_vec()]);
    assert_eq!(split(b"||", b'|'), vec![b"".to_vec(), b"".to_vec(), b"".to_vec()]);
}

#[test]
fn numbers_are_joined_by_the_separator() {
    let mut out = Vec::new();
    push_joined(&mut out, &vec![], b',');
    assert_eq!(out, b"".to_vec());
    push_joined(&mut out, &vec![5], b',');
    assert_eq!(out, b"5".to_vec());
    push_joined(&mut out, &vec![1, 20, 300], b';');
    assert_eq!(out, b"51;20;300".to_vec());
}

#[test]
fn lines_end_with_a_line_feed_or_with_the_text() {
    assert_eq!(lines(b""), Vec::<Vec<u8>>::new());
    assert_eq!(lines(b"a"), vec![b"a".to_vec()]);
    assert_eq!(lines(b"a\n"), vec![b"a".to_vec()]);
    assert_eq!(lines(b"a\r\nb\n\nc"), vec![b"a".to_vec(), b"b".to_vec(), b"".to_vec(), b"c".to_vec()]);
    assert_eq!(lines(b"a\r"), vec![b"a\r".to_vec()]);
    assert_eq!(lines(b"\n"), vec![b"".to_vec()]);
    let std_lines: Vec<Vec<u8>> =
        "x\r\ny\n\r\nz\r".lines().map(|l| l.as_bytes().to_vec()).collect();
    assert_eq!(lines(b"x\r\ny\n\r\nz\r"), std_lines);
}

#[test]
fn a_line_is_read_as_node_path_and_values() {
    let entry = LabelEntry::from_str("2|0,1,2|1,2,3").unwrap();
    assert_eq!(entry.node_id, 2);
    assert_eq!(entry.path, vec![0, 1, 2]);
    assert_eq!(entry.values, vec![1, 2, 3]);
    let bare = LabelEntry::from_str("7||4").unwrap();
    assert_eq!(bare.node_id, 7);
    assert_eq!(bare.path, Vec::<usize>::new());
    assert_eq!(bare.values, vec![4]);
    let more = LabelEntry::from_str("7|1|4|whatever").unwrap();
    assert_eq!(more.values, vec![4]);
}

#[test]
fn a_line_that_is_short_or_holds_no_number_is_refused() {
    assert_eq!(LabelEntry::from_str("").err(), Some(LineError::InvalidNumber));
    assert_eq!(LabelEntry::from_str("x|1|2").err(), Some(LineError::InvalidNumber));
    assert_eq!(LabelEntry::from_str("1").err(), Some(LineError::MissingField));
    assert_eq!(LabelEntry::from_str("1|2").err(), Some(LineError::MissingField));
    assert_eq!(LabelEntry::from_str("1|2,|3").err(), Some(LineError::InvalidNumber));
    assert_eq!(LabelEntry::from_str("1|2|").err(), Some(LineError::InvalidNumber));
    assert_eq!(LabelEntry::from_str("1|2|3,x").err(), Some(LineError::InvalidNumber));
    assert_eq!(LabelEntry::from_str("1|a").err(), Some(LineError::InvalidNumber));
}

#[test]
fn a_bag_is_written_with_header_and_one_line_per_label() {
    let mut bags: HashMap<usize, Bag<usize>> = HashMap::new();
    let mut bag = Bag::new_empty();
    assert!(bag.add_if_necessary(label(2, vec![0, 1], vec![1, 6], vec![9])));
    assert!(bag.add_if_necessary(label(2, vec![], vec![6, 1], vec![8])));
    bags.insert(2, bag);
    let text = format_bags(&bags);
    assert_eq!(text, b"node_id|path|weights\n2|0,1|1,6,9\n2||6,1,8\n".to_vec());
}

#[test]
fn bags_are_written_in_the_order_that_is_asked_for() {
    let mut bags: HashMap<usize, Bag<usize>> = HashMap::new();
    bags.insert(1, Bag::new_start_bag(label(1, vec![0], vec![5], vec![])));
    bags.insert(0, Bag::new_start_bag(label(0, vec![], vec![0], vec![])));
    let text = format_bags_in_order(&bags, &vec![0, 1, 3]);
    assert_eq!(text, b"node_id|path|weights\n0||0\n1|0|5\n".to_vec());
    let turned = format_bags_in_order(&bags, &vec![1, 0]);
    assert_eq!(turned, b"node_id|path|weights\n1|0|5\n0||0\n".to_vec());
    let both = format_bags(&bags);
    assert!(both == text || both == turned);
}

#[test]
fn a_bag_comes_back_from_its_text() {
    // two labels, written, read, and offered to a fresh bag: both are there
    let mut bags: HashMap<usize, Bag<usize>> = HashMap::new();
    let mut bag = Bag::new_empty();
    assert!(bag.add_if_necessary(label(2, vec![0, 1, 2], vec![1, 2, 3], vec![])));
    assert!(bag.add_if_necessary(label(2, vec![0, 1, 2], vec![0, 1, 6], vec![])));
    bags.insert(2, bag);
    let text = format_bags(&bags);
    let read = parse_bags(&text).unwrap();
    assert_eq!(read.len(), 1);
    let mut fresh = Bag::new_empty();
    for l in &read[&2].labels {
        assert!(fresh.add_if_necessary(l.clone()));
    }
    let mut values: Vec<Vec<u64>> = fresh.labels.iter().map(|l| l.values.clone()).collect();
    values.sort();
    assert_eq!(values, vec![vec![0, 1, 6], vec![1, 2, 3]]);
    assert_eq!(fresh.labels[0].path, vec![0, 1, 2]);
    assert_eq!(fresh.labels[0].node_id, 2);
    assert!(fresh.labels[0].hidden_values.is_empty());
}

#[test]
fn reading_offers_every_label_to_the_bag_of_its_node() {
    let text = b"node_id|path|weights\n1|0|2,5\n1|0|5,2\n1|0|3,6\n2|0,1|1,1\r\n1|0|2,2\n";
    let bags = parse_bags(text).unwrap();
    let mut at_1: Vec<Vec<u64>> = bags[&1].labels.iter().map(|l| l.values.clone()).collect();
    at_1.sort();
    assert_eq!(at_1, vec![vec![2, 2]]);
    assert_eq!(bags[&2].labels[0].values, vec![1, 1]);
    assert_eq!(bags[&2].labels[0].path, vec![0, 1]);
}

#[test]
fn the_first_line_is_not_read() {
    assert!(parse_bags(b"").unwrap().is_empty());
    assert!(parse_bags(b"whatever it says").unwrap().is_empty());
    assert_eq!(parse_bags(b"1|2|3\n4|5|6").unwrap().len(), 1);
}

#[test]
fn the_first_line_that_cannot_be_read_is_named() {
    assert_eq!(
        parse_bags(b"h\n1|0|2\n\n1|0|x\n").err(),
        Some(ReadError { line: 1, error: LineError::InvalidNumber })
    );
    assert_eq!(
        parse_bags(b"h\n1|0|2\n1|0\n").err(),
        Some(ReadError { line: 1, error: LineError::MissingField })
    );
    assert_eq!(
        parse_bags(b"h\n1|0|2,y").err(),
        Some(ReadError { line: 0, error: LineError::InvalidNumber })
    );
}
