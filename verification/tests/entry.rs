use object_tree::codec::ByteReader;
use object_tree::entry::{read_node_entry_lines, sorted_order, NodeEntry};
use object_tree::error::{GraphError, ParseError};
use object_tree::hash;
use object_tree::kind::NodeKind;
use object_tree::text::{bytes_eq, bytes_le, find_byte, find_last_byte, str_eq};
use object_tree::traits::WriteBytes;

fn entry(kind: NodeKind, name: &str) -> NodeEntry {
    NodeEntry::new(kind, hash::Hash::new(name.as_bytes()), name)
}

#[test]
fn entry_line_has_kind_hash_and_name() {
    let e = entry(NodeKind::Tree, "domain");
    let expected = format!("tree {} domain\n", hash::Hash::new(b"domain").to_string());
    assert_eq!(e.to_bytes(), expected.into_bytes());
    assert_eq!(e.kind(), NodeKind::Tree);
    assert_eq!(e.name(), "domain");
    assert_eq!(e.hash(), hash::Hash::new(b"domain"));
}

#[test]
fn entries_are_ordered_by_the_bytes_of_their_names() {
    let entries = vec![
        entry(NodeKind::Leaf, "b"),
        entry(NodeKind::Leaf, "a"),
        entry(NodeKind::Leaf, "B"),
        entry(NodeKind::Leaf, "ab"),
        entry(NodeKind::Leaf, ""),
        entry(NodeKind::Leaf, "\u{e9}"),
        entry(NodeKind::Leaf, "z"),
    ];
    let order = sorted_order(&entries);
    let names: Vec<&str> = order.iter().map(|&k| entries[k].name()).collect();
    assert_eq!(names, vec!["", "B", "a", "ab", "b", "z", "\u{e9}"]);
}

#[test]
fn entries_of_one_name_keep_their_order() {
    let entries = vec![
        entry(NodeKind::Leaf, "x"),
        entry(NodeKind::Tree, "a"),
        entry(NodeKind::Tree, "x"),
        entry(NodeKind::Leaf, "a"),
    ];
    assert_eq!(sorted_order(&entries), vec![1, 3, 0, 2]);
    assert_eq!(sorted_order(&[]), Vec::<usize>::new());
}

#[test]
fn entry_lines_are_read_to_the_end() {
    let a = entry(NodeKind::Leaf, "a");
    let b = entry(NodeKind::Tree, "b");
    let mut bytes = a.to_bytes();
    b.write_bytes(&mut bytes);
    let mut reader = ByteReader::new(bytes);
    assert_eq!(read_node_entry_lines(&mut reader), Ok(vec![a, b]));
    assert!(reader.is_at_end());
}

#[test]
fn entry_name_is_the_rest_of_the_line_up_to_the_line_feed() {
    let hex = hash::Hash::new(b"a").to_string();
    let mut reader = ByteReader::new(format!("leaf {} a\r\ntree {} b", hex, hex).into_bytes());
    let entries = read_node_entry_lines(&mut reader).unwrap();
    assert_eq!(entries[0].name(), "a\r");
    assert_eq!(entries[1].name(), "b");
    assert_eq!(entries[1].kind(), NodeKind::Tree);
}

#[test]
fn entry_named_by_a_carriage_return_round_trips() {
    let entry = NodeEntry::new(NodeKind::Leaf, hash::Hash::new(b"x"), "\r");
    let bytes = entry.to_bytes();
    let mut reader = ByteReader::new(bytes.clone());
    let read = read_node_entry_lines(&mut reader).unwrap();
    assert_eq!(read, vec![entry]);
    assert_eq!(read[0].to_bytes(), bytes);
}

#[test]
fn entry_line_takes_its_name_behind_the_last_space() {
    let hex = hash::Hash::new(b"a").to_string();
    let mut reader = ByteReader::new(format!("leaf {} two words\n", hex).into_bytes());
    assert_eq!(
        read_node_entry_lines(&mut reader),
        Err(GraphError::Parse(ParseError::NodeKind))
    );
}

#[test]
fn entry_line_accepts_an_upper_case_hash() {
    let h = hash::Hash::new(b"a");
    let mut reader =
        ByteReader::new(format!("leaf {} a\n", h.to_string().to_uppercase()).into_bytes());
    assert_eq!(read_node_entry_lines(&mut reader), Ok(vec![NodeEntry::new(NodeKind::Leaf, h, "a")]));
}

#[test]
fn empty_entry_line_is_refused_for_its_kind() {
    let mut reader = ByteReader::new(b"\n".to_vec());
    assert_eq!(
        read_node_entry_lines(&mut reader),
        Err(GraphError::Parse(ParseError::NodeKind))
    );
}

#[test]
fn refused_entry_line_leaves_the_lines_behind_it() {
    let hex = hash::Hash::new(b"a").to_string();
    let mut reader = ByteReader::new(format!("leaf {} a\nleaf\nleaf {} b\n", hex, hex).into_bytes());
    assert_eq!(
        read_node_entry_lines(&mut reader),
        Err(GraphError::ParseCustom("missing hash field in entry line".to_string()))
    );
    assert_eq!(reader.read_line_bytes(), format!("leaf {} b\n", hex).into_bytes());
}

#[test]
fn no_entry_lines_give_no_entries() {
    let mut reader = ByteReader::new(Vec::new());
    assert_eq!(read_node_entry_lines(&mut reader), Ok(vec![]));
}

#[test]
fn bytes_are_found_and_compared() {
    assert_eq!(find_byte(b"a=b=c", b'='), 1);
    assert_eq!(find_byte(b"abc", b'='), 3);
    assert_eq!(find_last_byte(b"a b c", b' '), Some(3));
    assert_eq!(find_last_byte(b"abc", b' '), None);
    assert!(bytes_eq(b"abc", b"abc"));
    assert!(!bytes_eq(b"abc", b"abd"));
    assert!(!bytes_eq(b"abc", b"ab"));
    assert!(bytes_le(b"", b"a"));
    assert!(bytes_le(b"a", b"a"));
    assert!(bytes_le(b"a", b"ab"));
    assert!(!bytes_le(b"ab", b"a"));
    assert!(bytes_le(b"ab", b"b"));
    assert!(!bytes_le(b"b", b"ab"));
    assert!(bytes_le(b"a", &[0xc3, 0xa9]));
    assert!(str_eq("prop", "prop"));
    assert!(!str_eq("prop", "Prop"));
}
