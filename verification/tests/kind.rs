use object_tree::error::{GraphError, ParseError};
use object_tree::hash;
use object_tree::hash::HashParseError;
use object_tree::kind::NodeKind;

#[test]
fn node_kind_names() {
    assert_eq!(NodeKind::Leaf.as_ref(), "leaf");
    assert_eq!(NodeKind::Tree.as_ref(), "tree");
    assert!(NodeKind::Tree.is_tree());
    assert!(!NodeKind::Leaf.is_tree());
}

#[test]
fn node_kind_from_str() {
    assert_eq!(NodeKind::from_str("leaf"), Ok(NodeKind::Leaf));
    assert_eq!(NodeKind::from_str("tree"), Ok(NodeKind::Tree));
    assert_eq!(NodeKind::from_str("Leaf"), Err(ParseError::NodeKind));
    assert_eq!(NodeKind::from_str("leaf "), Err(ParseError::NodeKind));
    assert_eq!(NodeKind::from_str(""), Err(ParseError::NodeKind));
    assert_eq!(NodeKind::from_name_bytes(b"tree"), Ok(NodeKind::Tree));
}

#[test]
fn graph_error_constructors() {
    assert_eq!(GraphError::parse(ParseError::NodeKind), GraphError::Parse(ParseError::NodeKind));
    assert_eq!(
        GraphError::parse_custom("missing kind field in entry line"),
        GraphError::ParseCustom("missing kind field in entry line".to_string())
    );
}

#[test]
fn graph_error_messages() {
    assert_eq!(
        GraphError::InvalidNodeVersion("2".to_string()).to_string(),
        "invalid node version when parsing from bytes: 2"
    );
    assert_eq!(
        GraphError::IoRead("x".to_string()).to_string(),
        "error reading node representation from bytes"
    );
    assert_eq!(
        GraphError::IoWrite("x".to_string()).to_string(),
        "error writing node representation as bytes"
    );
    assert_eq!(GraphError::MissingRootNode.to_string(), "root node not set after traversing tree");
    assert_eq!(
        GraphError::MultipleRootNode.to_string(),
        "root node already set, cannot have multiple roots in tree"
    );
    assert_eq!(
        GraphError::ParseCustom("boom".to_string()).to_string(),
        "error parsing node from bytes: boom"
    );
    assert_eq!(
        GraphError::ParseLineBlank("x\n".to_string()).to_string(),
        "parsing line was expected to be blank, but got 'x\n'"
    );
    assert_eq!(
        GraphError::ParseLineExpectedKey("a".to_string(), "b".to_string()).to_string(),
        "parsing key/value line error, expected key 'a', but got 'b'"
    );
    assert_eq!(
        GraphError::ParseLineKeyValueFormat("ab".to_string()).to_string(),
        "could not parse line as 'key=value': 'ab'"
    );
    assert_eq!(
        GraphError::UnhashedChild("p".to_string(), "c".to_string()).to_string(),
        "unhashed child node for 'p' with name: c"
    );
    assert_eq!(
        GraphError::UnhashedNode("n".to_string()).to_string(),
        "unhashed node with name: n"
    );
    let a = hash::Hash::new(b"a");
    let b = hash::Hash::new(b"b");
    assert_eq!(
        GraphError::Verify(a, b).to_string(),
        format!("failed to verify hash; expected={}, computed={}", a.to_string(), b.to_string())
    );
    assert_eq!(
        GraphError::Parse(ParseError::Hash(HashParseError::InvalidLen)).to_string(),
        "error parsing node from bytes: invalid hash length"
    );
}
