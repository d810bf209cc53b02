use object_tree::codec::{read_key_value_line, write_key_value_line, ByteReader};
use object_tree::entry::NodeEntry;
use object_tree::error::GraphError;
use object_tree::hash;
use object_tree::kind::NodeKind;
use object_tree::node::{
    HashedNodeWithEntries, NodeWithChildren, NodeWithEntries, NodeWithEntriesRef,
};
use object_tree::traits::{NameStr, ObjectKindStr, ReadBytes, VerifyHash, WriteBytes};
use object_tree::tree::{HashingTree, ObjectTree};

#[derive(Clone, Debug, PartialEq, Eq)]
struct Prop {
    name: String,
    payload: String,
}

impl Prop {
    fn new(name: &str, payload: &str) -> Self {
        Prop { name: name.to_string(), payload: payload.to_string() }
    }
}

impl NameStr for Prop {
    fn name(&self) -> &str {
        &self.name
    }
}

impl ObjectKindStr for Prop {
    fn object_kind(&self) -> &str {
        "prop"
    }
}

impl WriteBytes for Prop {
    fn write_bytes(&self, writer: &mut Vec<u8>) {
        write_key_value_line(writer, "name", &self.name);
        write_key_value_line(writer, "payload", &self.payload);
    }
}

impl ReadBytes for Prop {
    fn read_bytes(reader: &mut ByteReader) -> Result<Self, GraphError> {
        let name = read_key_value_line(reader, "name")?;
        let payload = read_key_value_line(reader, "payload")?;
        Ok(Prop { name, payload })
    }
}

fn leaf(name: &str, payload: &str) -> NodeWithChildren<Prop> {
    NodeWithChildren::new(NodeKind::Leaf, Prop::new(name, payload), vec![])
}

fn tree(name: &str, children: Vec<NodeWithChildren<Prop>>) -> NodeWithChildren<Prop> {
    NodeWithChildren::new(NodeKind::Tree, Prop::new(name, "t"), children)
}

fn node_with_entries(tree: &ObjectTree<Prop>, idx: usize) -> HashedNodeWithEntries<Prop> {
    HashedNodeWithEntries::new(tree.node(idx).unwrap().clone(), tree.entries(idx))
}

fn sample() -> NodeWithChildren<Prop> {
    tree(
        "root",
        vec![
            tree("left", vec![leaf("x", "1"), leaf("y", "2")]),
            leaf("middle", "3"),
            tree("right", vec![tree("deep", vec![leaf("z", "4")])]),
        ],
    )
}

#[test]
fn single_leaf_has_canonical_bytes_and_hash() {
    let tree = ObjectTree::create_from_root(leaf("alpha", "a")).unwrap();
    assert_eq!(tree.node_count(), 1);
    assert_eq!(tree.root_index(), 0);
    let bytes = node_with_entries(&tree, 0).to_bytes();
    let expected =
        b"version=1\nnode_kind=leaf\nobject_kind=prop\n\nname=alpha\npayload=a\n".to_vec();
    assert_eq!(bytes, expected);
    assert_eq!(tree.root_hash(), hash::Hash::new(&expected));
    assert_eq!(tree.node(0).unwrap().hash(), hash::Hash::new(&expected));
    assert_eq!(tree.node(0).unwrap().kind(), NodeKind::Leaf);
    assert_eq!(tree.node(0).unwrap().inner(), &Prop::new("alpha", "a"));
    assert!(tree.node(1).is_none());
}

#[test]
fn entries_are_listed_sorted_by_name() {
    let built = ObjectTree::create_from_root(tree(
        "root",
        vec![leaf("beta", "b"), leaf("alpha", "a")],
    ))
    .unwrap();
    let alpha_bytes =
        b"version=1\nnode_kind=leaf\nobject_kind=prop\n\nname=alpha\npayload=a\n".to_vec();
    let beta_bytes =
        b"version=1\nnode_kind=leaf\nobject_kind=prop\n\nname=beta\npayload=b\n".to_vec();
    let mut expected =
        b"version=1\nnode_kind=tree\nobject_kind=prop\n\nname=root\npayload=t\n\n".to_vec();
    expected.extend_from_slice(
        format!("leaf {} alpha\n", hash::Hash::new(&alpha_bytes).to_string()).as_bytes(),
    );
    expected.extend_from_slice(
        format!("leaf {} beta\n", hash::Hash::new(&beta_bytes).to_string()).as_bytes(),
    );
    assert_eq!(node_with_entries(&built, 0).to_bytes(), expected);
    assert_eq!(built.root_hash(), hash::Hash::new(&expected));
}

#[test]
fn root_hash_does_not_depend_on_child_order() {
    let one = ObjectTree::create_from_root(tree(
        "root",
        vec![leaf("beta", "b"), leaf("alpha", "a")],
    ))
    .unwrap();
    let other = ObjectTree::create_from_root(tree(
        "root",
        vec![leaf("alpha", "a"), leaf("beta", "b")],
    ))
    .unwrap();
    assert_eq!(one.root_hash(), other.root_hash());
    assert_eq!(node_with_entries(&one, 0).to_bytes(), node_with_entries(&other, 0).to_bytes());
}

#[test]
fn root_hash_does_not_depend_on_child_order_below_the_root() {
    let one = ObjectTree::create_from_root(sample()).unwrap();
    let other = ObjectTree::create_from_root(tree(
        "root",
        vec![
            tree("right", vec![tree("deep", vec![leaf("z", "4")])]),
            tree("left", vec![leaf("y", "2"), leaf("x", "1")]),
            leaf("middle", "3"),
        ],
    ))
    .unwrap();
    assert_eq!(one.root_hash(), other.root_hash());
}

#[test]
fn building_twice_gives_the_same_tree() {
    let one = ObjectTree::create_from_root(sample()).unwrap();
    let other = ObjectTree::create_from_root(sample()).unwrap();
    assert_eq!(one.node_count(), other.node_count());
    assert_eq!(one.root_hash(), other.root_hash());
    for idx in 0..one.node_count() {
        assert_eq!(one.node(idx), other.node(idx));
        assert_eq!(one.children(idx), other.children(idx));
        assert_eq!(
            node_with_entries(&one, idx).to_bytes(),
            node_with_entries(&other, idx).to_bytes()
        );
    }
}

#[test]
fn nodes_stand_in_pre_order_with_their_edges() {
    let built = ObjectTree::create_from_root(sample()).unwrap();
    let names: Vec<String> = (0..built.node_count())
        .map(|idx| built.node(idx).unwrap().name().to_string())
        .collect();
    assert_eq!(names, vec!["root", "left", "x", "y", "middle", "right", "deep", "z"]);
    assert_eq!(built.children(0), vec![5, 4, 1]);
    assert_eq!(built.children(1), vec![3, 2]);
    assert_eq!(built.children(2), Vec::<usize>::new());
    assert_eq!(built.children(5), vec![6]);
    assert_eq!(built.children(6), vec![7]);
    assert_eq!(built.children(8), Vec::<usize>::new());
    let entry_names: Vec<String> =
        built.entries(0).iter().map(|e| e.name().to_string()).collect();
    assert_eq!(entry_names, vec!["right", "middle", "left"]);
    assert_eq!(built.entries(0)[1].hash(), built.node(4).unwrap().hash());
    assert_eq!(built.entries(0)[1].kind(), NodeKind::Leaf);
    assert!(built.entries(9).is_empty());
}

#[test]
fn petgraph_holds_the_shape_of_the_tree() {
    let built = ObjectTree::create_from_root(sample()).unwrap();
    let (graph, root) = built.as_petgraph();
    assert_eq!(root.index(), 0);
    assert_eq!(graph.node_count(), 8);
    assert_eq!(graph.edge_count(), 7);
    let roots: Vec<usize> = graph.externals(petgraph::Direction::Incoming).map(|n| n.index()).collect();
    assert_eq!(roots, vec![0]);
    let below_left: Vec<usize> = graph
        .neighbors_directed(petgraph::graph::NodeIndex::new(1), petgraph::Direction::Outgoing)
        .map(|n| n.index())
        .collect();
    assert_eq!(below_left, vec![3, 2]);
}

#[test]
fn every_node_of_a_fresh_tree_verifies() {
    let built = ObjectTree::create_from_root(sample()).unwrap();
    for idx in 0..built.node_count() {
        assert_eq!(node_with_entries(&built, idx).verify_hash(), Ok(()));
    }
    assert_eq!(built.verify(), Ok(()));
}

#[test]
fn node_to_bytes_gives_the_bytes_that_the_hash_is_taken_over() {
    let built = ObjectTree::create_from_root(sample()).unwrap();
    for idx in 0..built.node_count() {
        let bytes = built.node_to_bytes(idx).unwrap();
        assert_eq!(bytes, node_with_entries(&built, idx).to_bytes());
        assert_eq!(hash::Hash::new(&bytes), built.node(idx).unwrap().hash());
    }
    assert_eq!(built.node_to_bytes(built.node_count()), None);
}

#[test]
fn serialized_node_round_trips() {
    let built = ObjectTree::create_from_root(sample()).unwrap();
    for idx in 0..built.node_count() {
        let bytes = node_with_entries(&built, idx).to_bytes();
        let read: NodeWithEntries<Prop> = NodeWithEntries::from_bytes(bytes.clone()).unwrap();
        let written = NodeWithEntriesRef::new(read.kind, &read.inner, &read.entries).to_bytes();
        assert_eq!(written, bytes);
        let hashed = HashedNodeWithEntries::from_node_with_entries_and_hash(
            read,
            built.node(idx).unwrap().hash(),
        );
        assert_eq!(hashed.verify_hash(), Ok(()));
    }
}

#[test]
fn tampered_payload_fails_to_verify() {
    let built = ObjectTree::create_from_root(tree(
        "root",
        vec![leaf("beta", "b"), leaf("alpha", "a")],
    ))
    .unwrap();
    // beta stands at place 1
    assert_eq!(built.node(1).unwrap().name(), "beta");
    let stored = built.node(1).unwrap().hash();
    let bytes = node_with_entries(&built, 1).to_bytes();
    let mut read: NodeWithEntries<Prop> = NodeWithEntries::from_bytes(bytes).unwrap();
    read.inner.payload = "c".to_string();
    let tampered = HashedNodeWithEntries::from_node_with_entries_and_hash(read, stored);
    let computed = hash::Hash::new(&tampered.to_bytes());
    assert_ne!(stored, computed);
    assert_eq!(tampered.verify_hash(), Err(GraphError::Verify(stored, computed)));
}

#[test]
fn tampered_entry_fails_to_verify() {
    let built = ObjectTree::create_from_root(tree(
        "root",
        vec![leaf("beta", "b"), leaf("alpha", "a")],
    ))
    .unwrap();
    let stored = built.root_hash();
    let mut entries = built.entries(0);
    let first = entries.remove(0);
    entries.push(NodeEntry::new(first.kind(), hash::Hash::new(b"other"), first.name()));
    let tampered = HashedNodeWithEntries::new(built.node(0).unwrap().clone(), entries);
    match tampered.verify_hash() {
        Err(GraphError::Verify(expected, computed)) => {
            assert_eq!(expected, stored);
            assert_ne!(expected, computed);
        }
        other => panic!("expected a failure to verify, got {:?}", other),
    }
}

#[test]
fn leaf_and_empty_tree_have_distinct_hashes() {
    let as_leaf = ObjectTree::create_from_root(NodeWithChildren::new(
        NodeKind::Leaf,
        Prop::new("", ""),
        vec![],
    ))
    .unwrap();
    let as_tree = ObjectTree::create_from_root(NodeWithChildren::new(
        NodeKind::Tree,
        Prop::new("", ""),
        vec![],
    ))
    .unwrap();
    assert_ne!(as_leaf.root_hash(), as_tree.root_hash());
    let leaf_bytes = node_with_entries(&as_leaf, 0).to_bytes();
    let tree_bytes = node_with_entries(&as_tree, 0).to_bytes();
    assert_eq!(
        leaf_bytes,
        b"version=1\nnode_kind=leaf\nobject_kind=prop\n\nname=\npayload=\n".to_vec()
    );
    assert_eq!(
        tree_bytes,
        b"version=1\nnode_kind=tree\nobject_kind=prop\n\nname=\npayload=\n".to_vec()
    );
}

#[test]
fn tree_without_children_has_no_entry_block() {
    let read: NodeWithEntries<Prop> = NodeWithEntries::from_bytes(
        b"version=1\nnode_kind=tree\nobject_kind=prop\n\nname=n\npayload=p\n".to_vec(),
    )
    .unwrap();
    assert_eq!(read.kind, NodeKind::Tree);
    assert!(read.entries.is_empty());
}

#[test]
fn two_roots_are_refused() {
    let r = HashingTree::create_from_roots(vec![sample(), leaf("other", "o")]);
    assert!(matches!(r, Err(GraphError::MultipleRootNode)));
}

#[test]
fn no_root_is_refused() {
    let r = HashingTree::<Prop>::create_from_roots(vec![]);
    assert!(matches!(r, Err(GraphError::MissingRootNode)));
}

#[test]
fn hashing_tree_without_hashes_names_the_unhashed_node() {
    let laid_out = HashingTree::create_from_root(sample()).unwrap();
    match laid_out.create_hashed_tree() {
        Err(e) => assert_eq!(e, GraphError::UnhashedNode("root".to_string())),
        Ok(_) => panic!("expected an unhashed node"),
    }
}

#[test]
fn hashing_tree_hashes_in_two_steps() {
    let mut laid_out = HashingTree::create_from_root(sample()).unwrap();
    assert_eq!(laid_out.compute_hashes(), Ok(()));
    let built = laid_out.create_hashed_tree().unwrap();
    assert_eq!(built.root_hash(), ObjectTree::create_from_root(sample()).unwrap().root_hash());
}

#[test]
fn deep_tree_is_built_and_verifies() {
    let mut node = leaf("n0", "0");
    for depth in 1..10_000 {
        node = tree(&format!("n{}", depth), vec![node]);
    }
    let built = ObjectTree::create_from_root(node).unwrap();
    assert_eq!(built.node_count(), 10_000);
    assert_eq!(node_with_entries(&built, 0).verify_hash(), Ok(()));
    assert_eq!(node_with_entries(&built, 9_999).verify_hash(), Ok(()));
    assert_eq!(built.children(0), vec![1]);
}

#[test]
fn wide_tree_sorts_many_entries() {
    let children: Vec<NodeWithChildren<Prop>> =
        (0..200).rev().map(|i| leaf(&format!("c{:03}", i), "v")).collect();
    let built = ObjectTree::create_from_root(tree("root", children)).unwrap();
    let bytes = node_with_entries(&built, 0).to_bytes();
    let text = String::from_utf8(bytes).unwrap();
    let names: Vec<&str> =
        text.lines().skip(7).map(|line| line.rsplit(' ').next().unwrap()).collect();
    let expected: Vec<String> = (0..200).map(|i| format!("c{:03}", i)).collect();
    assert_eq!(names, expected);
}

#[test]
fn siblings_of_one_name_keep_the_order_of_the_graph() {
    let built = ObjectTree::create_from_root(tree(
        "root",
        vec![leaf("same", "first"), leaf("same", "second")],
    ))
    .unwrap();
    let text = String::from_utf8(node_with_entries(&built, 0).to_bytes()).unwrap();
    let lines: Vec<&str> = text.lines().skip(7).collect();
    assert_eq!(
        lines,
        vec![
            format!("leaf {} same", built.node(2).unwrap().hash().to_string()),
            format!("leaf {} same", built.node(1).unwrap().hash().to_string()),
        ]
    );
    assert_eq!(node_with_entries(&built, 0).verify_hash(), Ok(()));
}

#[test]
fn version_two_is_refused() {
    let r: Result<NodeWithEntries<Prop>, GraphError> = NodeWithEntries::from_bytes(
        b"version=2\nnode_kind=leaf\nobject_kind=prop\n\nname=a\npayload=b\n".to_vec(),
    );
    assert_eq!(r.err(), Some(GraphError::InvalidNodeVersion("2".to_string())));
}

#[test]
fn header_line_without_equals_is_refused() {
    let r: Result<NodeWithEntries<Prop>, GraphError> = NodeWithEntries::from_bytes(
        b"version=1\nnode_kind leaf\nobject_kind=prop\n\nname=a\npayload=b\n".to_vec(),
    );
    assert_eq!(
        r.err(),
        Some(GraphError::ParseLineKeyValueFormat("node_kind leaf\n".to_string()))
    );
}

#[test]
fn entry_line_with_two_fields_is_refused() {
    let hex = hash::Hash::new(b"x").to_string();
    let bytes = format!(
        "version=1\nnode_kind=tree\nobject_kind=prop\n\nname=a\npayload=b\n\nleaf {}\n",
        hex
    );
    let r: Result<NodeWithEntries<Prop>, GraphError> =
        NodeWithEntries::from_bytes(bytes.into_bytes());
    assert_eq!(
        r.err(),
        Some(GraphError::ParseCustom("missing name field in entry line".to_string()))
    );
}

#[test]
fn entry_line_with_one_field_is_refused() {
    let r: Result<NodeWithEntries<Prop>, GraphError> = NodeWithEntries::from_bytes(
        b"version=1\nnode_kind=tree\nobject_kind=prop\n\nname=a\npayload=b\n\nleaf\n".to_vec(),
    );
    assert_eq!(
        r.err(),
        Some(GraphError::ParseCustom("missing hash field in entry line".to_string()))
    );
}

#[test]
fn unknown_node_kind_is_refused() {
    let r: Result<NodeWithEntries<Prop>, GraphError> = NodeWithEntries::from_bytes(
        b"version=1\nnode_kind=twig\nobject_kind=prop\n\nname=a\npayload=b\n".to_vec(),
    );
    assert_eq!(r.err(), Some(GraphError::Parse(object_tree::error::ParseError::NodeKind)));
}

#[test]
fn unknown_object_kind_is_refused() {
    let r: Result<NodeWithEntries<Prop>, GraphError> = NodeWithEntries::from_bytes(
        b"version=1\nnode_kind=leaf\nobject_kind=func\n\nname=a\npayload=b\n".to_vec(),
    );
    assert_eq!(
        r.err(),
        Some(GraphError::ParseCustom("expected object kind to be prop".to_string()))
    );
}

#[test]
fn missing_blank_line_is_refused() {
    let r: Result<NodeWithEntries<Prop>, GraphError> = NodeWithEntries::from_bytes(
        b"version=1\nnode_kind=leaf\nobject_kind=prop\nname=a\npayload=b\n".to_vec(),
    );
    assert_eq!(r.err(), Some(GraphError::ParseLineBlank("name=a\n".to_string())));
}

#[test]
fn wrong_first_key_is_refused() {
    let r: Result<NodeWithEntries<Prop>, GraphError> =
        NodeWithEntries::from_bytes(b"node_kind=leaf\n".to_vec());
    assert_eq!(
        r.err(),
        Some(GraphError::ParseLineExpectedKey("version".to_string(), "node_kind".to_string()))
    );
}

#[test]
fn entry_with_bad_hash_is_refused() {
    let r: Result<NodeWithEntries<Prop>, GraphError> = NodeWithEntries::from_bytes(
        b"version=1\nnode_kind=tree\nobject_kind=prop\n\nname=a\npayload=b\n\nleaf abc x\n"
            .to_vec(),
    );
    assert_eq!(
        r.err(),
        Some(GraphError::Parse(object_tree::error::ParseError::Hash(
            hash::HashParseError::InvalidLen
        )))
    );
}

#[test]
fn bytes_that_are_not_utf8_are_refused() {
    let r: Result<NodeWithEntries<Prop>, GraphError> =
        NodeWithEntries::from_bytes(vec![0xff, 0xfe, b'\n']);
    assert_eq!(
        r.err(),
        Some(GraphError::IoRead("stream did not contain valid UTF-8".to_string()))
    );
}

#[test]
fn version_followed_by_a_space_is_refused() {
    let r: Result<NodeWithEntries<Prop>, GraphError> = NodeWithEntries::from_bytes(
        b"version=1 \nnode_kind=leaf\nobject_kind=prop\n\nname=a\npayload=b\n".to_vec(),
    );
    assert_eq!(r.err(), Some(GraphError::InvalidNodeVersion("1 ".to_string())));
}

#[test]
fn node_with_white_space_in_values_and_names_round_trips() {
    let entries = vec![
        NodeEntry::new(NodeKind::Leaf, hash::Hash::new(b"1"), "tab\t"),
        NodeEntry::new(NodeKind::Tree, hash::Hash::new(b"2"), "\r"),
        NodeEntry::new(NodeKind::Leaf, hash::Hash::new(b"3"), "nbsp\u{a0}"),
    ];
    let inner = Prop::new("name \t", " payload\r");
    let bytes = NodeWithEntriesRef::new(NodeKind::Tree, &inner, &entries).to_bytes();
    let read: NodeWithEntries<Prop> = NodeWithEntries::from_bytes(bytes.clone()).unwrap();
    assert_eq!(read.inner, inner);
    assert_eq!(read.entries, vec![entries[1].clone(), entries[2].clone(), entries[0].clone()]);
    let written = NodeWithEntriesRef::new(read.kind, &read.inner, &read.entries).to_bytes();
    assert_eq!(written, bytes);
}
