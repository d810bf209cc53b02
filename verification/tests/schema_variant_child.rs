use object_tree::error::GraphError;
use object_tree::kind::NodeKind;
use object_tree::node::NodeWithChildren;
use object_tree::schema_variant_child::{SchemaVariantChild, SchemaVariantChildNode};
use object_tree::traits::{NameStr, ReadBytes, WriteBytes};

#[test]
fn schema_variant_child_node_kind_str() {
    assert_eq!(SchemaVariantChildNode::CommandFuncs.kind_str(), "command_funcs");
    assert_eq!(SchemaVariantChildNode::Domain.kind_str(), "domain");
    assert_eq!(SchemaVariantChildNode::FuncDescriptions.kind_str(), "func_descriptions");
    assert_eq!(SchemaVariantChildNode::LeafFunctions.kind_str(), "leaf_functions");
    assert_eq!(SchemaVariantChildNode::ResourceValue.kind_str(), "resource_value");
    assert_eq!(SchemaVariantChildNode::SiPropFuncs.kind_str(), "si_prop_funcs");
    assert_eq!(SchemaVariantChildNode::Sockets.kind_str(), "sockets");
    assert_eq!(SchemaVariantChildNode::Workflows.kind_str(), "workflows");
}

#[test]
fn schema_variant_child_node_name_is_its_kind() {
    assert_eq!(SchemaVariantChildNode::Sockets.name(), "sockets");
    assert_eq!(SchemaVariantChildNode::ResourceValue.name(), "resource_value");
}

#[test]
fn schema_variant_child_node_round_trips() {
    let all = [
        SchemaVariantChildNode::CommandFuncs,
        SchemaVariantChildNode::Domain,
        SchemaVariantChildNode::FuncDescriptions,
        SchemaVariantChildNode::LeafFunctions,
        SchemaVariantChildNode::ResourceValue,
        SchemaVariantChildNode::SiPropFuncs,
        SchemaVariantChildNode::Sockets,
        SchemaVariantChildNode::Workflows,
    ];
    for node in all {
        let bytes = node.to_bytes();
        assert_eq!(bytes, format!("kind={}\n", node.kind_str()).into_bytes());
        assert_eq!(SchemaVariantChildNode::from_bytes(bytes), Ok(node));
    }
}

#[test]
fn schema_variant_child_node_from_kind_str() {
    assert_eq!(
        SchemaVariantChildNode::from_kind_str("leaf_functions"),
        Some(SchemaVariantChildNode::LeafFunctions)
    );
    assert_eq!(SchemaVariantChildNode::from_kind_str("Domain"), None);
}

#[test]
fn schema_variant_child_node_rejects_unknown_kind() {
    let r = SchemaVariantChildNode::from_bytes(b"kind=nope\n".to_vec());
    assert_eq!(
        r,
        Err(GraphError::ParseCustom("invalid schema variant child kind: nope".to_string()))
    );
}

#[test]
fn schema_variant_child_node_rejects_other_key() {
    let r = SchemaVariantChildNode::from_bytes(b"type=domain\n".to_vec());
    assert_eq!(
        r,
        Err(GraphError::ParseLineExpectedKey("kind".to_string(), "type".to_string()))
    );
}

#[derive(Debug, Clone, PartialEq, Eq)]
enum PkgNode {
    Leaf(String),
    SchemaVariantChild(SchemaVariantChildNode),
}

impl From<SchemaVariantChildNode> for PkgNode {
    fn from(value: SchemaVariantChildNode) -> Self {
        PkgNode::SchemaVariantChild(value)
    }
}

fn child(name: &str) -> NodeWithChildren<PkgNode> {
    NodeWithChildren::new(NodeKind::Leaf, PkgNode::Leaf(name.to_string()), vec![])
}

fn names(tree: &NodeWithChildren<PkgNode>) -> Vec<PkgNode> {
    tree.children.iter().map(|c| c.inner.clone()).collect()
}

#[test]
fn schema_variant_child_of_a_list_has_its_items_as_children() {
    let group = SchemaVariantChild::Sockets(vec![child("in"), child("out")]);
    assert_eq!(group.node(), SchemaVariantChildNode::Sockets);
    let tree = group.as_node_with_children();
    assert_eq!(tree.kind, NodeKind::Tree);
    assert_eq!(tree.inner, PkgNode::SchemaVariantChild(SchemaVariantChildNode::Sockets));
    assert_eq!(
        names(&tree),
        vec![PkgNode::Leaf("in".to_string()), PkgNode::Leaf("out".to_string())]
    );
}

#[test]
fn schema_variant_child_of_one_item_has_one_child() {
    let group = SchemaVariantChild::Domain(child("domain"));
    assert_eq!(group.node(), SchemaVariantChildNode::Domain);
    let tree = group.as_node_with_children();
    assert_eq!(tree.kind, NodeKind::Tree);
    assert_eq!(tree.inner, PkgNode::SchemaVariantChild(SchemaVariantChildNode::Domain));
    assert_eq!(names(&tree), vec![PkgNode::Leaf("domain".to_string())]);

    let group = SchemaVariantChild::ResourceValue(child("resource"));
    assert_eq!(group.node(), SchemaVariantChildNode::ResourceValue);
    let tree = group.as_node_with_children();
    assert_eq!(tree.inner, PkgNode::SchemaVariantChild(SchemaVariantChildNode::ResourceValue));
    assert_eq!(names(&tree), vec![PkgNode::Leaf("resource".to_string())]);
}

#[test]
fn schema_variant_child_nodes_of_every_group() {
    let groups: Vec<(SchemaVariantChild<PkgNode>, SchemaVariantChildNode)> = vec![
        (SchemaVariantChild::CommandFuncs(vec![]), SchemaVariantChildNode::CommandFuncs),
        (SchemaVariantChild::FuncDescriptions(vec![]), SchemaVariantChildNode::FuncDescriptions),
        (SchemaVariantChild::LeafFunctions(vec![]), SchemaVariantChildNode::LeafFunctions),
        (SchemaVariantChild::SiPropFuncs(vec![]), SchemaVariantChildNode::SiPropFuncs),
        (SchemaVariantChild::Sockets(vec![]), SchemaVariantChildNode::Sockets),
        (SchemaVariantChild::Workflows(vec![]), SchemaVariantChildNode::Workflows),
    ];
    for (group, node) in groups {
        assert_eq!(group.node(), node);
        let tree = group.as_node_with_children();
        assert_eq!(tree.kind, NodeKind::Tree);
        assert_eq!(tree.inner, PkgNode::SchemaVariantChild(node));
        assert!(tree.children.is_empty());
    }
}
