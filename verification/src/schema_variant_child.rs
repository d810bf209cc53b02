//! The node that groups the children of one kind under a schema variant.

use vstd::prelude::*;
use vstd::std_specs::convert::FromSpec;
use crate::codec::{
    first_line_len, parse_key_value_line, read_key_value_line, write_key_value_line, key_value_line,
    ByteReader,
};
use crate::error::{GraphError, GraphErrorView};
use crate::kind::NodeKind;
use crate::node::NodeWithChildren;
use crate::text::str_eq;
use crate::traits::{NameStr, ReadBytes, WriteBytes};

verus! {

const VARIANT_CHILD_TYPE_COMMAND_FUNCS: &'static str = "command_funcs";

const VARIANT_CHILD_TYPE_DOMAIN: &'static str = "domain";

const VARIANT_CHILD_TYPE_FUNC_DESCRIPTIONS: &'static str = "func_descriptions";

const VARIANT_CHILD_TYPE_LEAF_FUNCTIONS: &'static str = "leaf_functions";

const VARIANT_CHILD_TYPE_RESOURCE_VALUE: &'static str = "resource_value";

const VARIANT_CHILD_TYPE_SI_PROP_FUNCS: &'static str = "si_prop_funcs";

const VARIANT_CHILD_TYPE_SOCKETS: &'static str = "sockets";

const VARIANT_CHILD_TYPE_WORKFLOWS: &'static str = "workflows";

const KEY_KIND_STR: &'static str = "kind";

/// The children of a schema variant, grouped by their kind. Each child is given as the tree
/// of its nodes; the domain and the resource value are one child each.
pub enum SchemaVariantChild<T> {
    CommandFuncs(Vec<NodeWithChildren<T>>),
    Domain(NodeWithChildren<T>),
    FuncDescriptions(Vec<NodeWithChildren<T>>),
    LeafFunctions(Vec<NodeWithChildren<T>>),
    ResourceValue(NodeWithChildren<T>),
    SiPropFuncs(Vec<NodeWithChildren<T>>),
    Sockets(Vec<NodeWithChildren<T>>),
    Workflows(Vec<NodeWithChildren<T>>),
}

impl<T> SchemaVariantChild<T> {
    /// The node that stands for the group.
    pub open spec fn node_spec(&self) -> SchemaVariantChildNode {
        match self {
            Self::CommandFuncs(_) => SchemaVariantChildNode::CommandFuncs,
            Self::Domain(_) => SchemaVariantChildNode::Domain,
            Self::FuncDescriptions(_) => SchemaVariantChildNode::FuncDescriptions,
            Self::LeafFunctions(_) => SchemaVariantChildNode::LeafFunctions,
            Self::ResourceValue(_) => SchemaVariantChildNode::ResourceValue,
            Self::SiPropFuncs(_) => SchemaVariantChildNode::SiPropFuncs,
            Self::Sockets(_) => SchemaVariantChildNode::Sockets,
            Self::Workflows(_) => SchemaVariantChildNode::Workflows,
        }
    }

    /// The children of the group, in their order.
    pub open spec fn children_spec(&self) -> Seq<NodeWithChildren<T>> {
        match self {
            Self::CommandFuncs(children) => children@,
            Self::Domain(child) => seq![*child],
            Self::FuncDescriptions(children) => children@,
            Self::LeafFunctions(children) => children@,
            Self::ResourceValue(child) => seq![*child],
            Self::SiPropFuncs(children) => children@,
            Self::Sockets(children) => children@,
            Self::Workflows(children) => children@,
        }
    }

    /// Returns the node that stands for the group.
    pub fn node(&self) -> (node: SchemaVariantChildNode)
        ensures
            node == self.node_spec(),
    {
        match self {
            Self::CommandFuncs(_) => SchemaVariantChildNode::CommandFuncs,
            Self::Domain(_) => SchemaVariantChildNode::Domain,
            Self::FuncDescriptions(_) => SchemaVariantChildNode::FuncDescriptions,
            Self::LeafFunctions(_) => SchemaVariantChildNode::LeafFunctions,
            Self::ResourceValue(_) => SchemaVariantChildNode::ResourceValue,
            Self::SiPropFuncs(_) => SchemaVariantChildNode::SiPropFuncs,
            Self::Sockets(_) => SchemaVariantChildNode::Sockets,
            Self::Workflows(_) => SchemaVariantChildNode::Workflows,
        }
    }

    /// Returns the tree of the group: a tree node over the children of the group, whose
    /// payload is made from the node that stands for the group.
    pub fn as_node_with_children(self) -> (tree: NodeWithChildren<T>) where
        T: From<SchemaVariantChildNode>,
        ensures
            tree.kind == NodeKind::Tree,
            <T as FromSpec<SchemaVariantChildNode>>::obeys_from_spec() ==> tree.inner == <T as FromSpec<
                SchemaVariantChildNode,
            >>::from_spec(self.node_spec()),
            tree.children@ == self.children_spec(),
    {
        match self {
            Self::CommandFuncs(command_funcs) => NodeWithChildren::new(
                NodeKind::Tree,
                T::from(SchemaVariantChildNode::CommandFuncs),
                command_funcs,
            ),
            Self::Domain(domain) => {
                let mut children: Vec<NodeWithChildren<T>> = Vec::new();
                children.push(domain);
                assert(children@ =~= seq![domain]);
                NodeWithChildren::new(
                    NodeKind::Tree,
                    T::from(SchemaVariantChildNode::Domain),
                    children,
                )
            },
            Self::ResourceValue(resource_value) => {
                let mut children: Vec<NodeWithChildren<T>> = Vec::new();
                children.push(resource_value);
                assert(children@ =~= seq![resource_value]);
                NodeWithChildren::new(
                    NodeKind::Tree,
                    T::from(SchemaVariantChildNode::ResourceValue),
                    children,
                )
            },
            Self::FuncDescriptions(descriptions) => NodeWithChildren::new(
                NodeKind::Tree,
                T::from(SchemaVariantChildNode::FuncDescriptions),
                descriptions,
            ),
            Self::LeafFunctions(entries) => NodeWithChildren::new(
                NodeKind::Tree,
                T::from(SchemaVariantChildNode::LeafFunctions),
                entries,
            ),
            Self::Sockets(sockets) => NodeWithChildren::new(
                NodeKind::Tree,
                T::from(SchemaVariantChildNode::Sockets),
                sockets,
            ),
            Self::SiPropFuncs(si_prop_funcs) => NodeWithChildren::new(
                NodeKind::Tree,
                T::from(SchemaVariantChildNode::SiPropFuncs),
                si_prop_funcs,
            ),
            Self::Workflows(workflows) => NodeWithChildren::new(
                NodeKind::Tree,
                T::from(SchemaVariantChildNode::Workflows),
                workflows,
            ),
        }
    }
}

/// Which group of children of a schema variant a node stands for.
#[derive(Clone, Copy, Debug, PartialEq, Eq, Structural)]
pub enum SchemaVariantChildNode {
    CommandFuncs,
    Domain,
    FuncDescriptions,
    LeafFunctions,
    ResourceValue,
    SiPropFuncs,
    Sockets,
    Workflows,
}

impl SchemaVariantChildNode {
    /// The tag of the group in the serialized form.
    pub open spec fn kind_text(self) -> Seq<char> {
        match self {
            Self::CommandFuncs => "command_funcs"@,
            Self::Domain => "domain"@,
            Self::FuncDescriptions => "func_descriptions"@,
            Self::LeafFunctions => "leaf_functions"@,
            Self::ResourceValue => "resource_value"@,
            Self::SiPropFuncs => "si_prop_funcs"@,
            Self::Sockets => "sockets"@,
            Self::Workflows => "workflows"@,
        }
    }

    /// The group that `text` is the tag of, if it is one.
    pub open spec fn tagged_by(text: Seq<char>) -> Option<Self> {
        if text == "command_funcs"@ {
            Some(Self::CommandFuncs)
        } else if text == "domain"@ {
            Some(Self::Domain)
        } else if text == "func_descriptions"@ {
            Some(Self::FuncDescriptions)
        } else if text == "leaf_functions"@ {
            Some(Self::LeafFunctions)
        } else if text == "resource_value"@ {
            Some(Self::ResourceValue)
        } else if text == "si_prop_funcs"@ {
            Some(Self::SiPropFuncs)
        } else if text == "sockets"@ {
            Some(Self::Sockets)
        } else if text == "workflows"@ {
            Some(Self::Workflows)
        } else {
            None
        }
    }

    /// Returns the tag of the group in the serialized form.
    pub fn kind_str(&self) -> (tag: &'static str)
        ensures
            tag@ == self.kind_text(),
    {
        match self {
            Self::CommandFuncs => VARIANT_CHILD_TYPE_COMMAND_FUNCS,
            Self::Domain => VARIANT_CHILD_TYPE_DOMAIN,
            Self::FuncDescriptions => VARIANT_CHILD_TYPE_FUNC_DESCRIPTIONS,
            Self::LeafFunctions => VARIANT_CHILD_TYPE_LEAF_FUNCTIONS,
            Self::ResourceValue => VARIANT_CHILD_TYPE_RESOURCE_VALUE,
            Self::SiPropFuncs => VARIANT_CHILD_TYPE_SI_PROP_FUNCS,
            Self::Sockets => VARIANT_CHILD_TYPE_SOCKETS,
            Self::Workflows => VARIANT_CHILD_TYPE_WORKFLOWS,
        }
    }

    /// Returns the group that `text` is the tag of, if it is one.
    pub fn from_kind_str(text: &str) -> (node: Option<Self>)
        ensures
            node == Self::tagged_by(text@),
    {
        if str_eq(text, VARIANT_CHILD_TYPE_COMMAND_FUNCS) {
            Some(Self::CommandFuncs)
        } else if str_eq(text, VARIANT_CHILD_TYPE_DOMAIN) {
            Some(Self::Domain)
        } else if str_eq(text, VARIANT_CHILD_TYPE_FUNC_DESCRIPTIONS) {
            Some(Self::FuncDescriptions)
        } else if str_eq(text, VARIANT_CHILD_TYPE_LEAF_FUNCTIONS) {
            Some(Self::LeafFunctions)
        } else if str_eq(text, VARIANT_CHILD_TYPE_RESOURCE_VALUE) {
            Some(Self::ResourceValue)
        } else if str_eq(text, VARIANT_CHILD_TYPE_SI_PROP_FUNCS) {
            Some(Self::SiPropFuncs)
        } else if str_eq(text, VARIANT_CHILD_TYPE_SOCKETS) {
            Some(Self::Sockets)
        } else if str_eq(text, VARIANT_CHILD_TYPE_WORKFLOWS) {
            Some(Self::Workflows)
        } else {
            None
        }
    }
}

impl NameStr for SchemaVariantChildNode {
    open spec fn name_spec(&self) -> Seq<char> {
        self.kind_text()
    }

    fn name(&self) -> (name: &str) {
        self.kind_str()
    }
}

impl WriteBytes for SchemaVariantChildNode {
    open spec fn bytes_spec(&self) -> Seq<u8> {
        key_value_line("kind"@, self.kind_text())
    }

    fn write_bytes(&self, writer: &mut Vec<u8>) {
        write_key_value_line(writer, KEY_KIND_STR, self.kind_str());
    }
}

impl ReadBytes for SchemaVariantChildNode {
    open spec fn read_error(input: Seq<u8>) -> Option<GraphErrorView> {
        match parse_key_value_line(input, "kind"@) {
            Ok(value) => match Self::tagged_by(value) {
                Some(_) => None,
                None => Some(
                    GraphErrorView::ParseCustom("invalid schema variant child kind: "@ + value),
                ),
            },
            Err(e) => Some(e),
        }
    }

    open spec fn read_len(input: Seq<u8>) -> int {
        first_line_len(input)
    }

    open spec fn read_value(input: Seq<u8>, value: Self) -> bool {
        match parse_key_value_line(input, "kind"@) {
            Ok(text) => Self::tagged_by(text) == Some(value),
            Err(_) => false,
        }
    }

    fn read_bytes(reader: &mut ByteReader) -> (r: Result<Self, GraphError>) {
        proof {
            crate::codec::lemma_first_line(reader.remaining());
        }
        let ghost input = reader.remaining();
        let kind_str = read_key_value_line(reader, KEY_KIND_STR)?;
        match Self::from_kind_str(kind_str.as_str()) {
            Some(node) => {
                assert(Self::read_len(input) == first_line_len(input));
                Ok(node)
            },
            None => {
                let mut msg = "invalid schema variant child kind: ".to_owned();
                msg.append(kind_str.as_str());
                Err(GraphError::ParseCustom(msg))
            },
        }
    }
}

/// The tags tell the groups apart: each tag is read back as its group.
pub proof fn lemma_kind_text_tagged(node: SchemaVariantChildNode)
    ensures
        SchemaVariantChildNode::tagged_by(node.kind_text()) == Some(node),
{
    reveal_strlit("command_funcs");
    reveal_strlit("domain");
    reveal_strlit("func_descriptions");
    reveal_strlit("leaf_functions");
    reveal_strlit("resource_value");
    reveal_strlit("si_prop_funcs");
    reveal_strlit("sockets");
    reveal_strlit("workflows");
    assert("command_funcs"@[0] != "si_prop_funcs"@[0]);
    assert("leaf_functions"@[0] != "resource_value"@[0]);
    assert("command_funcs"@.len() == 13 && "domain"@.len() == 6);
    assert("func_descriptions"@.len() == 17 && "leaf_functions"@.len() == 14);
    assert("sockets"@.len() == 7 && "workflows"@.len() == 9);
}

/// Round trip: the bytes of a node are read back as that node, whatever follows them.
pub proof fn lemma_round_trip(node: SchemaVariantChildNode, rest: Seq<u8>, read: SchemaVariantChildNode)
    ensures
        SchemaVariantChildNode::read_error(node.bytes_spec() + rest) is None,
        SchemaVariantChildNode::read_len(node.bytes_spec() + rest) == node.bytes_spec().len(),
        SchemaVariantChildNode::read_value(node.bytes_spec() + rest, read) <==> read == node,
{
    reveal_strlit("kind");
    reveal_strlit("command_funcs");
    reveal_strlit("domain");
    reveal_strlit("func_descriptions");
    reveal_strlit("leaf_functions");
    reveal_strlit("resource_value");
    reveal_strlit("si_prop_funcs");
    reveal_strlit("sockets");
    reveal_strlit("workflows");
    assert(crate::roundtrip::is_plain_text("kind"@));
    assert(crate::roundtrip::is_plain_text(node.kind_text()));
    crate::roundtrip::lemma_plain_text("kind"@);
    crate::roundtrip::lemma_plain_text(node.kind_text());
    crate::roundtrip::lemma_read_key_value_line("kind"@, node.kind_text(), rest);
    lemma_kind_text_tagged(node);
    crate::codec::lemma_first_line(node.bytes_spec() + rest);
    assert(first_line_len(node.bytes_spec() + rest) == node.bytes_spec().len()) by {
        assert((node.bytes_spec() + rest).skip(node.bytes_spec().len() as int) =~= rest);
        let n = first_line_len(node.bytes_spec() + rest);
        assert((node.bytes_spec() + rest).skip(n).len() == rest.len());
    }
}

} // verus!
