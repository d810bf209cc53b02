//! Whether a node is a leaf or a tree.

use vstd::prelude::*;
use vstd::utf8::encode_utf8;
use crate::error::ParseError;
use crate::text::bytes_eq;

verus! {

/// Whether a node is a leaf, which has no children, or a tree, which may have some.
#[derive(Clone, Copy, Debug, PartialEq, Eq, Structural, Hash)]
pub enum NodeKind {
    /// A leaf node has no children.
    Leaf,
    /// A tree node may have children.
    Tree,
}

impl NodeKind {
    /// The name of the kind in the serialized form.
    pub open spec fn name(self) -> Seq<char> {
        match self {
            NodeKind::Leaf => "leaf"@,
            NodeKind::Tree => "tree"@,
        }
    }

    /// The kind that the bytes of a text name, if they name one.
    pub open spec fn named_by(text: Seq<u8>) -> Option<NodeKind> {
        if text == encode_utf8("leaf"@) {
            Some(NodeKind::Leaf)
        } else if text == encode_utf8("tree"@) {
            Some(NodeKind::Tree)
        } else {
            None
        }
    }

    /// The name of the kind in the serialized form: `leaf` or `tree`.
    pub fn as_ref(&self) -> (name: &'static str)
        ensures
            name@ == self.name(),
    {
        match self {
            NodeKind::Leaf => "leaf",
            NodeKind::Tree => "tree",
        }
    }

    /// The kind that the bytes of a text name.
    pub fn from_name_bytes(text: &[u8]) -> (r: Result<NodeKind, ParseError>)
        ensures
            r == match NodeKind::named_by(text@) {
                Some(kind) => Ok::<NodeKind, ParseError>(kind),
                None => Err::<NodeKind, ParseError>(ParseError::NodeKind),
            },
    {
        if bytes_eq(text, "leaf".as_bytes()) {
            Ok(NodeKind::Leaf)
        } else if bytes_eq(text, "tree".as_bytes()) {
            Ok(NodeKind::Tree)
        } else {
            Err(ParseError::NodeKind)
        }
    }

    /// The kind that `text` names: `leaf` or `tree`, in lower case.
    pub fn from_str(text: &str) -> (r: Result<NodeKind, ParseError>)
        ensures
            r == match NodeKind::named_by(encode_utf8(text@)) {
                Some(kind) => Ok::<NodeKind, ParseError>(kind),
                None => Err::<NodeKind, ParseError>(ParseError::NodeKind),
            },
    {
        NodeKind::from_name_bytes(text.as_bytes())
    }

    /// Whether the kind is `Tree`.
    pub fn is_tree(&self) -> (tree: bool)
        ensures
            tree == (*self == NodeKind::Tree),
    {
        match self {
            NodeKind::Leaf => false,
            NodeKind::Tree => true,
        }
    }
}

/// The two kinds have different names, and each name is read back as its kind.
pub proof fn lemma_kind_names(kind: NodeKind)
    ensures
        NodeKind::named_by(encode_utf8(kind.name())) == Some(kind),
        encode_utf8("leaf"@) != encode_utf8("tree"@),
        encode_utf8(kind.name()).len() == 4,
        crate::text::is_ascii_bytes(encode_utf8(kind.name())),
        forall|i: int| 0 <= i < 4 ==> 97 <= #[trigger] encode_utf8(kind.name())[i] <= 122,
{
    reveal_strlit("leaf");
    reveal_strlit("tree");
    vstd::utf8::is_ascii_chars_encode_utf8("leaf"@);
    vstd::utf8::is_ascii_chars_encode_utf8("tree"@);
    assert(encode_utf8("leaf"@)[0] != encode_utf8("tree"@)[0]);
}

} // verus!
