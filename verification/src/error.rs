//! The errors of the library, and their views for contracts.

use vstd::prelude::*;
use crate::hash::HashParseError;

verus! {

/// Why a field of a serialized node does not parse.
#[derive(Clone, Copy, Debug, PartialEq, Eq)]
pub enum ParseError {
    /// The text names no node kind.
    NodeKind,
    /// The text is not the hex form of a digest.
    Hash(HashParseError),
}

/// An error of building, reading or verifying a tree.
#[derive(Clone, Debug, PartialEq, Eq)]
pub enum GraphError {
    /// A serialized node states a version other than the supported one.
    InvalidNodeVersion(String),
    /// The bytes of a serialized node could not be read as text.
    IoRead(String),
    /// The bytes of a serialized node could not be written.
    IoWrite(String),
    /// No root node was found when the tree had been walked.
    MissingRootNode,
    /// A second root node was found while the tree was walked.
    MultipleRootNode,
    /// A field of a serialized node does not parse.
    Parse(ParseError),
    /// A serialized node is in a state that its format does not allow.
    ParseCustom(String),
    /// A blank line was expected, and the line holds this.
    ParseLineBlank(String),
    /// A line with the first key was expected, and the line has the second.
    ParseLineExpectedKey(String, String),
    /// The line is not of the form `key=value`.
    ParseLineKeyValueFormat(String),
    /// The child named second, of the node named first, has no hash yet.
    UnhashedChild(String, String),
    /// The node of this name has no hash.
    UnhashedNode(String),
    /// The stored hash, given first, is not the computed one, given second.
    Verify(crate::hash::Hash, crate::hash::Hash),
}

/// What a [`GraphError`] holds: its texts as characters, its hashes as bytes.
pub enum GraphErrorView {
    InvalidNodeVersion(Seq<char>),
    IoRead(Seq<char>),
    IoWrite(Seq<char>),
    MissingRootNode,
    MultipleRootNode,
    Parse(ParseError),
    ParseCustom(Seq<char>),
    ParseLineBlank(Seq<char>),
    ParseLineExpectedKey(Seq<char>, Seq<char>),
    ParseLineKeyValueFormat(Seq<char>),
    UnhashedChild(Seq<char>, Seq<char>),
    UnhashedNode(Seq<char>),
    Verify(Seq<u8>, Seq<u8>),
}

impl View for GraphError {
    type V = GraphErrorView;

    open spec fn view(&self) -> GraphErrorView {
        match self {
            GraphError::InvalidNodeVersion(s) => GraphErrorView::InvalidNodeVersion(s@),
            GraphError::IoRead(s) => GraphErrorView::IoRead(s@),
            GraphError::IoWrite(s) => GraphErrorView::IoWrite(s@),
            GraphError::MissingRootNode => GraphErrorView::MissingRootNode,
            GraphError::MultipleRootNode => GraphErrorView::MultipleRootNode,
            GraphError::Parse(e) => GraphErrorView::Parse(*e),
            GraphError::ParseCustom(s) => GraphErrorView::ParseCustom(s@),
            GraphError::ParseLineBlank(s) => GraphErrorView::ParseLineBlank(s@),
            GraphError::ParseLineExpectedKey(a, b) => GraphErrorView::ParseLineExpectedKey(a@, b@),
            GraphError::ParseLineKeyValueFormat(s) => GraphErrorView::ParseLineKeyValueFormat(s@),
            GraphError::UnhashedChild(a, b) => GraphErrorView::UnhashedChild(a@, b@),
            GraphError::UnhashedNode(s) => GraphErrorView::UnhashedNode(s@),
            GraphError::Verify(a, b) => GraphErrorView::Verify(a@, b@),
        }
    }
}

impl GraphError {
    /// The parsing error that wraps `err`.
    pub fn parse(err: ParseError) -> (e: GraphError)
        ensures
            e@ == GraphErrorView::Parse(err),
    {
        GraphError::Parse(err)
    }

    /// The parsing error that holds the message `msg`.
    pub fn parse_custom(msg: &str) -> (e: GraphError)
        ensures
            e@ == GraphErrorView::ParseCustom(msg@),
    {
        GraphError::ParseCustom(msg.to_owned())
    }

    /// The error as one line of text.
    pub fn to_string(&self) -> (text: String)
        ensures
            text@ == self@.message(),
    {
        match self {
            GraphError::InvalidNodeVersion(s) => join2("invalid node version when parsing from bytes: ", s.as_str()),
            GraphError::IoRead(_) => "error reading node representation from bytes".to_owned(),
            GraphError::IoWrite(_) => "error writing node representation as bytes".to_owned(),
            GraphError::MissingRootNode => "root node not set after traversing tree".to_owned(),
            GraphError::MultipleRootNode => "root node already set, cannot have multiple roots in tree".to_owned(),
            GraphError::Parse(e) => match e {
                ParseError::NodeKind => "error parsing node from bytes: invalid node kind".to_owned(),
                ParseError::Hash(HashParseError::InvalidLen) => "error parsing node from bytes: invalid hash length".to_owned(),
                ParseError::Hash(HashParseError::InvalidByte) => "error parsing node from bytes: invalid hash digit".to_owned(),
            },
            GraphError::ParseCustom(s) => join2("error parsing node from bytes: ", s.as_str()),
            GraphError::ParseLineBlank(s) => join3("parsing line was expected to be blank, but got '", s.as_str(), "'"),
            GraphError::ParseLineExpectedKey(a, b) => {
                let head = join3("parsing key/value line error, expected key '", a.as_str(), "', but got '");
                join3(head.as_str(), b.as_str(), "'")
            },
            GraphError::ParseLineKeyValueFormat(s) => join3("could not parse line as 'key=value': '", s.as_str(), "'"),
            GraphError::UnhashedChild(a, b) => {
                let head = join3("unhashed child node for '", a.as_str(), "' with name: ");
                join2(head.as_str(), b.as_str())
            },
            GraphError::UnhashedNode(s) => join2("unhashed node with name: ", s.as_str()),
            GraphError::Verify(a, b) => {
                let head = join3("failed to verify hash; expected=", a.to_string().as_str(), ", computed=");
                join2(head.as_str(), b.to_string().as_str())
            },
        }
    }
}

impl GraphErrorView {
    /// The error as one line of text.
    pub open spec fn message(self) -> Seq<char> {
        match self {
            GraphErrorView::InvalidNodeVersion(s) => "invalid node version when parsing from bytes: "@ + s,
            GraphErrorView::IoRead(_) => "error reading node representation from bytes"@,
            GraphErrorView::IoWrite(_) => "error writing node representation as bytes"@,
            GraphErrorView::MissingRootNode => "root node not set after traversing tree"@,
            GraphErrorView::MultipleRootNode => "root node already set, cannot have multiple roots in tree"@,
            GraphErrorView::Parse(e) => match e {
                ParseError::NodeKind => "error parsing node from bytes: invalid node kind"@,
                ParseError::Hash(HashParseError::InvalidLen) => "error parsing node from bytes: invalid hash length"@,
                ParseError::Hash(HashParseError::InvalidByte) => "error parsing node from bytes: invalid hash digit"@,
            },
            GraphErrorView::ParseCustom(s) => "error parsing node from bytes: "@ + s,
            GraphErrorView::ParseLineBlank(s) => "parsing line was expected to be blank, but got '"@ + s + "'"@,
            GraphErrorView::ParseLineExpectedKey(a, b) =>
                "parsing key/value line error, expected key '"@ + a + "', but got '"@ + b + "'"@,
            GraphErrorView::ParseLineKeyValueFormat(s) => "could not parse line as 'key=value': '"@ + s + "'"@,
            GraphErrorView::UnhashedChild(a, b) => "unhashed child node for '"@ + a + "' with name: "@ + b,
            GraphErrorView::UnhashedNode(s) => "unhashed node with name: "@ + s,
            GraphErrorView::Verify(a, b) =>
                "failed to verify hash; expected="@ + crate::text::ascii_chars(crate::hash::hex_of(a))
                    + ", computed="@ + crate::text::ascii_chars(crate::hash::hex_of(b)),
        }
    }
}

fn join2(a: &str, b: &str) -> (out: String)
    ensures
        out@ == a@ + b@,
{
    let mut out = a.to_owned();
    out.append(b);
    out
}

fn join3(a: &str, b: &str, c: &str) -> (out: String)
    ensures
        out@ == a@ + b@ + c@,
{
    let mut out = a.to_owned();
    out.append(b);
    out.append(c);
    out
}

} // verus!
