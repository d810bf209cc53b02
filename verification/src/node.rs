//! The nodes of a tree in their several forms, and the canonical bytes of a node.

use vstd::prelude::*;
use vstd::utf8::encode_utf8;
use crate::codec::{
    after_first_line, key_value_line, parse_blank_line, parse_key_value_line, read_empty_line,
    read_key_value_line, separator_line, write_key_value_line, write_separator_bytes, ByteReader,
};
use crate::entry::{
    entry_lines, entry_views, parse_entry_lines, picked, read_node_entry_lines, sort_entries,
    sorted_order, NodeEntry, NodeEntryView,
};
use crate::error::{GraphError, GraphErrorView, ParseError};
use crate::kind::NodeKind;
use crate::text::str_eq;
use crate::traits::{NameStr, ObjectKindStr, ReadBytes, VerifyHash, WriteBytes};

verus! {

const KEY_VERSION_STR: &'static str = "version";

const KEY_NODE_KIND_STR: &'static str = "node_kind";

const KEY_OBJECT_KIND_STR: &'static str = "object_kind";

const VAL_VERSION_STR: &'static str = "1";

const VAL_OBJECT_KIND_STR: &'static str = "prop";

/// The header of a serialized node: its version, its kind and the kind of its payload.
pub open spec fn header_bytes(kind: NodeKind, object_kind: Seq<char>) -> Seq<u8> {
    key_value_line("version"@, "1"@) + key_value_line("node_kind"@, kind.name()) + key_value_line(
        "object_kind"@,
        object_kind,
    )
}

/// The block that lists the children of a node: a blank line and the entry lines, sorted by
/// name. A leaf has none, nor has a tree without children.
pub open spec fn entries_block(kind: NodeKind, entries: Seq<NodeEntryView>) -> Seq<u8> {
    if kind == NodeKind::Tree && entries.len() > 0 {
        separator_line() + entry_lines(sort_entries(entries))
    } else {
        Seq::empty()
    }
}

/// The canonical bytes of a node: header, blank line, payload, and the block of its entries.
pub open spec fn node_bytes(
    kind: NodeKind,
    object_kind: Seq<char>,
    payload: Seq<u8>,
    entries: Seq<NodeEntryView>,
) -> Seq<u8> {
    header_bytes(kind, object_kind) + separator_line() + payload + entries_block(kind, entries)
}

/// Appends the header of a node to `writer`.
pub fn write_header_bytes(writer: &mut Vec<u8>, kind: NodeKind, object_kind: &str)
    ensures
        final(writer)@ == old(writer)@ + header_bytes(kind, object_kind@),
{
    write_key_value_line(writer, KEY_VERSION_STR, VAL_VERSION_STR);
    write_key_value_line(writer, KEY_NODE_KIND_STR, kind.as_ref());
    write_key_value_line(writer, KEY_OBJECT_KIND_STR, object_kind);
    assert(writer@ =~= old(writer)@ + header_bytes(kind, object_kind@));
}

/// Appends the canonical bytes of a node to `writer`.
pub fn write_node_bytes<T: WriteBytes + ObjectKindStr>(
    writer: &mut Vec<u8>,
    kind: NodeKind,
    inner: &T,
    entries: &[NodeEntry],
)
    ensures
        final(writer)@ == old(writer)@ + node_bytes(
            kind,
            inner.object_kind_spec(),
            inner.bytes_spec(),
            entry_views(entries@),
        ),
{
    write_header_bytes(writer, kind, inner.object_kind());
    write_separator_bytes(writer);
    inner.write_bytes(writer);
    let ghost before = writer@;
    if kind.is_tree() && entries.len() > 0 {
        write_separator_bytes(writer);
        // Entries are written in one order whatever order they were given in: by name.
        let order = sorted_order(entries);
        let ghost sorted = picked(entries@, order@);
        let ghost start = writer@;
        let mut i: usize = 0;
        while i < order.len()
            invariant
                0 <= i <= order@.len(),
                forall|k: int| 0 <= k < order@.len() ==> #[trigger] order@[k] < entries@.len(),
                sorted == picked(entries@, order@),
                writer@ == start + entry_lines(sorted.take(i as int)),
            decreases order@.len() - i,
        {
            proof {
                assert(sorted.take(i + 1).drop_last() =~= sorted.take(i as int));
                assert(sorted.take(i + 1).last() == entries@[order@[i as int] as int]@);
            }
            entries[order[i]].write_bytes(writer);
            assert(writer@ =~= start + entry_lines(sorted.take(i + 1)));
            i += 1;
        }
        assert(sorted.take(i as int) =~= sorted);
        assert(writer@ =~= before + entries_block(kind, entry_views(entries@)));
    }
    assert(writer@ =~= old(writer)@ + node_bytes(
        kind,
        inner.object_kind_spec(),
        inner.bytes_spec(),
        entry_views(entries@),
    ));
}

/// A node of a tree that has no hash yet.
#[derive(Clone, Debug)]
pub struct Node<T> {
    pub kind: NodeKind,
    pub inner: T,
}

/// A node that has no hash yet, with the trees of its children.
pub struct NodeWithChildren<T> {
    pub kind: NodeKind,
    pub inner: T,
    pub children: Vec<NodeWithChildren<T>>,
}

impl<T> NodeWithChildren<T> {
    /// A node of the given kind and payload with the given children.
    pub fn new(kind: NodeKind, inner: T, children: Vec<NodeWithChildren<T>>) -> (node: Self)
        ensures
            node == (NodeWithChildren { kind, inner, children }),
    {
        Self { kind, inner, children }
    }

    /// Parts the node from the trees of its children.
    pub fn into_parts(self) -> (parts: (Node<T>, Vec<NodeWithChildren<T>>))
        ensures
            parts.0 == (Node { kind: self.kind, inner: self.inner }),
            parts.1 == self.children,
    {
        (Node { kind: self.kind, inner: self.inner }, self.children)
    }
}

/// A node that has no hash yet, by reference, with the entries of its children.
pub struct NodeWithEntriesRef<'a, T> {
    pub kind: NodeKind,
    pub inner: &'a T,
    pub entries: &'a [NodeEntry],
}

impl<'a, T> NodeWithEntriesRef<'a, T> {
    /// A node of the given kind and payload whose children have the given entries.
    pub fn new(kind: NodeKind, inner: &'a T, entries: &'a [NodeEntry]) -> (node: Self)
        ensures
            node == (NodeWithEntriesRef { kind, inner, entries }),
    {
        Self { kind, inner, entries }
    }
}

impl<'a, T: WriteBytes + ObjectKindStr> WriteBytes for NodeWithEntriesRef<'a, T> {
    open spec fn bytes_spec(&self) -> Seq<u8> {
        node_bytes(
            self.kind,
            self.inner.object_kind_spec(),
            self.inner.bytes_spec(),
            entry_views(self.entries@),
        )
    }

    fn write_bytes(&self, writer: &mut Vec<u8>) {
        write_node_bytes(writer, self.kind, self.inner, self.entries);
    }
}

/// A node that has no hash yet, with the entries of its children.
pub struct NodeWithEntries<T> {
    pub kind: NodeKind,
    pub inner: T,
    pub entries: Vec<NodeEntry>,
}

/// What the header of a serialized node says of its kind, or why the header is refused. The
/// header is four lines: the version, which must be `1`; the kind of the node; the kind of the
/// payload, which must be `expected`; and a blank line.
pub open spec fn parse_header(input: Seq<u8>, expected: Seq<char>) -> Result<
    NodeKind,
    GraphErrorView,
> {
    let second = after_first_line(input);
    let third = after_first_line(second);
    let fourth = after_first_line(third);
    let version = parse_key_value_line(input, "version"@);
    let node_kind = parse_key_value_line(second, "node_kind"@);
    let object_kind = parse_key_value_line(third, "object_kind"@);
    let blank = parse_blank_line(fourth);
    if version is Err {
        Err(version->Err_0)
    } else if version->Ok_0 != "1"@ {
        Err(GraphErrorView::InvalidNodeVersion(version->Ok_0))
    } else if node_kind is Err {
        Err(node_kind->Err_0)
    } else if NodeKind::named_by(encode_utf8(node_kind->Ok_0)) is None {
        Err(GraphErrorView::Parse(ParseError::NodeKind))
    } else if object_kind is Err {
        Err(object_kind->Err_0)
    } else if object_kind->Ok_0 != expected {
        Err(GraphErrorView::ParseCustom("expected object kind to be "@ + expected))
    } else if blank is Err {
        Err(blank->Err_0)
    } else {
        Ok(NodeKind::named_by(encode_utf8(node_kind->Ok_0))->0)
    }
}

/// What follows the four lines of the header.
pub open spec fn after_header(input: Seq<u8>) -> Seq<u8> {
    after_first_line(after_first_line(after_first_line(after_first_line(input))))
}

/// What the bytes behind the payload hold of the children: nothing for a leaf; for a tree a
/// blank line and then entry lines to the end of the input.
pub open spec fn parse_entries_block(kind: NodeKind, input: Seq<u8>) -> Result<
    Seq<NodeEntryView>,
    GraphErrorView,
> {
    match kind {
        NodeKind::Leaf => Ok(Seq::empty()),
        NodeKind::Tree => match parse_blank_line(input) {
            Err(e) => Err(e),
            Ok(_) => parse_entry_lines(after_first_line(input)),
        },
    }
}

/// Why no node can be read from the front of `input`, where that is so: the error of the
/// header, else that of the payload, else that of the entries.
pub open spec fn node_read_error<T: ReadBytes>(input: Seq<u8>, expected: Seq<char>) -> Option<
    GraphErrorView,
> {
    let body = after_header(input);
    match parse_header(input, expected) {
        Err(e) => Some(e),
        Ok(kind) => match T::read_error(body) {
            Some(e) => Some(e),
            None => match parse_entries_block(kind, body.skip(T::read_len(body))) {
                Err(e) => Some(e),
                Ok(_) => None,
            },
        },
    }
}

/// The number of bytes that reading a node from the front of `input` takes: all of them for
/// a tree, the header and the payload for a leaf.
pub open spec fn node_read_len<T: ReadBytes>(input: Seq<u8>, expected: Seq<char>) -> int {
    let body = after_header(input);
    if parse_header(input, expected) == Ok::<NodeKind, GraphErrorView>(NodeKind::Tree) {
        input.len() as int
    } else {
        input.len() - body.len() + T::read_len(body)
    }
}

/// Whether `value` is the node that the front of `input` holds.
pub open spec fn node_read_value<T: ReadBytes>(
    input: Seq<u8>,
    expected: Seq<char>,
    value: NodeWithEntries<T>,
) -> bool {
    let body = after_header(input);
    &&& parse_header(input, expected) == Ok::<NodeKind, GraphErrorView>(value.kind)
    &&& T::read_value(body, value.inner)
    &&& parse_entries_block(value.kind, body.skip(T::read_len(body))) == Ok::<
        Seq<NodeEntryView>,
        GraphErrorView,
    >(entry_views(value.entries@))
}

/// The four lines of a header begin the input, and what follows them is its end.
pub proof fn lemma_after_header(input: Seq<u8>)
    ensures
        after_header(input).len() <= input.len(),
        after_header(input) == input.skip(input.len() - after_header(input).len()),
{
    let second = after_first_line(input);
    let third = after_first_line(second);
    let fourth = after_first_line(third);
    crate::codec::lemma_first_line(input);
    crate::codec::lemma_first_line(second);
    crate::codec::lemma_first_line(third);
    crate::codec::lemma_first_line(fourth);
    assert(after_header(input) =~= input.skip(input.len() - after_header(input).len()));
}

/// Reads the header of a node whose payload must be of the kind `object_kind`, and returns
/// the kind of the node.
fn read_header(reader: &mut ByteReader, object_kind: &str) -> (r: Result<NodeKind, GraphError>)
    ensures
        match parse_header(old(reader).remaining(), object_kind@) {
            Ok(kind) => r == Ok::<NodeKind, GraphError>(kind) && final(reader).remaining()
                == after_header(old(reader).remaining()),
            Err(e) => r is Err && r->Err_0@ == e,
        },
{
    let version_str = read_key_value_line(reader, KEY_VERSION_STR)?;
    if !str_eq(version_str.as_str(), VAL_VERSION_STR) {
        return Err(GraphError::InvalidNodeVersion(version_str));
    }
    let kind_str = read_key_value_line(reader, KEY_NODE_KIND_STR)?;
    let kind = match NodeKind::from_str(kind_str.as_str()) {
        Ok(kind) => kind,
        Err(e) => {
            return Err(GraphError::parse(e));
        },
    };
    let object_kind_str = read_key_value_line(reader, KEY_OBJECT_KIND_STR)?;
    if !str_eq(object_kind_str.as_str(), object_kind) {
        let mut msg = "expected object kind to be ".to_owned();
        msg.append(object_kind);
        return Err(GraphError::ParseCustom(msg));
    }
    read_empty_line(reader)?;
    Ok(kind)
}

/// Reads what stands behind the payload of a node of the kind `kind`: nothing for a leaf; for
/// a tree a blank line and the entries of the children to the end of the input.
fn read_entries_block(reader: &mut ByteReader, kind: NodeKind) -> (r: Result<
    Vec<NodeEntry>,
    GraphError,
>)
    ensures
        match parse_entries_block(kind, old(reader).remaining()) {
            Ok(entries) => {
                &&& r is Ok
                &&& entry_views(r->Ok_0@) == entries
                &&& kind == NodeKind::Leaf ==> final(reader).remaining() == old(
                    reader,
                ).remaining()
                &&& kind == NodeKind::Tree ==> final(reader).remaining().len() == 0
            },
            Err(e) => r is Err && r->Err_0@ == e,
        },
{
    match kind {
        NodeKind::Leaf => {
            let entries: Vec<NodeEntry> = Vec::new();
            assert(entry_views(entries@) =~= Seq::empty());
            Ok(entries)
        },
        NodeKind::Tree => {
            read_empty_line(reader)?;
            read_node_entry_lines(reader)
        },
    }
}

impl<T: ReadBytes> NodeWithEntries<T> {
    /// Reads a node whose payload must be of the kind `object_kind`: the header, the payload,
    /// and for a tree a blank line and the entries of the children to the end of the input.
    pub fn read_bytes_with_object_kind(reader: &mut ByteReader, object_kind: &str) -> (r: Result<
        Self,
        GraphError,
    >)
        ensures
            match r {
                Ok(value) => {
                    &&& node_read_error::<T>(old(reader).remaining(), object_kind@) is None
                    &&& node_read_value::<T>(old(reader).remaining(), object_kind@, value)
                    &&& 0 <= node_read_len::<T>(old(reader).remaining(), object_kind@)
                    &&& node_read_len::<T>(old(reader).remaining(), object_kind@) <= old(
                        reader,
                    ).remaining().len()
                    &&& final(reader).remaining() == old(reader).remaining().skip(
                        node_read_len::<T>(old(reader).remaining(), object_kind@),
                    )
                },
                Err(e) => node_read_error::<T>(old(reader).remaining(), object_kind@) == Some(e@),
            },
    {
        let ghost input = reader.remaining();
        let ghost body = after_header(input);
        proof {
            lemma_after_header(input);
        }
        let kind = read_header(reader, object_kind)?;
        let node = T::read_bytes(reader)?;
        let ghost rest = reader.remaining();
        let entries = read_entries_block(reader, kind)?;
        proof {
            assert(rest == body.skip(T::read_len(body)));
            assert(reader.remaining() =~= input.skip(node_read_len::<T>(input, object_kind@))) by {
                if kind == NodeKind::Leaf {
                    assert(rest =~= input.skip(input.len() - body.len() + T::read_len(body)));
                }
            }
        }
        Ok(Self { kind, inner: node, entries })
    }
}

impl<T: ReadBytes> ReadBytes for NodeWithEntries<T> {
    open spec fn read_error(input: Seq<u8>) -> Option<GraphErrorView> {
        node_read_error::<T>(input, "prop"@)
    }

    open spec fn read_len(input: Seq<u8>) -> int {
        node_read_len::<T>(input, "prop"@)
    }

    open spec fn read_value(input: Seq<u8>, value: Self) -> bool {
        node_read_value::<T>(input, "prop"@, value)
    }

    fn read_bytes(reader: &mut ByteReader) -> (r: Result<Self, GraphError>) {
        // Nodes of properties are the ones that are read back; a payload of another kind
        // is read with `read_bytes_with_object_kind`.
        let ghost input = reader.remaining();
        let r = Self::read_bytes_with_object_kind(reader, VAL_OBJECT_KIND_STR);
        assert(Self::read_len(input) == node_read_len::<T>(input, "prop"@));
        assert(Self::read_error(input) == node_read_error::<T>(input, "prop"@));
        r
    }
}

/// A node with its hash.
#[derive(Clone, Debug, PartialEq, Eq)]
pub struct HashedNode<T> {
    pub(crate) kind: NodeKind,
    pub(crate) hash: crate::hash::Hash,
    pub(crate) inner: T,
}

impl<T> HashedNode<T> {
    /// The node with the given hash.
    pub fn new(node: Node<T>, hash: crate::hash::Hash) -> (hashed: Self)
        ensures
            hashed.kind_spec() == node.kind,
            hashed.hash_bytes() == hash@,
            hashed.inner_spec() == node.inner,
    {
        Self { kind: node.kind, hash, inner: node.inner }
    }

    /// The kind of the node.
    pub closed spec fn kind_spec(&self) -> NodeKind {
        self.kind
    }

    /// The bytes of the hash of the node.
    pub closed spec fn hash_bytes(&self) -> Seq<u8> {
        self.hash@
    }

    /// The payload of the node.
    pub closed spec fn inner_spec(&self) -> T {
        self.inner
    }

    /// Returns the kind of the node.
    pub fn kind(&self) -> (kind: NodeKind)
        ensures
            kind == self.kind_spec(),
    {
        self.kind
    }

    /// Returns the hash of the node.
    pub fn hash(&self) -> (hash: crate::hash::Hash)
        ensures
            hash@ == self.hash_bytes(),
    {
        self.hash
    }

    /// Returns the payload of the node.
    pub fn inner(&self) -> (inner: &T)
        ensures
            *inner == self.inner_spec(),
    {
        &self.inner
    }
}

impl<T: NameStr> NameStr for HashedNode<T> {
    open spec fn name_spec(&self) -> Seq<char> {
        self.inner_spec().name_spec()
    }

    fn name(&self) -> (name: &str) {
        self.inner.name()
    }
}

impl<T: NameStr> HashedNode<T> {
    /// The entry that a parent holds for this node.
    pub open spec fn entry_view(&self) -> NodeEntryView {
        NodeEntryView {
            kind: self.kind_spec(),
            hash: self.hash_bytes(),
            name: self.inner_spec().name_spec(),
        }
    }

    /// Returns the entry that a parent holds for this node.
    pub fn to_entry(&self) -> (entry: NodeEntry)
        ensures
            entry@ == self.entry_view(),
    {
        NodeEntry::new(self.kind, self.hash, self.inner.name())
    }
}

/// A node with its hash and with the entries of its children.
pub struct HashedNodeWithEntries<T> {
    kind: NodeKind,
    hash: crate::hash::Hash,
    inner: T,
    entries: Vec<NodeEntry>,
}

impl<T> HashedNodeWithEntries<T> {
    /// The kind of the node.
    pub closed spec fn kind_spec(&self) -> NodeKind {
        self.kind
    }

    /// The bytes of the hash that is stored with the node.
    pub closed spec fn hash_bytes(&self) -> Seq<u8> {
        self.hash@
    }

    /// The payload of the node.
    pub closed spec fn inner_spec(&self) -> T {
        self.inner
    }

    /// The entries of the children of the node.
    pub closed spec fn entries_spec(&self) -> Seq<NodeEntryView> {
        entry_views(self.entries@)
    }

    /// The hash of each entry has 32 bytes.
    pub proof fn lemma_entry_hashes(&self)
        ensures
            forall|i: int|
                0 <= i < self.entries_spec().len() ==> (#[trigger] self.entries_spec()[i]).hash.len()
                    == 32,
    {
        crate::entry::lemma_entry_hashes(self.entries@);
    }

    /// The hashed node with the entries of its children.
    pub fn new(hashed_node: HashedNode<T>, entries: Vec<NodeEntry>) -> (node: Self)
        ensures
            node.kind_spec() == hashed_node.kind_spec(),
            node.hash_bytes() == hashed_node.hash_bytes(),
            node.inner_spec() == hashed_node.inner_spec(),
            node.entries_spec() == entry_views(entries@),
    {
        Self {
            kind: hashed_node.kind,
            hash: hashed_node.hash,
            inner: hashed_node.inner,
            entries,
        }
    }

    /// The node that was read, with the hash that it is known by.
    pub fn from_node_with_entries_and_hash(
        node_with_entries: NodeWithEntries<T>,
        hash: crate::hash::Hash,
    ) -> (node: Self)
        ensures
            node.kind_spec() == node_with_entries.kind,
            node.hash_bytes() == hash@,
            node.inner_spec() == node_with_entries.inner,
            node.entries_spec() == entry_views(node_with_entries.entries@),
    {
        Self {
            kind: node_with_entries.kind,
            hash,
            inner: node_with_entries.inner,
            entries: node_with_entries.entries,
        }
    }

    /// Returns the hash that is stored with the node.
    pub fn hash(&self) -> (hash: crate::hash::Hash)
        ensures
            hash@ == self.hash_bytes(),
    {
        self.hash
    }

    /// The node without its hash, by reference.
    pub fn as_node_with_entries_ref(&self) -> (node: NodeWithEntriesRef<'_, T>)
        ensures
            node.kind == self.kind_spec(),
            *node.inner == self.inner_spec(),
            entry_views(node.entries@) == self.entries_spec(),
    {
        NodeWithEntriesRef { kind: self.kind, inner: &self.inner, entries: self.entries.as_slice() }
    }

    /// Parts the hashed node from the entries of its children.
    pub fn into_parts(self) -> (parts: (HashedNode<T>, Vec<NodeEntry>))
        ensures
            parts.0.kind_spec() == self.kind_spec(),
            parts.0.hash_bytes() == self.hash_bytes(),
            parts.0.inner_spec() == self.inner_spec(),
            entry_views(parts.1@) == self.entries_spec(),
    {
        (HashedNode { kind: self.kind, hash: self.hash, inner: self.inner }, self.entries)
    }
}

impl<T: WriteBytes + ObjectKindStr> WriteBytes for HashedNodeWithEntries<T> {
    open spec fn bytes_spec(&self) -> Seq<u8> {
        node_bytes(
            self.kind_spec(),
            self.inner_spec().object_kind_spec(),
            self.inner_spec().bytes_spec(),
            self.entries_spec(),
        )
    }

    fn write_bytes(&self, writer: &mut Vec<u8>) {
        self.as_node_with_entries_ref().write_bytes(writer);
    }
}

impl<T: WriteBytes + ObjectKindStr> VerifyHash for HashedNodeWithEntries<T> {
    open spec fn hash_spec(&self) -> Seq<u8> {
        self.hash_bytes()
    }

    fn hash(&self) -> (hash: &crate::hash::Hash) {
        &self.hash
    }
}

} // verus!
