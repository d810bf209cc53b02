//! The entry that a parent holds for each of its children: the child's kind, hash and name.
//! The entries of a node are written as lines, sorted by name.

use vstd::prelude::*;
use vstd::utf8::{decode_utf8, encode_utf8, valid_utf8};
use crate::codec::{
    after_first_line, content_len, first_line, lemma_first_line, lemma_valid_around_ascii,
    line_content, not_utf8_message, ByteReader, LINE_FEED, SPACE,
};
use crate::error::{GraphError, GraphErrorView, ParseError};
use crate::hash::{hex_of, parse_hash};
use crate::kind::NodeKind;
use crate::text::{
    bytes_le, find_last_byte, last_position, lemma_last_position, lex_le, slice_subrange,
    string_from_utf8,
};
use crate::traits::WriteBytes;

verus! {

/// What a [`NodeEntry`] holds.
pub struct NodeEntryView {
    pub kind: NodeKind,
    pub hash: Seq<u8>,
    pub name: Seq<char>,
}

/// What a parent node records of one child: its kind, its hash and its name.
#[derive(Clone, Debug, PartialEq, Eq)]
pub struct NodeEntry {
    kind: NodeKind,
    hash: crate::hash::Hash,
    name: String,
}

impl View for NodeEntry {
    type V = NodeEntryView;

    closed spec fn view(&self) -> NodeEntryView {
        NodeEntryView { kind: self.kind, hash: self.hash@, name: self.name@ }
    }
}

/// The views of `entries`, in their order.
pub open spec fn entry_views(entries: Seq<NodeEntry>) -> Seq<NodeEntryView> {
    Seq::new(entries.len(), |i: int| entries[i]@)
}

/// The views of the entries at the positions `order`, in that order.
pub open spec fn picked(entries: Seq<NodeEntry>, order: Seq<usize>) -> Seq<NodeEntryView> {
    Seq::new(order.len(), |i: int| entries[order[i] as int]@)
}

/// The line of an entry: kind, hash in hex and name, with a space between them.
pub open spec fn entry_line(entry: NodeEntryView) -> Seq<u8> {
    encode_utf8(entry.kind.name()) + seq![SPACE] + hex_of(entry.hash) + seq![SPACE] + encode_utf8(
        entry.name,
    ) + seq![LINE_FEED]
}

/// The lines of `entries`, in their order.
pub open spec fn entry_lines(entries: Seq<NodeEntryView>) -> Seq<u8>
    decreases entries.len(),
{
    if entries.len() == 0 {
        Seq::empty()
    } else {
        entry_lines(entries.drop_last()) + entry_line(entries.last())
    }
}

/// The name of `a` comes before the name of `b`, or equals it, byte by byte.
pub open spec fn name_le(a: NodeEntryView, b: NodeEntryView) -> bool {
    lex_le(encode_utf8(a.name), encode_utf8(b.name))
}

/// `sorted` with `entry` put behind the last entry whose name does not come after its own.
pub open spec fn insert_entry(sorted: Seq<NodeEntryView>, entry: NodeEntryView) -> Seq<
    NodeEntryView,
>
    decreases sorted.len(),
{
    if sorted.len() == 0 || name_le(sorted.last(), entry) {
        sorted.push(entry)
    } else {
        insert_entry(sorted.drop_last(), entry).push(sorted.last())
    }
}

/// `entries` sorted by name, byte by byte; entries of one name keep their order.
pub open spec fn sort_entries(entries: Seq<NodeEntryView>) -> Seq<NodeEntryView>
    decreases entries.len(),
{
    if entries.len() == 0 {
        entries
    } else {
        insert_entry(sort_entries(entries.drop_last()), entries.last())
    }
}

/// The fields of an entry line, which is split from the right at its last two spaces: the
/// kind, then the hash and the name where the line has them. With one space the line has a
/// kind and a hash, with none only a kind.
pub open spec fn entry_fields(content: Seq<u8>) -> (Seq<u8>, Option<Seq<u8>>, Option<Seq<u8>>) {
    let last = last_position(content, SPACE);
    let head = content.take(last);
    let mid = last_position(head, SPACE);
    if last < 0 {
        (content, None, None)
    } else if mid < 0 {
        (head, Some(content.skip(last + 1)), None)
    } else {
        (head.take(mid), Some(head.skip(mid + 1)), Some(content.skip(last + 1)))
    }
}

/// What an entry line holds, or why it is refused. The kind is looked at first, then the
/// hash, then the name.
pub open spec fn parse_entry_line(content: Seq<u8>) -> Result<NodeEntryView, GraphErrorView> {
    let (kind_field, hash_field, name_field) = entry_fields(content);
    if NodeKind::named_by(kind_field) is None {
        Err(GraphErrorView::Parse(ParseError::NodeKind))
    } else if hash_field is None {
        Err(GraphErrorView::ParseCustom("missing hash field in entry line"@))
    } else if parse_hash(hash_field->0) is Err {
        Err(GraphErrorView::Parse(ParseError::Hash(parse_hash(hash_field->0)->Err_0)))
    } else if name_field is None {
        Err(GraphErrorView::ParseCustom("missing name field in entry line"@))
    } else {
        Ok(
            NodeEntryView {
                kind: NodeKind::named_by(kind_field)->0,
                hash: parse_hash(hash_field->0)->Ok_0,
                name: decode_utf8(name_field->0),
            },
        )
    }
}

/// What the entry lines that make up the whole of `input` hold, or the error of the first
/// line that is refused.
pub open spec fn parse_entry_lines(input: Seq<u8>) -> Result<Seq<NodeEntryView>, GraphErrorView>
    decreases input.len(),
{
    if input.len() == 0 {
        Ok(Seq::empty())
    } else {
        proof {
            lemma_first_line(input);
        }
        if !valid_utf8(first_line(input)) {
            Err(GraphErrorView::IoRead(not_utf8_message()))
        } else {
            match parse_entry_line(line_content(first_line(input))) {
                Err(e) => Err(e),
                Ok(entry) => match parse_entry_lines(after_first_line(input)) {
                    Err(e) => Err(e),
                    Ok(rest) => Ok(seq![entry] + rest),
                },
            }
        }
    }
}

/// What is left of `input` when its entry lines have been read: nothing where every line
/// holds an entry, else what follows the first line that is refused.
pub open spec fn after_entry_lines(input: Seq<u8>) -> Seq<u8>
    decreases input.len(),
{
    if input.len() == 0 {
        input
    } else {
        proof {
            lemma_first_line(input);
        }
        if valid_utf8(first_line(input)) && parse_entry_line(line_content(first_line(input)))
            is Ok {
            after_entry_lines(after_first_line(input))
        } else {
            after_first_line(input)
        }
    }
}

/// `done` followed by what `rest` holds, or the error of `rest`.
pub open spec fn entries_then(
    done: Seq<NodeEntryView>,
    rest: Result<Seq<NodeEntryView>, GraphErrorView>,
) -> Result<Seq<NodeEntryView>, GraphErrorView> {
    match rest {
        Ok(more) => Ok(done + more),
        Err(e) => Err(e),
    }
}

/// Where `insert_entry` puts the entry: behind the last entry whose name does not come after
/// its own.
pub proof fn lemma_insert_at(sorted: Seq<NodeEntryView>, entry: NodeEntryView, at: int)
    requires
        0 <= at <= sorted.len(),
        at > 0 ==> name_le(sorted[at - 1], entry),
        forall|j: int| at <= j < sorted.len() ==> !name_le(#[trigger] sorted[j], entry),
    ensures
        insert_entry(sorted, entry) == sorted.insert(at, entry),
    decreases sorted.len(),
{
    if sorted.len() == 0 || at == sorted.len() {
        assert(sorted.push(entry) =~= sorted.insert(at, entry));
    } else {
        assert(!name_le(sorted.last(), entry));
        lemma_insert_at(sorted.drop_last(), entry, at);
        assert(sorted.drop_last().insert(at, entry).push(sorted.last()) =~= sorted.insert(
            at,
            entry,
        ));
    }
}

/// The hash of an entry has 32 bytes.
pub proof fn lemma_entry_hashes(entries: Seq<NodeEntry>)
    ensures
        forall|i: int|
            0 <= i < entries.len() ==> (#[trigger] entry_views(entries)[i]).hash.len() == 32,
{
    assert forall|i: int| 0 <= i < entries.len() implies (#[trigger] entry_views(
        entries,
    )[i]).hash.len() == 32 by {
        entries[i].hash.lemma_len();
    }
}

impl NodeEntry {
    /// The entry of a child of the given kind, hash and name.
    pub fn new(kind: NodeKind, hash: crate::hash::Hash, name: &str) -> (entry: NodeEntry)
        ensures
            entry@ == (NodeEntryView { kind, hash: hash@, name: name@ }),
    {
        NodeEntry { kind, hash, name: name.to_owned() }
    }

    /// The kind of the child.
    pub fn kind(&self) -> (kind: NodeKind)
        ensures
            kind == self@.kind,
    {
        self.kind
    }

    /// The hash of the child.
    #[must_use]
    pub fn hash(&self) -> (hash: crate::hash::Hash)
        ensures
            hash@ == self@.hash,
    {
        self.hash
    }

    /// The name of the child.
    pub fn name(&self) -> (name: &str)
        ensures
            name@ == self@.name,
    {
        self.name.as_str()
    }
}

impl WriteBytes for NodeEntry {
    open spec fn bytes_spec(&self) -> Seq<u8> {
        entry_line(self@)
    }

    fn write_bytes(&self, writer: &mut Vec<u8>) {
        let hex = self.hash.to_hex_bytes();
        writer.extend_from_slice(self.kind.as_ref().as_bytes());
        writer.push(SPACE);
        writer.extend_from_slice(hex.as_slice());
        writer.push(SPACE);
        writer.extend_from_slice(self.name.as_str().as_bytes());
        writer.push(LINE_FEED);
        assert(writer@ =~= old(writer)@ + entry_line(self@));
    }
}

/// The positions of `entries` in the order in which their lines are written: sorted by name,
/// entries of one name in the order in which they stand.
pub fn sorted_order(entries: &[NodeEntry]) -> (order: Vec<usize>)
    ensures
        order@.len() == entries@.len(),
        forall|i: int| 0 <= i < order@.len() ==> #[trigger] order@[i] < entries@.len(),
        picked(entries@, order@) == sort_entries(entry_views(entries@)),
{
    let mut order: Vec<usize> = Vec::new();
    let mut i: usize = 0;
    assert(entry_views(entries@).take(0) =~= Seq::empty());
    assert(picked(entries@, order@) =~= Seq::empty());
    while i < entries.len()
        invariant
            0 <= i <= entries@.len(),
            order@.len() == i,
            forall|k: int| 0 <= k < order@.len() ==> #[trigger] order@[k] < i,
            picked(entries@, order@) == sort_entries(entry_views(entries@).take(i as int)),
        decreases entries@.len() - i,
    {
        let name = entries[i].name().as_bytes();
        let ghost sorted = picked(entries@, order@);
        let ghost entry = entries@[i as int]@;
        proof {
            crate::sorting::lemma_sort_entries(entry_views(entries@).take(i as int));
        }
        // The place of the entry is behind the last entry whose name does not come after
        // its own: it is found by halving the range in which it lies.
        let mut at: usize = 0;
        let mut end: usize = order.len();
        while at < end
            invariant
                0 <= at <= end <= order@.len(),
                order@.len() == i,
                i < entries@.len(),
                forall|k: int| 0 <= k < order@.len() ==> #[trigger] order@[k] < i,
                sorted == picked(entries@, order@),
                crate::sorting::sorted_by_name(sorted),
                entry == entries@[i as int]@,
                name@ == encode_utf8(entry.name),
                forall|j: int| 0 <= j < at ==> name_le(#[trigger] sorted[j], entry),
                forall|j: int| end <= j < sorted.len() ==> !name_le(#[trigger] sorted[j], entry),
            decreases end - at,
        {
            let mid = at + (end - at) / 2;
            let ghost middle = sorted[mid as int];
            if bytes_le(entries[order[mid]].name().as_bytes(), name) {
                proof {
                    assert forall|j: int| 0 <= j < mid + 1 implies name_le(
                        #[trigger] sorted[j],
                        entry,
                    ) by {
                        if j < mid {
                            assert(name_le(sorted[j], sorted[mid as int]));
                            crate::text::lemma_lex_le_order(
                                encode_utf8(sorted[j].name),
                                encode_utf8(middle.name),
                                encode_utf8(entry.name),
                            );
                        }
                    }
                }
                at = mid + 1;
            } else {
                proof {
                    assert forall|j: int| mid <= j < sorted.len() implies !name_le(
                        #[trigger] sorted[j],
                        entry,
                    ) by {
                        if j > mid {
                            assert(name_le(sorted[mid as int], sorted[j]));
                            crate::text::lemma_lex_le_order(
                                encode_utf8(middle.name),
                                encode_utf8(sorted[j].name),
                                encode_utf8(entry.name),
                            );
                        }
                    }
                }
                end = mid;
            }
        }
        proof {
            lemma_insert_at(sorted, entry, at as int);
            let views = entry_views(entries@);
            assert(views.take(i + 1).drop_last() =~= views.take(i as int));
            assert(views.take(i + 1).last() == entry);
            assert(picked(entries@, order@.insert(at as int, i)) =~= sorted.insert(
                at as int,
                entry,
            ));
        }
        order.insert(at, i);
        i += 1;
    }
    assert(entry_views(entries@).take(i as int) =~= entry_views(entries@));
    order
}

/// Reads one entry from the content of its line.
fn parse_entry(content: &[u8]) -> (r: Result<NodeEntry, GraphError>)
    requires
        valid_utf8(content@),
    ensures
        match parse_entry_line(content@) {
            Ok(entry) => r is Ok && r->Ok_0@ == entry,
            Err(e) => r is Err && r->Err_0@ == e,
        },
{
    proof {
        lemma_last_position(content@, SPACE);
    }
    let (kind_field, hash_field, name_field) = match find_last_byte(content, SPACE) {
        None => (content, None, None),
        Some(last) => {
            let len = content.len();
            let head = slice_subrange(content, 0, last);
            let tail = slice_subrange(content, last + 1, len);
            assert(head@ == content@.take(last as int));
            assert(tail@ == content@.skip(last + 1));
            proof {
                lemma_last_position(head@, SPACE);
                lemma_valid_around_ascii(content@, last as int);
            }
            match find_last_byte(head, SPACE) {
                None => (head, Some(tail), None),
                Some(mid) => {
                    let first = slice_subrange(head, 0, mid);
                    let second = slice_subrange(head, mid + 1, last);
                    assert(first@ == head@.take(mid as int));
                    assert(second@ == head@.skip(mid + 1));
                    (first, Some(second), Some(tail))
                },
            }
        },
    };
    let ghost fields = entry_fields(content@);
    assert(kind_field@ == fields.0);
    assert(hash_field is Some <==> fields.1 is Some);
    assert(hash_field is Some ==> hash_field->0@ == fields.1->0);
    assert(name_field is Some <==> fields.2 is Some);
    assert(name_field is Some ==> name_field->0@ == fields.2->0 && valid_utf8(name_field->0@));
    let kind = match NodeKind::from_name_bytes(kind_field) {
        Ok(kind) => kind,
        Err(e) => {
            return Err(GraphError::parse(e));
        },
    };
    let hash = match hash_field {
        Some(field) => match crate::hash::Hash::from_hex_bytes(field) {
            Ok(hash) => hash,
            Err(e) => {
                return Err(GraphError::parse(ParseError::Hash(e)));
            },
        },
        None => {
            return Err(GraphError::parse_custom("missing hash field in entry line"));
        },
    };
    let name = match name_field {
        Some(field) => match string_from_utf8(field) {
            Some(name) => name,
            None => {
                return Err(GraphError::IoRead("stream did not contain valid UTF-8".to_owned()));
            },
        },
        None => {
            return Err(GraphError::parse_custom("missing name field in entry line"));
        },
    };
    Ok(NodeEntry { kind, hash, name })
}

/// Reads entry lines until the input ends, and returns what they hold.
///
/// Fails with the error of the first line that is refused: one that is not UTF-8, one whose
/// kind or hash does not parse, or one that lacks a field. The lines up to that one are then
/// taken from the reader.
pub fn read_node_entry_lines(reader: &mut ByteReader) -> (r: Result<Vec<NodeEntry>, GraphError>)
    ensures
        final(reader).remaining() == after_entry_lines(old(reader).remaining()),
        match parse_entry_lines(old(reader).remaining()) {
            Ok(entries) => {
                &&& r is Ok
                &&& entry_views(r->Ok_0@) == entries
                &&& final(reader).remaining().len() == 0
            },
            Err(e) => r is Err && r->Err_0@ == e,
        },
{
    let ghost input = reader.remaining();
    let mut entries: Vec<NodeEntry> = Vec::new();
    assert(Seq::<NodeEntryView>::empty() + parse_entry_lines(input)->Ok_0 =~= parse_entry_lines(
        input,
    )->Ok_0);
    assert(entry_views(entries@) =~= Seq::empty());
    while !reader.is_at_end()
        invariant
            input == old(reader).remaining(),
            after_entry_lines(input) == after_entry_lines(reader.remaining()),
            parse_entry_lines(input) == entries_then(
                entry_views(entries@),
                parse_entry_lines(reader.remaining()),
            ),
        decreases reader.remaining().len(),
    {
        let ghost rest = reader.remaining();
        let ghost done = entry_views(entries@);
        proof {
            lemma_first_line(rest);
        }
        let line = reader.read_line()?;
        let bytes = line.as_str().as_bytes();
        proof {
            vstd::utf8::decode_utf8_encode_utf8(first_line(rest));
        }
        let n = content_len(bytes);
        let entry = parse_entry(slice_subrange(bytes, 0, n))?;
        proof {
            let after = parse_entry_lines(reader.remaining());
            if after is Ok {
                assert(done + (seq![entry@] + after->Ok_0) =~= done.push(entry@) + after->Ok_0);
            }
            assert(entry_views(entries@.push(entry)) =~= done.push(entry@));
        }
        entries.push(entry);
    }
    assert(entry_views(entries@) + Seq::<NodeEntryView>::empty() =~= entry_views(entries@));
    Ok(entries)
}

} // verus!
