//! Reading back what was written: the canonical bytes of a node are read as a node with the
//! same canonical bytes.

use vstd::prelude::*;
use vstd::utf8::{encode_utf8, valid_utf8};
use crate::codec::{
    after_first_line, first_line, first_line_len, key_value_line, line_content,
    parse_blank_line, parse_key_value_line, separator_line, space_suffix_len, trim_end, EQUALS,
    LINE_FEED, SPACE,
};
use crate::entry::{
    entry_fields, entry_line, entry_lines, entry_views, parse_entry_line, parse_entry_lines,
    sort_entries, NodeEntryView,
};
use crate::error::GraphErrorView;
use crate::hash::{hex_of, lemma_hex_round_trip};
use crate::kind::{lemma_kind_names, NodeKind};
use crate::node::{
    after_header, entries_block, header_bytes, node_bytes, node_read_error, node_read_value,
    parse_entries_block, parse_header, NodeWithEntries,
};
use crate::text::{lemma_last_position_is, lemma_position_is};
use crate::traits::{ObjectKindStr, ReadBytes, WriteBytes};

verus! {

/// The text holds no line feed.
pub open spec fn fits_in_line(text: Seq<char>) -> bool {
    !encode_utf8(text).contains(LINE_FEED)
}

/// The entry can be read back from its line: its hash has 32 bytes, and its name holds no
/// space and no line feed.
pub open spec fn entry_fits_in_line(entry: NodeEntryView) -> bool {
    &&& entry.hash.len() == 32
    &&& !encode_utf8(entry.name).contains(SPACE)
    &&& !encode_utf8(entry.name).contains(LINE_FEED)
}

/// The payload can be read back from its bytes when `rest` follows them: reading succeeds,
/// takes the bytes of the payload and no more, and gives a payload of the same bytes and the
/// same object kind.
pub open spec fn payload_round_trips<T: ReadBytes + WriteBytes + ObjectKindStr>(
    inner: T,
    rest: Seq<u8>,
) -> bool {
    let input = inner.bytes_spec() + rest;
    &&& T::read_error(input) is None
    &&& T::read_len(input) == inner.bytes_spec().len()
    &&& forall|read: T| #[trigger]
        T::read_value(input, read) ==> read.bytes_spec() == inner.bytes_spec()
            && read.object_kind_spec() == inner.object_kind_spec()
}

/// A line that ends with the only line feed that it holds is the first line of what begins
/// with it.
pub proof fn lemma_first_line_of(body: Seq<u8>, rest: Seq<u8>)
    requires
        !body.contains(LINE_FEED),
    ensures
        first_line_len(body + seq![LINE_FEED] + rest) == body.len() + 1,
        first_line(body + seq![LINE_FEED] + rest) == body + seq![LINE_FEED],
        after_first_line(body + seq![LINE_FEED] + rest) == rest,
{
    let input = body + seq![LINE_FEED] + rest;
    assert forall|j: int| 0 <= j < body.len() implies input[j] != LINE_FEED by {
        assert(body[j] == input[j]);
        assert(body.contains(body[j]));
    }
    assert(input[body.len() as int] == LINE_FEED);
    lemma_position_is(input, LINE_FEED, body.len() as int);
    assert(first_line(input) =~= body + seq![LINE_FEED]);
    assert(after_first_line(input) =~= rest);
}

/// A `key=value` line is read back as its value, where the key holds no `=` and no line feed
/// and the value fits in a line.
pub proof fn lemma_read_key_value_line(key: Seq<char>, value: Seq<char>, rest: Seq<u8>)
    requires
        !encode_utf8(key).contains(EQUALS),
        !encode_utf8(key).contains(LINE_FEED),
        fits_in_line(value),
    ensures
        parse_key_value_line(key_value_line(key, value) + rest, key) == Ok::<
            Seq<char>,
            GraphErrorView,
        >(value),
        after_first_line(key_value_line(key, value) + rest) == rest,
{
    let k = encode_utf8(key);
    let v = encode_utf8(value);
    let body = k + seq![EQUALS] + v;
    let line = body + seq![LINE_FEED];
    assert(key_value_line(key, value) =~= line);
    assert(!body.contains(LINE_FEED)) by {
        if body.contains(LINE_FEED) {
            let j = choose|j: int| 0 <= j < body.len() && body[j] == LINE_FEED;
            if j < k.len() {
                assert(k[j] == LINE_FEED);
                assert(k.contains(LINE_FEED));
            } else if j > k.len() {
                assert(v[j - k.len() - 1] == LINE_FEED);
                assert(v.contains(LINE_FEED));
            }
        }
    }
    lemma_first_line_of(body, rest);
    assert(valid_utf8(line)) by {
        vstd::utf8::encode_utf8_valid_utf8(key);
        vstd::utf8::encode_utf8_valid_utf8(value);
        crate::text::lemma_ascii_bytes_decode(seq![EQUALS]);
        crate::text::lemma_ascii_bytes_decode(seq![LINE_FEED]);
        vstd::utf8::valid_utf8_concat(k, seq![EQUALS]);
        vstd::utf8::valid_utf8_concat(k + seq![EQUALS], v);
        vstd::utf8::valid_utf8_concat(body, seq![LINE_FEED]);
    }
    assert(line_content(line) == body) by {
        assert(line.drop_last() =~= body);
    }
    assert forall|j: int| 0 <= j < k.len() implies body[j] != EQUALS by {
        assert(body[j] == k[j]);
        assert(k.contains(k[j]));
    }
    assert(body[k.len() as int] == EQUALS);
    lemma_position_is(body, EQUALS, k.len() as int);
    assert(body.take(k.len() as int) =~= k);
    assert(body.skip(k.len() as int + 1) =~= v);
    vstd::utf8::encode_utf8_decode_utf8(value);
}

/// A blank line is read as one, and so is the end of the input.
pub proof fn lemma_read_blank_line(rest: Seq<u8>)
    ensures
        parse_blank_line(separator_line() + rest) == Ok::<(), GraphErrorView>(()),
        after_first_line(separator_line() + rest) == rest,
        parse_blank_line(Seq::empty()) == Ok::<(), GraphErrorView>(()),
        after_first_line(Seq::<u8>::empty()) == Seq::<u8>::empty(),
{
    let body = Seq::<u8>::empty();
    lemma_first_line_of(body, rest);
    assert(body + seq![LINE_FEED] + rest =~= separator_line() + rest);
    let line = seq![LINE_FEED];
    assert(body + seq![LINE_FEED] =~= line);
    crate::text::lemma_ascii_bytes_decode(line);
    assert(line.take(0) =~= Seq::empty());
    assert(space_suffix_len(line) == 1);
    assert(trim_end(line.take(0)) =~= Seq::empty());
    assert(trim_end(line) =~= Seq::empty());
    let none = Seq::<u8>::empty();
    assert(first_line(none) =~= none);
    assert(after_first_line(none) =~= none);
    assert(trim_end(none) =~= none);
}

/// The line of an entry is read back as the entry.
pub proof fn lemma_read_entry_line(entry: NodeEntryView, rest: Seq<u8>)
    requires
        entry_fits_in_line(entry),
    ensures
        first_line(entry_line(entry) + rest) == entry_line(entry),
        after_first_line(entry_line(entry) + rest) == rest,
        valid_utf8(entry_line(entry)),
        parse_entry_line(line_content(entry_line(entry))) == Ok::<NodeEntryView, GraphErrorView>(
            entry,
        ),
{
    let kind = encode_utf8(entry.kind.name());
    let hex = hex_of(entry.hash);
    let name = encode_utf8(entry.name);
    let head = kind + seq![SPACE] + hex;
    let body = head + seq![SPACE] + name;
    let line = body + seq![LINE_FEED];
    lemma_kind_names(entry.kind);
    lemma_hex_round_trip(entry.hash);
    assert(entry_line(entry) =~= line);
    assert(!body.contains(LINE_FEED)) by {
        if body.contains(LINE_FEED) {
            let j = choose|j: int| 0 <= j < body.len() && body[j] == LINE_FEED;
            if j < 4 {
                assert(body[j] == kind[j]);
            } else if 5 <= j < 69 {
                assert(body[j] == hex[j - 5]);
            } else if j >= 70 {
                assert(body[j] == name[j - 70]);
                assert(name.contains(LINE_FEED));
            }
        }
    }
    lemma_first_line_of(body, rest);
    assert(valid_utf8(line)) by {
        vstd::utf8::encode_utf8_valid_utf8(entry.kind.name());
        vstd::utf8::encode_utf8_valid_utf8(entry.name);
        crate::text::lemma_ascii_bytes_decode(seq![SPACE]);
        crate::text::lemma_ascii_bytes_decode(seq![LINE_FEED]);
        crate::text::lemma_ascii_bytes_decode(hex);
        vstd::utf8::valid_utf8_concat(kind, seq![SPACE]);
        vstd::utf8::valid_utf8_concat(kind + seq![SPACE], hex);
        vstd::utf8::valid_utf8_concat(head, seq![SPACE]);
        vstd::utf8::valid_utf8_concat(head + seq![SPACE], name);
        vstd::utf8::valid_utf8_concat(body, seq![LINE_FEED]);
    }
    assert(line_content(line) == body) by {
        assert(line.drop_last() =~= body);
    }
    assert forall|j: int| 69 < j < body.len() implies body[j] != SPACE by {
        assert(body[j] == name[j - 70]);
        assert(name.contains(name[j - 70]));
    }
    assert(body[69] == SPACE);
    lemma_last_position_is(body, SPACE, 69);
    assert(body.take(69) =~= head);
    assert(body.skip(70) =~= name);
    assert forall|j: int| 4 < j < head.len() implies head[j] != SPACE by {
        assert(head[j] == hex[j - 5]);
    }
    assert(head[4] == SPACE);
    lemma_last_position_is(head, SPACE, 4);
    assert(head.take(4) =~= kind);
    assert(head.skip(5) =~= hex);
    assert(entry_fields(body) == (kind, Some(hex), Some(name)));
    vstd::utf8::encode_utf8_decode_utf8(entry.name);
}

/// The lines of entries, one entry more at the front.
pub proof fn lemma_entry_lines_front(entry: NodeEntryView, rest: Seq<NodeEntryView>)
    ensures
        entry_lines(seq![entry] + rest) == entry_line(entry) + entry_lines(rest),
    decreases rest.len(),
{
    let all = seq![entry] + rest;
    if rest.len() == 0 {
        assert(all.drop_last() =~= Seq::empty());
        assert(entry_lines(all.drop_last()) =~= Seq::empty());
        assert(entry_lines(all) =~= entry_line(entry) + entry_lines(rest));
    } else {
        assert(all.drop_last() =~= seq![entry] + rest.drop_last());
        assert(all.last() == rest.last());
        lemma_entry_lines_front(entry, rest.drop_last());
        assert(entry_lines(all) =~= entry_line(entry) + entry_lines(rest));
    }
}

/// The lines of entries are read back as the entries.
pub proof fn lemma_read_entry_lines(entries: Seq<NodeEntryView>)
    requires
        forall|i: int| 0 <= i < entries.len() ==> entry_fits_in_line(#[trigger] entries[i]),
    ensures
        parse_entry_lines(entry_lines(entries)) == Ok::<Seq<NodeEntryView>, GraphErrorView>(
            entries,
        ),
    decreases entries.len(),
{
    if entries.len() == 0 {
        assert(entry_lines(entries) =~= Seq::empty());
        assert(parse_entry_lines(entry_lines(entries))->Ok_0 =~= entries);
    } else {
        let first = entries[0];
        let rest = entries.drop_first();
        assert(entries =~= seq![first] + rest);
        lemma_entry_lines_front(first, rest);
        lemma_read_entry_line(first, entry_lines(rest));
        assert forall|i: int| 0 <= i < rest.len() implies entry_fits_in_line(
            #[trigger] rest[i],
        ) by {
            assert(rest[i] == entries[i + 1]);
        }
        lemma_read_entry_lines(rest);
        let input = entry_lines(entries);
        assert(input.len() > 0);
        assert(parse_entry_lines(input)->Ok_0 =~= entries);
    }
}

/// Sorting keeps the entries, so those that fit in a line still do.
pub proof fn lemma_sorted_entries_fit(entries: Seq<NodeEntryView>)
    requires
        forall|i: int| 0 <= i < entries.len() ==> entry_fits_in_line(#[trigger] entries[i]),
    ensures
        forall|i: int|
            0 <= i < sort_entries(entries).len() ==> entry_fits_in_line(
                #[trigger] sort_entries(entries)[i],
            ),
{
    broadcast use vstd::seq_lib::group_to_multiset_ensures;

    crate::sorting::lemma_sort_entries(entries);
    let sorted = sort_entries(entries);
    assert forall|i: int| 0 <= i < sorted.len() implies entry_fits_in_line(
        #[trigger] sorted[i],
    ) by {
        assert(sorted.to_multiset().contains(sorted[i]));
        assert(entries.to_multiset().contains(sorted[i]));
        let k = choose|k: int| 0 <= k < entries.len() && entries[k] == sorted[i];
        assert(entry_fits_in_line(entries[k]));
    }
}

/// The header of a node is read back as the kind of the node, where the object kind that it
/// states is the expected one and fits in a line.
pub proof fn lemma_read_header(kind: NodeKind, object_kind: Seq<char>, rest: Seq<u8>)
    requires
        fits_in_line(object_kind),
    ensures
        parse_header(header_bytes(kind, object_kind) + separator_line() + rest, object_kind)
            == Ok::<NodeKind, GraphErrorView>(kind),
        after_header(header_bytes(kind, object_kind) + separator_line() + rest) == rest,
{
    let l1 = key_value_line("version"@, "1"@);
    let l2 = key_value_line("node_kind"@, kind.name());
    let l3 = key_value_line("object_kind"@, object_kind);
    let l4 = separator_line();
    let input = header_bytes(kind, object_kind) + separator_line() + rest;
    assert(input =~= l1 + (l2 + (l3 + (l4 + rest))));
    lemma_plain_text("version"@);
    lemma_plain_text("node_kind"@);
    lemma_plain_text("object_kind"@);
    lemma_plain_text("1"@);
    lemma_plain_text(kind.name());
    lemma_read_key_value_line("version"@, "1"@, l2 + (l3 + (l4 + rest)));
    lemma_read_key_value_line("node_kind"@, kind.name(), l3 + (l4 + rest));
    lemma_read_key_value_line("object_kind"@, object_kind, l4 + rest);
    lemma_read_blank_line(rest);
    lemma_kind_names(kind);
}

/// The texts of the header are plain: lower case letters, digits and `_`. Such a text holds
/// no `=`, no space and no line feed.
pub open spec fn is_plain_text(text: Seq<char>) -> bool {
    forall|i: int|
        0 <= i < text.len() ==> {
            let c = #[trigger] text[i];
            ('a' <= c <= 'z') || ('0' <= c <= '9') || c == '_'
        }
}

/// The literal texts of the header are plain, and plain texts fit in a line.
pub proof fn lemma_plain_text(text: Seq<char>)
    ensures
        is_plain_text("version"@) && is_plain_text("node_kind"@) && is_plain_text("object_kind"@),
        is_plain_text("1"@) && is_plain_text("prop"@) && is_plain_text("leaf"@) && is_plain_text(
            "tree"@,
        ),
        is_plain_text(text) ==> {
            &&& !encode_utf8(text).contains(EQUALS)
            &&& !encode_utf8(text).contains(LINE_FEED)
            &&& !encode_utf8(text).contains(SPACE)
            &&& fits_in_line(text)
        },
{
    reveal_strlit("version");
    reveal_strlit("node_kind");
    reveal_strlit("object_kind");
    reveal_strlit("1");
    reveal_strlit("prop");
    reveal_strlit("leaf");
    reveal_strlit("tree");
    if is_plain_text(text) {
        let bytes = encode_utf8(text);
        assert(vstd::utf8::is_ascii_chars(text)) by {
            assert forall|i: int| 0 <= i < text.len() implies '\0' <= #[trigger] text[i]
                <= '\u{7f}' by {}
        }
        vstd::utf8::is_ascii_chars_encode_utf8(text);
        assert forall|i: int| 0 <= i < bytes.len() implies (97 <= (#[trigger] bytes[i]) <= 122)
            || (48 <= bytes[i] <= 57) || bytes[i] == 95 by {
            assert(text[i] as u8 == bytes[i]);
        }
    }
}

/// Round trip: the canonical bytes of a node are read back without error; what is read has
/// the kind of the node, a payload of the same bytes, the entries sorted by name (none for a
/// leaf), and the same canonical bytes. This holds of a node whose payload can itself be read
/// back, whose object kind holds no line feed, and whose entries have names without space and
/// line feed.
pub proof fn lemma_node_round_trip<T: ReadBytes + WriteBytes + ObjectKindStr>(
    kind: NodeKind,
    inner: T,
    entries: Seq<NodeEntryView>,
    read: NodeWithEntries<T>,
)
    requires
        fits_in_line(inner.object_kind_spec()),
        forall|i: int| 0 <= i < entries.len() ==> entry_fits_in_line(#[trigger] entries[i]),
        payload_round_trips(inner, entries_block(kind, entries)),
    ensures
        node_read_error::<T>(
            node_bytes(kind, inner.object_kind_spec(), inner.bytes_spec(), entries),
            inner.object_kind_spec(),
        ) is None,
        node_read_value::<T>(
            node_bytes(kind, inner.object_kind_spec(), inner.bytes_spec(), entries),
            inner.object_kind_spec(),
            read,
        ) ==> {
            &&& read.kind == kind
            &&& T::read_value(inner.bytes_spec() + entries_block(kind, entries), read.inner)
            &&& read.inner.bytes_spec() == inner.bytes_spec()
            &&& entry_views(read.entries@) == if kind == NodeKind::Tree {
                sort_entries(entries)
            } else {
                Seq::<NodeEntryView>::empty()
            }
            &&& node_bytes(
                read.kind,
                read.inner.object_kind_spec(),
                read.inner.bytes_spec(),
                entry_views(read.entries@),
            ) == node_bytes(kind, inner.object_kind_spec(), inner.bytes_spec(), entries)
        },
{
    let object_kind = inner.object_kind_spec();
    let payload = inner.bytes_spec();
    let block = entries_block(kind, entries);
    let bytes = node_bytes(kind, object_kind, payload, entries);
    let body = payload + block;
    assert(bytes =~= header_bytes(kind, object_kind) + separator_line() + body);
    lemma_read_header(kind, object_kind, body);
    assert(body.skip(payload.len() as int) =~= block);
    let sorted = sort_entries(entries);
    lemma_sorted_entries_fit(entries);
    crate::sorting::lemma_sort_idempotent(entries);
    crate::sorting::lemma_sort_entries(entries);
    let want = if kind == NodeKind::Tree {
        sorted
    } else {
        Seq::<NodeEntryView>::empty()
    };
    assert(parse_entries_block(kind, block) == Ok::<Seq<NodeEntryView>, GraphErrorView>(want)) by {
        if kind == NodeKind::Tree {
            if entries.len() > 0 {
                lemma_read_blank_line(entry_lines(sorted));
                lemma_read_entry_lines(sorted);
            } else {
                lemma_read_blank_line(Seq::empty());
                assert(sorted =~= Seq::empty());
                assert(parse_entry_lines(Seq::<u8>::empty())->Ok_0 =~= sorted);
            }
        }
    }
    if node_read_value::<T>(bytes, object_kind, read) {
        assert(entries_block(kind, entry_views(read.entries@)) =~= block) by {
            if kind == NodeKind::Tree {
                assert(entry_views(read.entries@) == sorted);
                assert(sorted.len() == entries.len());
            }
        }
    }
}

} // verus!
