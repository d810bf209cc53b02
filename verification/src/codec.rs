//! The lines of the serialized form: `key=value` lines and blank lines, read from bytes and
//! appended to bytes.

use vstd::prelude::*;
use vstd::slice::slice_to_vec;
use vstd::utf8::{decode_utf8, encode_utf8, is_continuation_byte, valid_utf8};
use crate::error::{GraphError, GraphErrorView};
use crate::text::{
    bytes_eq, find_byte, lemma_position, position, slice_subrange, string_from_utf8,
};

verus! {

/// The canonical serialized form of a new line.
pub const NL: &'static str = "\n";

/// The byte that ends a line.
pub const LINE_FEED: u8 = 10;

/// The byte between a key and its value.
pub const EQUALS: u8 = 61;

/// The byte between the fields of an entry line.
pub const SPACE: u8 = 32;

/// The number of bytes of the first line of `input`, its line feed included; the whole of
/// `input` where it holds no line feed.
pub open spec fn first_line_len(input: Seq<u8>) -> int {
    if position(input, LINE_FEED) < input.len() {
        position(input, LINE_FEED) + 1
    } else {
        input.len() as int
    }
}

/// The first line of `input`, its line feed included.
pub open spec fn first_line(input: Seq<u8>) -> Seq<u8> {
    input.take(first_line_len(input))
}

/// What follows the first line of `input`.
pub open spec fn after_first_line(input: Seq<u8>) -> Seq<u8> {
    input.skip(first_line_len(input))
}

/// The number of bytes of the white space character that ends `s`, 0 where none does. White
/// space is what Unicode gives the property White_Space, in UTF-8.
pub open spec fn space_suffix_len(s: Seq<u8>) -> int {
    let n = s.len() as int;
    if n >= 1 && (9 <= s[n - 1] <= 13 || s[n - 1] == 32) {
        1
    } else if n >= 2 && s[n - 2] == 0xC2 && (s[n - 1] == 0x85 || s[n - 1] == 0xA0) {
        2
    } else if n >= 3 && s[n - 3] == 0xE1 && s[n - 2] == 0x9A && s[n - 1] == 0x80 {
        3
    } else if n >= 3 && s[n - 3] == 0xE2 && s[n - 2] == 0x80 && (0x80 <= s[n - 1] <= 0x8A
        || s[n - 1] == 0xA8 || s[n - 1] == 0xA9 || s[n - 1] == 0xAF) {
        3
    } else if n >= 3 && s[n - 3] == 0xE2 && s[n - 2] == 0x81 && s[n - 1] == 0x9F {
        3
    } else if n >= 3 && s[n - 3] == 0xE3 && s[n - 2] == 0x80 && s[n - 1] == 0x80 {
        3
    } else {
        0
    }
}

/// `s` without the white space at its end.
pub open spec fn trim_end(s: Seq<u8>) -> Seq<u8>
    decreases s.len(),
{
    if space_suffix_len(s) > 0 {
        trim_end(s.take(s.len() - space_suffix_len(s)))
    } else {
        s
    }
}

/// The message of the error for a line that is not UTF-8.
pub open spec fn not_utf8_message() -> Seq<char> {
    "stream did not contain valid UTF-8"@
}

/// A line without the line feed at its end.
pub open spec fn line_content(line: Seq<u8>) -> Seq<u8> {
    if line.len() > 0 && line.last() == LINE_FEED {
        line.drop_last()
    } else {
        line
    }
}

/// What reading a `key=value` line from the front of `input` gives: the value, or the error.
/// The line is taken without the line feed at its end and split at its first `=`; the value
/// is all that follows the `=`, white space too.
pub open spec fn parse_key_value_line(input: Seq<u8>, key: Seq<char>) -> Result<
    Seq<char>,
    GraphErrorView,
> {
    let line = first_line(input);
    let body = line_content(line);
    let eq = position(body, EQUALS);
    if !valid_utf8(line) {
        Err(GraphErrorView::IoRead(not_utf8_message()))
    } else if eq == body.len() {
        Err(GraphErrorView::ParseLineKeyValueFormat(decode_utf8(line)))
    } else if body.take(eq) == encode_utf8(key) {
        Ok(decode_utf8(body.skip(eq + 1)))
    } else {
        Err(GraphErrorView::ParseLineExpectedKey(key, decode_utf8(body.take(eq))))
    }
}

/// What reading a blank line from the front of `input` gives: nothing, or the error. A line
/// is blank when only white space is in it; so is the line read at the end of the input.
pub open spec fn parse_blank_line(input: Seq<u8>) -> Result<(), GraphErrorView> {
    let line = first_line(input);
    if !valid_utf8(line) {
        Err(GraphErrorView::IoRead(not_utf8_message()))
    } else if trim_end(line).len() == 0 {
        Ok(())
    } else {
        Err(GraphErrorView::ParseLineBlank(decode_utf8(line)))
    }
}

/// The bytes of the line `key=value`.
pub open spec fn key_value_line(key: Seq<char>, value: Seq<char>) -> Seq<u8> {
    encode_utf8(key) + seq![EQUALS] + encode_utf8(value) + seq![LINE_FEED]
}

/// The bytes of a blank line.
pub open spec fn separator_line() -> Seq<u8> {
    seq![LINE_FEED]
}

/// The first line is a part of the input, and ends with the first line feed if there is one.
pub proof fn lemma_first_line(input: Seq<u8>)
    ensures
        0 <= first_line_len(input) <= input.len(),
        input.len() > 0 ==> first_line_len(input) > 0,
        first_line(input) + after_first_line(input) == input,
        forall|j: int| 0 <= j < first_line_len(input) - 1 ==> input[j] != LINE_FEED,
{
    lemma_position(input, LINE_FEED);
    assert(first_line(input) + after_first_line(input) =~= input);
}

/// Cutting valid UTF-8 before a byte that continues no character leaves two valid parts.
pub proof fn lemma_valid_split(bytes: Seq<u8>, at: int)
    requires
        valid_utf8(bytes),
        0 <= at <= bytes.len(),
        at < bytes.len() ==> !is_continuation_byte(bytes[at]),
    ensures
        valid_utf8(bytes.take(at)),
        valid_utf8(bytes.skip(at)),
{
    if at < bytes.len() {
        vstd::utf8::is_char_boundary_iff_not_is_continuation_byte(bytes, at);
    } else {
        vstd::utf8::is_char_boundary_start_end_of_seq(bytes);
    }
    vstd::utf8::valid_utf8_split(bytes, at);
    assert(bytes.take(at) =~= bytes.subrange(0, at));
    assert(bytes.skip(at) =~= bytes.subrange(at, bytes.len() as int));
}

/// Cutting valid UTF-8 around an ASCII byte leaves two valid parts.
pub proof fn lemma_valid_around_ascii(bytes: Seq<u8>, at: int)
    requires
        valid_utf8(bytes),
        0 <= at < bytes.len(),
        bytes[at] < 128,
    ensures
        valid_utf8(bytes.take(at)),
        valid_utf8(bytes.skip(at + 1)),
{
    lemma_valid_split(bytes, at);
    let tail = bytes.skip(at);
    assert(tail[0] == bytes[at]);
    assert(vstd::utf8::pop_first_scalar(tail) =~= bytes.skip(at + 1));
}

/// The length of a line without the line feed at its end.
pub fn content_len(line: &[u8]) -> (n: usize)
    ensures
        n <= line@.len(),
        line@.take(n as int) == line_content(line@),
        valid_utf8(line@) ==> valid_utf8(line_content(line@)),
{
    let len = line.len();
    let n: usize = if len > 0 && line[len - 1] == LINE_FEED {
        len - 1
    } else {
        len
    };
    assert(line@.take(n as int) =~= line_content(line@));
    proof {
        if valid_utf8(line@) && n < len {
            lemma_valid_split(line@, n as int);
        }
    }
    n
}

/// The number of bytes of the white space character that ends the first `n` bytes.
fn space_suffix(bytes: &[u8], n: usize) -> (k: usize)
    requires
        n <= bytes@.len(),
    ensures
        k == space_suffix_len(bytes@.take(n as int)),
        k <= n,
{
    let ghost s = bytes@.take(n as int);
    if n >= 1 && ((9 <= bytes[n - 1] && bytes[n - 1] <= 13) || bytes[n - 1] == 32) {
        return 1;
    }
    if n >= 2 && bytes[n - 2] == 0xC2 && (bytes[n - 1] == 0x85 || bytes[n - 1] == 0xA0) {
        return 2;
    }
    if n >= 3 {
        let a: u8 = bytes[n - 3];
        let b: u8 = bytes[n - 2];
        let c: u8 = bytes[n - 1];
        assert(a == s[n - 3] && b == s[n - 2] && c == s[n - 1]);
        if a == 0xE1 && b == 0x9A && c == 0x80 {
            return 3;
        }
        if a == 0xE2 && b == 0x80 && ((0x80 <= c && c <= 0x8A) || c == 0xA8 || c == 0xA9 || c
            == 0xAF) {
            return 3;
        }
        if a == 0xE2 && b == 0x81 && c == 0x9F {
            return 3;
        }
        if a == 0xE3 && b == 0x80 && c == 0x80 {
            return 3;
        }
    }
    0
}

/// The length of `bytes` without the white space at its end.
pub fn trimmed_len(bytes: &[u8]) -> (n: usize)
    ensures
        n == trim_end(bytes@).len(),
        trim_end(bytes@) == bytes@.take(n as int),
{
    let mut n: usize = bytes.len();
    assert(bytes@.take(n as int) =~= bytes@);
    loop
        invariant
            n <= bytes@.len(),
            trim_end(bytes@) == trim_end(bytes@.take(n as int)),
        ensures
            n <= bytes@.len(),
            trim_end(bytes@) == bytes@.take(n as int),
        decreases n,
    {
        let k = space_suffix(bytes, n);
        if k == 0 {
            break;
        }
        assert(bytes@.take(n as int).take(n - k) =~= bytes@.take(n - k));
        n = n - k;
    }
    n
}

/// A cursor over the bytes of a serialized node.
pub struct ByteReader {
    data: Vec<u8>,
    pos: usize,
}

impl ByteReader {
    #[verifier::type_invariant]
    spec fn in_bounds(&self) -> bool {
        self.pos <= self.data@.len()
    }

    /// The bytes that are still to be read.
    pub closed spec fn remaining(&self) -> Seq<u8> {
        self.data@.skip(self.pos as int)
    }

    /// A reader at the start of `data`.
    pub fn new(data: Vec<u8>) -> (reader: ByteReader)
        ensures
            reader.remaining() == data@,
    {
        assert(data@.skip(0) =~= data@);
        ByteReader { data, pos: 0 }
    }

    /// Whether every byte has been read.
    pub fn is_at_end(&self) -> (at_end: bool)
        ensures
            at_end == (self.remaining().len() == 0),
    {
        proof {
            use_type_invariant(self);
        }
        self.pos == self.data.len()
    }

    /// The number of bytes that are still to be read.
    pub fn remaining_len(&self) -> (len: usize)
        ensures
            len == self.remaining().len(),
    {
        proof {
            use_type_invariant(self);
        }
        self.data.len() - self.pos
    }

    /// Takes the first line of what remains, its line feed included. At the end this is the
    /// empty line.
    pub fn read_line_bytes(&mut self) -> (line: Vec<u8>)
        ensures
            line@ == first_line(old(self).remaining()),
            final(self).remaining() == after_first_line(old(self).remaining()),
    {
        proof {
            use_type_invariant(&*self);
        }
        let rest = slice_subrange(self.data.as_slice(), self.pos, self.data.len());
        assert(rest@ =~= self.remaining());
        let p = find_byte(rest, LINE_FEED);
        proof {
            lemma_position(rest@, LINE_FEED);
        }
        let n: usize = if p < rest.len() {
            p + 1
        } else {
            rest.len()
        };
        let line = slice_to_vec(slice_subrange(rest, 0, n));
        assert(line@ =~= first_line(rest@));
        assert(self.data@.skip(self.pos + n) =~= after_first_line(rest@));
        self.pos = self.pos + n;
        line
    }

    /// Takes the first line of what remains as text, its line feed included.
    pub fn read_line(&mut self) -> (r: Result<String, GraphError>)
        ensures
            final(self).remaining() == after_first_line(old(self).remaining()),
            match r {
                Ok(line) => valid_utf8(first_line(old(self).remaining())) && line@ == decode_utf8(
                    first_line(old(self).remaining()),
                ),
                Err(e) => !valid_utf8(first_line(old(self).remaining())) && e@
                    == GraphErrorView::IoRead(not_utf8_message()),
            },
    {
        let bytes = self.read_line_bytes();
        match string_from_utf8(bytes.as_slice()) {
            Some(line) => Ok(line),
            None => Err(GraphError::IoRead("stream did not contain valid UTF-8".to_owned())),
        }
    }
}

/// Reads a `key=value` line and returns the value: what stands between the first `=` of the
/// line and the line feed at its end.
///
/// The line is refused when it is not UTF-8, when it holds no `=`, and when what stands before
/// its first `=` is not `key`. The line is taken from the reader in each case.
pub fn read_key_value_line(reader: &mut ByteReader, key: &str) -> (r: Result<String, GraphError>)
    ensures
        final(reader).remaining() == after_first_line(old(reader).remaining()),
        match parse_key_value_line(old(reader).remaining(), key@) {
            Ok(value) => r is Ok && r->Ok_0@ == value,
            Err(e) => r is Err && r->Err_0@ == e,
        },
{
    let ghost input = reader.remaining();
    let line = reader.read_line()?;
    let bytes = line.as_str().as_bytes();
    proof {
        vstd::utf8::decode_utf8_encode_utf8(first_line(input));
        assert(bytes@ == first_line(input));
    }
    let n = content_len(bytes);
    let body = slice_subrange(bytes, 0, n);
    assert(body@ == line_content(bytes@));
    let eq = find_byte(body, EQUALS);
    proof {
        lemma_position(body@, EQUALS);
    }
    if eq == body.len() {
        return Err(GraphError::ParseLineKeyValueFormat(line));
    }
    proof {
        lemma_valid_around_ascii(body@, eq as int);
    }
    let line_key = slice_subrange(body, 0, eq);
    let line_value = slice_subrange(body, eq + 1, n);
    assert(line_key@ == body@.take(eq as int));
    assert(line_value@ == body@.skip(eq + 1));
    if bytes_eq(line_key, key.as_bytes()) {
        match string_from_utf8(line_value) {
            Some(value) => Ok(value),
            None => Err(GraphError::IoRead("stream did not contain valid UTF-8".to_owned())),
        }
    } else {
        match string_from_utf8(line_key) {
            Some(found) => Err(GraphError::ParseLineExpectedKey(key.to_owned(), found)),
            None => Err(GraphError::IoRead("stream did not contain valid UTF-8".to_owned())),
        }
    }
}

/// Reads a line that must be blank.
///
/// The line is refused when it is not UTF-8 and when it holds more than white space. The
/// line is taken from the reader in each case.
pub fn read_empty_line(reader: &mut ByteReader) -> (r: Result<(), GraphError>)
    ensures
        final(reader).remaining() == after_first_line(old(reader).remaining()),
        match parse_blank_line(old(reader).remaining()) {
            Ok(_) => r is Ok,
            Err(e) => r is Err && r->Err_0@ == e,
        },
{
    let ghost input = reader.remaining();
    let line = reader.read_line()?;
    let bytes = line.as_str().as_bytes();
    proof {
        vstd::utf8::decode_utf8_encode_utf8(first_line(input));
    }
    let n = trimmed_len(bytes);
    if n == 0 {
        Ok(())
    } else {
        Err(GraphError::ParseLineBlank(line))
    }
}

/// Appends the line `key=value` to `writer`.
pub fn write_key_value_line(writer: &mut Vec<u8>, key: &str, value: &str)
    ensures
        final(writer)@ == old(writer)@ + key_value_line(key@, value@),
{
    writer.extend_from_slice(key.as_bytes());
    writer.push(EQUALS);
    writer.extend_from_slice(value.as_bytes());
    writer.push(LINE_FEED);
    assert(writer@ =~= old(writer)@ + key_value_line(key@, value@));
}

/// Appends a blank line to `writer`.
pub fn write_separator_bytes(writer: &mut Vec<u8>)
    ensures
        final(writer)@ == old(writer)@ + separator_line(),
{
    writer.push(LINE_FEED);
    assert(writer@ =~= old(writer)@ + separator_line());
}

} // verus!
