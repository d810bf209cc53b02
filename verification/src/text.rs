//! Bytes and text: the serialized form is bytes, names and values are UTF-8 text.

use vstd::prelude::*;
use vstd::utf8::*;

verus! {

/// Every byte is below 128.
pub open spec fn is_ascii_bytes(bytes: Seq<u8>) -> bool {
    forall|i: int| 0 <= i < bytes.len() ==> #[trigger] bytes[i] < 128
}

/// The characters of ASCII bytes, one for one.
pub open spec fn ascii_chars(bytes: Seq<u8>) -> Seq<char> {
    Seq::new(bytes.len(), |i: int| bytes[i] as char)
}

/// ASCII bytes are valid UTF-8 and decode one for one.
pub proof fn lemma_ascii_bytes_decode(bytes: Seq<u8>)
    requires
        is_ascii_bytes(bytes),
    ensures
        valid_utf8(bytes),
        decode_utf8(bytes) == ascii_chars(bytes),
        encode_utf8(ascii_chars(bytes)) == bytes,
{
    let chars = ascii_chars(bytes);
    assert(is_ascii_chars(chars)) by {
        assert forall|i: int| 0 <= i < chars.len() implies '\0' <= #[trigger] chars[i] <= '\u{7f}' by {
            assert(bytes[i] < 128);
        }
    }
    is_ascii_chars_encode_utf8(chars);
    assert(encode_utf8(chars) =~= bytes) by {
        assert forall|i: int| 0 <= i < bytes.len() implies encode_utf8(chars)[i] == bytes[i] by {
            assert(bytes[i] < 128);
            assert(chars[i] as u8 == encode_utf8(chars)[i]);
        }
    }
    encode_utf8_valid_utf8(chars);
    encode_utf8_decode_utf8(chars);
}

/// The text that `bytes` hold, if they are valid UTF-8.
///
/// Trusted: `String::from_utf8` succeeds exactly on valid UTF-8 and then holds the decoded
/// characters.
#[verifier::external_body]
pub(crate) fn string_from_utf8(bytes: &[u8]) -> (out: Option<String>)
    ensures
        out is Some <==> valid_utf8(bytes@),
        out is Some ==> out->0@ == decode_utf8(bytes@),
{
    String::from_utf8(bytes.to_vec()).ok()
}

/// The text of ASCII bytes.
pub fn ascii_string(bytes: &[u8]) -> (out: String)
    requires
        is_ascii_bytes(bytes@),
    ensures
        out@ == ascii_chars(bytes@),
{
    proof {
        lemma_ascii_bytes_decode(bytes@);
    }
    match string_from_utf8(bytes) {
        Some(s) => s,
        None => String::new(),
    }
}

/// The part of `bytes` from `from` up to `to`.
pub fn slice_subrange(bytes: &[u8], from: usize, to: usize) -> (out: &[u8])
    requires
        from <= to <= bytes@.len(),
    ensures
        out@ == bytes@.subrange(from as int, to as int),
{
    &bytes[from..to]
}

/// The index of the first `b` in `s`, or the length of `s` where it holds none.
pub open spec fn position<A>(s: Seq<A>, b: A) -> int
    decreases s.len(),
{
    if s.len() == 0 || s[0] == b {
        0
    } else {
        1 + position(s.drop_first(), b)
    }
}

/// The index of the last `b` in `s`, or -1 where it holds none.
pub open spec fn last_position(s: Seq<u8>, b: u8) -> int
    decreases s.len(),
{
    if s.len() == 0 {
        -1
    } else if s.last() == b {
        s.len() - 1
    } else {
        last_position(s.drop_last(), b)
    }
}

/// `position` is within the sequence, nothing before it is `b`, and it holds `b` unless it is
/// the length.
pub proof fn lemma_position<A>(s: Seq<A>, b: A)
    ensures
        0 <= position(s, b) <= s.len(),
        forall|j: int| 0 <= j < position(s, b) ==> s[j] != b,
        position(s, b) < s.len() ==> s[position(s, b)] == b,
        position(s, b) == s.len() <==> !s.contains(b),
    decreases s.len(),
{
    if s.len() == 0 || s[0] == b {
    } else {
        let t = s.drop_first();
        lemma_position(t, b);
        assert forall|j: int| 0 <= j < position(s, b) implies s[j] != b by {
            if j > 0 {
                assert(s[j] == t[j - 1]);
            }
        }
        if position(t, b) < t.len() {
            assert(s[position(s, b)] == t[position(t, b)]);
        }
    }
    if position(s, b) < s.len() {
        assert(s.contains(b));
    } else {
        assert forall|j: int| 0 <= j < s.len() implies s[j] != b by {}
    }
}

/// The index `k` is `position(s, b)` when nothing before it is `b` and it holds `b` or is the
/// length.
pub proof fn lemma_position_is<A>(s: Seq<A>, b: A, k: int)
    requires
        0 <= k <= s.len(),
        forall|j: int| 0 <= j < k ==> s[j] != b,
        k < s.len() ==> s[k] == b,
    ensures
        position(s, b) == k,
{
    lemma_position(s, b);
    let p = position(s, b);
    if p < k {
        assert(s[p] != b);
    } else if k < p {
        assert(s[k] != b);
    }
}

/// `last_position` is -1 or an index that holds `b`, and nothing after it is `b`.
pub proof fn lemma_last_position(s: Seq<u8>, b: u8)
    ensures
        -1 <= last_position(s, b) < s.len(),
        forall|j: int| last_position(s, b) < j < s.len() ==> s[j] != b,
        last_position(s, b) >= 0 ==> s[last_position(s, b)] == b,
    decreases s.len(),
{
    if s.len() == 0 || s.last() == b {
    } else {
        let t = s.drop_last();
        lemma_last_position(t, b);
        assert forall|j: int| last_position(s, b) < j < s.len() implies s[j] != b by {
            if j < s.len() - 1 {
                assert(s[j] == t[j]);
            }
        }
        if last_position(t, b) >= 0 {
            assert(s[last_position(s, b)] == t[last_position(t, b)]);
        }
    }
}

/// The index `k` is `last_position(s, b)` when nothing after it is `b` and it holds `b` or
/// is -1.
pub proof fn lemma_last_position_is(s: Seq<u8>, b: u8, k: int)
    requires
        -1 <= k < s.len(),
        forall|j: int| k < j < s.len() ==> s[j] != b,
        k >= 0 ==> s[k] == b,
    ensures
        last_position(s, b) == k,
{
    lemma_last_position(s, b);
    let p = last_position(s, b);
    if p < k {
        assert(s[k] != b);
    } else if k < p {
        assert(s[p] != b);
    }
}

/// Byte-wise lexicographic order: `a` comes before `b` or equals it.
pub open spec fn lex_le(a: Seq<u8>, b: Seq<u8>) -> bool
    decreases a.len(),
{
    if a.len() == 0 {
        true
    } else if b.len() == 0 {
        false
    } else if a[0] != b[0] {
        a[0] < b[0]
    } else {
        lex_le(a.drop_first(), b.drop_first())
    }
}

/// The byte-wise lexicographic order is a total order: any two byte strings compare, those
/// that compare both ways are equal, and the order is transitive.
pub proof fn lemma_lex_le_order(a: Seq<u8>, b: Seq<u8>, c: Seq<u8>)
    ensures
        lex_le(a, a),
        lex_le(a, b) || lex_le(b, a),
        lex_le(a, b) && lex_le(b, a) ==> a == b,
        lex_le(a, b) && lex_le(b, c) ==> lex_le(a, c),
    decreases a.len(),
{
    if a.len() > 0 {
        lemma_lex_le_order(a.drop_first(), a.drop_first(), a.drop_first());
        if b.len() > 0 {
            if c.len() > 0 {
                lemma_lex_le_order(a.drop_first(), b.drop_first(), c.drop_first());
            } else {
                lemma_lex_le_order(a.drop_first(), b.drop_first(), b.drop_first());
            }
            if lex_le(a, b) && lex_le(b, a) {
                assert(a =~= seq![a[0]] + a.drop_first());
                assert(b =~= seq![b[0]] + b.drop_first());
            }
        }
    } else {
        if lex_le(b, a) {
            assert(a =~= b);
        }
    }
}

/// The index of the first `b` in `bytes`, or its length.
pub fn find_byte(bytes: &[u8], b: u8) -> (i: usize)
    ensures
        i == position(bytes@, b),
{
    let mut i: usize = 0;
    while i < bytes.len() && bytes[i] != b
        invariant
            0 <= i <= bytes@.len(),
            forall|j: int| 0 <= j < i ==> bytes@[j] != b,
        decreases bytes@.len() - i,
    {
        i += 1;
    }
    proof {
        lemma_position_is(bytes@, b, i as int);
    }
    i
}

/// The index of the last `b` in `bytes`, if it holds one.
pub fn find_last_byte(bytes: &[u8], b: u8) -> (i: Option<usize>)
    ensures
        match i {
            Some(k) => k == last_position(bytes@, b),
            None => last_position(bytes@, b) == -1,
        },
{
    let mut i: usize = bytes.len();
    while i > 0 && bytes[i - 1] != b
        invariant
            0 <= i <= bytes@.len(),
            forall|j: int| i <= j < bytes@.len() ==> bytes@[j] != b,
        decreases i,
    {
        i -= 1;
    }
    proof {
        lemma_last_position_is(bytes@, b, i as int - 1);
    }
    if i == 0 {
        None
    } else {
        Some(i - 1)
    }
}

/// Whether two byte strings are equal.
pub fn bytes_eq(a: &[u8], b: &[u8]) -> (same: bool)
    ensures
        same == (a@ == b@),
{
    if a.len() != b.len() {
        return false;
    }
    let mut i: usize = 0;
    while i < a.len()
        invariant
            0 <= i <= a@.len(),
            a@.len() == b@.len(),
            forall|j: int| 0 <= j < i ==> a@[j] == b@[j],
        decreases a@.len() - i,
    {
        if a[i] != b[i] {
            return false;
        }
        i += 1;
    }
    assert(a@ =~= b@);
    true
}

/// Whether two texts are equal.
pub fn str_eq(a: &str, b: &str) -> (same: bool)
    ensures
        same == (a@ == b@),
{
    proof {
        encode_utf8_decode_utf8(a@);
        encode_utf8_decode_utf8(b@);
    }
    bytes_eq(a.as_bytes(), b.as_bytes())
}

/// Whether `a` comes before `b`, or equals it, in byte-wise lexicographic order.
pub fn bytes_le(a: &[u8], b: &[u8]) -> (le: bool)
    ensures
        le == lex_le(a@, b@),
{
    let mut i: usize = 0;
    assert(a@.skip(0) =~= a@ && b@.skip(0) =~= b@);
    while i < a.len() && i < b.len() && a[i] == b[i]
        invariant
            0 <= i <= a@.len(),
            i <= b@.len(),
            lex_le(a@, b@) == lex_le(a@.skip(i as int), b@.skip(i as int)),
        decreases a@.len() - i,
    {
        proof {
            let x = a@.skip(i as int);
            let y = b@.skip(i as int);
            assert(x.drop_first() =~= a@.skip(i + 1));
            assert(y.drop_first() =~= b@.skip(i + 1));
        }
        i += 1;
    }
    if i == a.len() {
        true
    } else if i == b.len() {
        false
    } else {
        a[i] < b[i]
    }
}

} // verus!
