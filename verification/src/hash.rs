//! The digest that identifies a node: 32 bytes, written as 64 lowercase hex digits.

use vstd::prelude::*;
use crate::text::{ascii_chars, ascii_string, is_ascii_bytes, slice_subrange};

verus! {

/// Number of bytes in a digest.
pub const HASH_LEN: usize = 32;

/// Number of hex digits in the text form of a digest.
pub const HASH_HEX_LEN: usize = 64;

/// The BLAKE3 digest of `input`, as `blake3::hash` computes it.
pub uninterp spec fn blake3_digest(input: Seq<u8>) -> Seq<u8>;

/// Why a text is not the hex form of a digest.
#[derive(Clone, Copy, Debug, PartialEq, Eq)]
pub enum HashParseError {
    /// The text does not have 64 bytes.
    InvalidLen,
    /// A byte of the text is not a hex digit.
    InvalidByte,
}

/// A 32-byte digest.
#[derive(Clone, Copy, Debug, PartialEq, Eq)]
pub struct Hash {
    bytes: [u8; 32],
}

impl View for Hash {
    type V = Seq<u8>;

    closed spec fn view(&self) -> Seq<u8> {
        self.bytes@
    }
}

/// The lowercase hex digit of a value below 16, as an ASCII byte.
pub open spec fn hex_digit(nibble: u8) -> u8 {
    if nibble < 10 {
        (48 + nibble) as u8
    } else {
        (87 + nibble) as u8
    }
}

/// The lowercase hex form of `bytes`: two digits for each byte, the high half first.
pub open spec fn hex_of(bytes: Seq<u8>) -> Seq<u8> {
    Seq::new(
        2 * bytes.len(),
        |i: int|
            if i % 2 == 0 {
                hex_digit(bytes[i / 2] / 16)
            } else {
                hex_digit(bytes[i / 2] % 16)
            },
    )
}

/// The value of a hex digit of either case, if `c` is one.
pub open spec fn hex_value(c: u8) -> Option<u8> {
    if 48 <= c <= 57 {
        Some((c - 48) as u8)
    } else if 97 <= c <= 102 {
        Some((c - 87) as u8)
    } else if 65 <= c <= 70 {
        Some((c - 55) as u8)
    } else {
        None
    }
}

/// Every byte of `text` is a hex digit.
pub open spec fn is_hex(text: Seq<u8>) -> bool {
    forall|i: int| 0 <= i < text.len() ==> (#[trigger] hex_value(text[i])) is Some
}

/// The bytes that the hex digits of `text` stand for, two digits to a byte.
pub open spec fn unhex(text: Seq<u8>) -> Seq<u8> {
    Seq::new(
        text.len() / 2,
        |i: int| (16 * hex_value(text[2 * i])->0 + hex_value(text[2 * i + 1])->0) as u8,
    )
}

/// What parsing `text` as a digest gives: its 32 bytes, or why it is refused.
pub open spec fn parse_hash(text: Seq<u8>) -> Result<Seq<u8>, HashParseError> {
    if text.len() != 64 {
        Err(HashParseError::InvalidLen)
    } else if !is_hex(text) {
        Err(HashParseError::InvalidByte)
    } else {
        Ok(unhex(text))
    }
}

/// The hex form is made of lowercase hex digits, and stands for the bytes that it was made
/// of.
pub proof fn lemma_hex_round_trip(bytes: Seq<u8>)
    ensures
        hex_of(bytes).len() == 2 * bytes.len(),
        is_hex(hex_of(bytes)),
        unhex(hex_of(bytes)) == bytes,
        forall|i: int|
            0 <= i < hex_of(bytes).len() ==> 48 <= (#[trigger] hex_of(bytes)[i]) <= 57 || 97
                <= hex_of(bytes)[i] <= 102,
        bytes.len() == 32 ==> parse_hash(hex_of(bytes)) == Ok::<Seq<u8>, HashParseError>(bytes),
{
    let hex = hex_of(bytes);
    assert forall|i: int| 0 <= i < hex.len() implies (48 <= (#[trigger] hex[i]) <= 57 || 97
        <= hex[i] <= 102) && hex_value(hex[i]) is Some by {
        let b = bytes[i / 2];
        assert(b / 16 < 16 && b % 16 < 16);
    }
    assert(unhex(hex) =~= bytes) by {
        assert forall|i: int| 0 <= i < bytes.len() implies unhex(hex)[i] == bytes[i] by {
            let b = bytes[i];
            assert((2 * i) / 2 == i && (2 * i + 1) / 2 == i);
            assert((2 * i) % 2 == 0 && (2 * i + 1) % 2 == 1);
            assert(hex[2 * i] == hex_digit(b / 16));
            assert(hex[2 * i + 1] == hex_digit(b % 16));
            assert(hex_value(hex_digit(b / 16)) == Some((b / 16) as u8));
            assert(hex_value(hex_digit(b % 16)) == Some((b % 16) as u8));
            assert(16 * (b / 16) + b % 16 == b);
        }
    }
}

/// Calls `blake3::hash` and copies the 32 bytes of its result out.
///
/// Trusted: the result is the BLAKE3 digest of `input`, a function of the input bytes alone.
#[verifier::external_body]
fn blake3_hash(input: &[u8]) -> (out: [u8; 32])
    ensures
        out@ == blake3_digest(input@),
{
    *blake3::hash(input).as_bytes()
}

fn hex_digit_of(nibble: u8) -> (c: u8)
    requires
        nibble < 16,
    ensures
        c == hex_digit(nibble),
        c < 128,
{
    if nibble < 10 {
        48 + nibble
    } else {
        87 + nibble
    }
}

fn hex_value_of(c: u8) -> (v: Option<u8>)
    ensures
        v == hex_value(c),
        v is Some ==> v->0 < 16,
{
    if 48 <= c && c <= 57 {
        Some(c - 48)
    } else if 97 <= c && c <= 102 {
        Some(c - 87)
    } else if 65 <= c && c <= 70 {
        Some(c - 55)
    } else {
        None
    }
}

impl Hash {
    /// A digest has 32 bytes.
    pub proof fn lemma_len(&self)
        ensures
            self@.len() == 32,
    {
    }

    /// The digest of `input`.
    pub fn new(input: &[u8]) -> (h: Hash)
        ensures
            h@ == blake3_digest(input@),
    {
        Hash { bytes: blake3_hash(input) }
    }

    /// The digest that holds exactly `bytes`.
    pub fn from_bytes(bytes: [u8; 32]) -> (h: Hash)
        ensures
            h@ == bytes@,
    {
        Hash { bytes }
    }

    /// The 32 bytes of the digest.
    pub fn as_bytes(&self) -> (bytes: &[u8; 32])
        ensures
            bytes@ == self@,
    {
        &self.bytes
    }

    /// Whether two digests hold the same bytes.
    pub fn same_as(&self, other: &Hash) -> (same: bool)
        ensures
            same == (self@ == other@),
    {
        let mut i: usize = 0;
        while i < 32
            invariant
                0 <= i <= 32,
                forall|j: int| 0 <= j < i ==> self.bytes@[j] == other.bytes@[j],
            decreases 32 - i,
        {
            if self.bytes[i] != other.bytes[i] {
                return false;
            }
            i += 1;
        }
        assert(self.bytes@ =~= other.bytes@);
        true
    }

    /// The hex form as ASCII bytes: 64 lowercase hex digits.
    pub fn to_hex_bytes(&self) -> (out: Vec<u8>)
        ensures
            out@ == hex_of(self@),
            out@.len() == 64,
            is_ascii_bytes(out@),
    {
        let mut out: Vec<u8> = Vec::new();
        let mut i: usize = 0;
        while i < 32
            invariant
                0 <= i <= 32,
                out@.len() == 2 * i,
                forall|j: int| 0 <= j < 2 * i ==> out@[j] == hex_of(self.bytes@)[j],
                is_ascii_bytes(out@),
            decreases 32 - i,
        {
            let b: u8 = self.bytes[i];
            out.push(hex_digit_of(b / 16));
            out.push(hex_digit_of(b % 16));
            i += 1;
        }
        assert(out@ =~= hex_of(self.bytes@));
        out
    }

    /// The hex form as text: 64 lowercase hex digits.
    pub fn to_string(&self) -> (out: String)
        ensures
            out@ == ascii_chars(hex_of(self@)),
    {
        let hex = self.to_hex_bytes();
        ascii_string(hex.as_slice())
    }

    /// The first 8 hex digits, for display in debugging output.
    pub fn short_string(&self) -> (out: String)
        ensures
            out@ == ascii_chars(hex_of(self@).take(8)),
    {
        let hex = self.to_hex_bytes();
        let head = slice_subrange(hex.as_slice(), 0, 8);
        assert(head@ == hex_of(self@).take(8));
        ascii_string(head)
    }

    /// Parses the hex form of a digest from the bytes of a text: 64 hex digits of either case.
    pub fn from_hex_bytes(text: &[u8]) -> (r: Result<Hash, HashParseError>)
        ensures
            match parse_hash(text@) {
                Ok(bytes) => r is Ok && r->Ok_0@ == bytes,
                Err(e) => r == Err::<Hash, HashParseError>(e),
            },
    {
        if text.len() != 64 {
            return Err(HashParseError::InvalidLen);
        }
        let mut bytes: [u8; 32] = [0u8; 32];
        let mut i: usize = 0;
        while i < 32
            invariant
                0 <= i <= 32,
                text@.len() == 64,
                forall|j: int| 0 <= j < 2 * i ==> (#[trigger] hex_value(text@[j])) is Some,
                forall|j: int| 0 <= j < i ==> bytes@[j] == unhex(text@)[j],
            decreases 32 - i,
        {
            let hi = hex_value_of(text[2 * i]);
            let lo = hex_value_of(text[2 * i + 1]);
            match (hi, lo) {
                (Some(h), Some(l)) => {
                    bytes[i] = 16 * h + l;
                },
                _ => {
                    assert(!is_hex(text@)) by {
                        if hi is None {
                            assert(hex_value(text@[2 * i as int]) is None);
                        } else {
                            assert(hex_value(text@[2 * i + 1]) is None);
                        }
                    }
                    return Err(HashParseError::InvalidByte);
                },
            }
            i += 1;
        }
        assert(is_hex(text@));
        assert(bytes@ =~= unhex(text@));
        Ok(Hash { bytes })
    }

    /// Parses the hex form of a digest: 64 hex digits of either case.
    pub fn from_str(text: &str) -> (r: Result<Hash, HashParseError>)
        ensures
            match parse_hash(vstd::utf8::encode_utf8(text@)) {
                Ok(bytes) => r is Ok && r->Ok_0@ == bytes,
                Err(e) => r == Err::<Hash, HashParseError>(e),
            },
    {
        Hash::from_hex_bytes(text.as_bytes())
    }
}

} // verus!
