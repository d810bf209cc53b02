//! What a payload provides to take part in a tree: a name, an object kind, and its own
//! serialized form.
//!
//! Each trait states what its methods return through functions of the model, such as
//! `bytes_spec`. A verified implementation defines them and is held to them. They have a
//! body here, of which nothing is known, only so that an implementation in code that is not
//! verified can leave them out; of such an implementation nothing is proved.

use vstd::prelude::*;
use crate::codec::ByteReader;
use crate::error::{GraphError, GraphErrorView};
use crate::hash::blake3_digest;

verus! {

/// Types that have a name.
pub trait NameStr {
    /// The name.
    open spec fn name_spec(&self) -> Seq<char> {
        arbitrary()
    }

    /// Returns the name.
    fn name(&self) -> (name: &str)
        ensures
            name@ == self.name_spec(),
    ;
}

/// Types that state their kind as a short tag.
pub trait ObjectKindStr {
    /// The tag.
    open spec fn object_kind_spec(&self) -> Seq<char> {
        arbitrary()
    }

    /// Returns the tag.
    fn object_kind(&self) -> (kind: &str)
        ensures
            kind@ == self.object_kind_spec(),
    ;
}

/// Types that have a serialized form.
pub trait WriteBytes {
    /// The serialized form.
    open spec fn bytes_spec(&self) -> Seq<u8> {
        arbitrary()
    }

    /// Appends the serialized form of `self` to `writer`.
    fn write_bytes(&self, writer: &mut Vec<u8>)
        ensures
            final(writer)@ == old(writer)@ + self.bytes_spec(),
    ;

    /// Returns the serialized form of `self`.
    fn to_bytes(&self) -> (bytes: Vec<u8>)
        ensures
            bytes@ == self.bytes_spec(),
    {
        let mut writer: Vec<u8> = Vec::new();
        self.write_bytes(&mut writer);
        assert(writer@ =~= self.bytes_spec());
        writer
    }
}

/// Types that hold a hash of their serialized form and can check it.
pub trait VerifyHash: WriteBytes {
    /// The bytes of the hash that was stored with the value.
    open spec fn hash_spec(&self) -> Seq<u8> {
        arbitrary()
    }

    /// Returns the hash that was stored with the value.
    fn hash(&self) -> (hash: &crate::hash::Hash)
        ensures
            hash@ == self.hash_spec(),
    ;

    /// Computes the hash of the serialized form again and compares it with the stored one.
    ///
    /// Fails with `Verify`, which holds the stored hash and then the computed one, exactly
    /// when the two differ.
    fn verify_hash(&self) -> (r: Result<(), GraphError>)
        ensures
            r is Ok <==> self.hash_spec() == blake3_digest(self.bytes_spec()),
            r is Err ==> r->Err_0@ == GraphErrorView::Verify(
                self.hash_spec(),
                blake3_digest(self.bytes_spec()),
            ),
    {
        let input = self.to_bytes();
        let computed = crate::hash::Hash::new(input.as_slice());
        let stored = self.hash();
        if stored.same_as(&computed) {
            Ok(())
        } else {
            Err(GraphError::Verify(*stored, computed))
        }
    }
}

/// Types that can be read back from their serialized form.
///
/// Reading is described by three functions of the input: the error, if reading fails; the
/// number of bytes that a successful reading takes; and which values a successful reading
/// may give.
pub trait ReadBytes: Sized {
    /// Why nothing can be read from the front of `input`, where that is so.
    open spec fn read_error(input: Seq<u8>) -> Option<GraphErrorView> {
        arbitrary()
    }

    /// The number of bytes that reading from the front of `input` takes, where it succeeds.
    open spec fn read_len(input: Seq<u8>) -> int {
        arbitrary()
    }

    /// Whether `value` is what the front of `input` holds.
    open spec fn read_value(input: Seq<u8>, value: Self) -> bool {
        arbitrary()
    }

    /// Reads a value from the front of what remains in `reader`.
    fn read_bytes(reader: &mut ByteReader) -> (r: Result<Self, GraphError>)
        ensures
            match r {
                Ok(value) => {
                    &&& Self::read_error(old(reader).remaining()) is None
                    &&& Self::read_value(old(reader).remaining(), value)
                    &&& 0 <= Self::read_len(old(reader).remaining())
                    &&& Self::read_len(old(reader).remaining()) <= old(reader).remaining().len()
                    &&& final(reader).remaining() == old(reader).remaining().skip(
                        Self::read_len(old(reader).remaining()),
                    )
                },
                Err(e) => Self::read_error(old(reader).remaining()) == Some(e@),
            },
    ;

    /// Reads a value from the front of `buf`.
    fn from_bytes(buf: Vec<u8>) -> (r: Result<Self, GraphError>)
        ensures
            match r {
                Ok(value) => Self::read_error(buf@) is None && Self::read_value(buf@, value),
                Err(e) => Self::read_error(buf@) == Some(e@),
            },
    {
        let mut reader = ByteReader::new(buf);
        Self::read_bytes(&mut reader)
    }
}

} // verus!
