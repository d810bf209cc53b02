//! A tree of typed nodes that is turned into a Merkle DAG: every node is hashed over its
//! canonical bytes, which list the hashes of its children.
//!
//! A tree is given as a [`NodeWithChildren`]. [`ObjectTree::create_from_root`] lays it out in
//! a graph, computes the hash of every node after the hashes of its children, and returns the
//! tree of the hashed nodes. A node is written as a header, its payload, and one line for
//! each child, sorted by name; it is read back with `NodeWithEntries::read_bytes`, and its
//! hash is checked with `VerifyHash::verify_hash`.
//!
//! - `hash`, `kind`, `error`, `text`: the digest, the kind of a node, the errors, bytes and
//!   text.
//! - `codec`, `entry`, `node`, `traits`: the lines of the serialized form, the entries of
//!   children, the nodes, and what a payload provides.
//! - `graph`, `layout`, `tree`: the graph, how a tree lies in it, and the two trees.
//! - `sorting`, `roundtrip`, `laws`: what holds of the sort, of reading back, and of the hash.
//! - `schema_variant_child`: a payload. `schematic`, `execution`: the schematic of a view and
//!   the end of an execution.

pub mod codec;
pub mod entry;
pub mod error;
pub mod execution;
pub mod graph;
pub mod hash;
pub mod kind;
pub mod laws;
pub mod layout;
pub mod node;
pub mod roundtrip;
pub mod schema_variant_child;
pub mod schematic;
pub mod sorting;
pub mod text;
pub mod traits;
pub mod tree;

pub use crate::codec::{read_key_value_line, write_key_value_line, ByteReader, NL};
pub use crate::error::{GraphError, ParseError};
pub use crate::kind::NodeKind;
pub use crate::node::{HashedNode, NodeWithChildren};
pub use crate::traits::{NameStr, ObjectKindStr, ReadBytes, VerifyHash, WriteBytes};
pub use crate::tree::ObjectTree;
