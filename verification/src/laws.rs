//! What holds of the hash of a tree: it does not depend on the order in which the children of
//! a node are given, and it is the hash under which every node of the hashed tree verifies.

use vstd::prelude::*;
use crate::codec::separator_line;
use crate::entry::{entry_lines, sort_entries, NodeEntryView};
use crate::kind::NodeKind;
use crate::node::{entries_block, header_bytes};
use crate::roundtrip::{
    entry_fits_in_line, lemma_plain_text, lemma_read_entry_lines, lemma_sorted_entries_fit,
};
use crate::hash::blake3_digest;
use crate::graph::out_neighbors;
use crate::layout::{forest_size, lemma_subtrees_len, subtrees, tree_subtrees};
use crate::node::{node_bytes, HashedNodeWithEntries, NodeWithChildren};
use crate::sorting::{distinct_names, lemma_sort_ignores_order};
use crate::traits::{NameStr, ObjectKindStr, VerifyHash, WriteBytes};
use crate::tree::{
    child_entries, lemma_child_entries, tree_bytes, tree_entry, tree_hash, ObjectTree,
};

verus! {

/// No two children of one node of `tree` have one name.
pub open spec fn sibling_names_distinct<T: NameStr + ObjectKindStr + WriteBytes>(
    tree: NodeWithChildren<T>,
) -> bool
    decreases tree,
{
    &&& forall|i: int, j: int|
        0 <= i < j < tree.children@.len() ==> (#[trigger] tree.children@[i]).inner.name_spec() != (
        #[trigger] tree.children@[j]).inner.name_spec()
    &&& forall|i: int|
        0 <= i < tree.children@.len() ==> sibling_names_distinct(#[trigger] tree.children@[i])
}

/// `b` is `a` with the children of any of its nodes in another order: the two roots have one
/// kind and one payload, and the children of `b` are the children of `a` in some order, each
/// reordered in its turn.
pub open spec fn reordered<T>(a: NodeWithChildren<T>, b: NodeWithChildren<T>) -> bool
    decreases b,
{
    &&& a.kind == b.kind
    &&& a.inner == b.inner
    &&& exists|c: Seq<NodeWithChildren<T>>|
        {
            &&& #[trigger] c.to_multiset() == a.children@.to_multiset()
            &&& c.len() == b.children@.len()
            &&& forall|i: int| 0 <= i < c.len() ==> reordered(c[i], #[trigger] b.children@[i])
        }
}

/// The entries of the same children in another order are the same entries in another order.
pub proof fn lemma_entries_of_reordered<T: NameStr + ObjectKindStr + WriteBytes>(
    x: Seq<NodeWithChildren<T>>,
    y: Seq<NodeWithChildren<T>>,
)
    requires
        x.to_multiset() == y.to_multiset(),
    ensures
        child_entries(x).to_multiset() == child_entries(y).to_multiset(),
    decreases x.len(),
{
    broadcast use vstd::seq_lib::group_to_multiset_ensures;
    broadcast use vstd::multiset::group_multiset_axioms;

    vstd::seq_lib::to_multiset_len(x);
    vstd::seq_lib::to_multiset_len(y);
    if x.len() == 0 {
        assert(child_entries(x) =~= child_entries(y));
    } else {
        let t = x.last();
        assert(x.to_multiset().contains(t));
        assert(y.to_multiset().contains(t));
        let i = choose|i: int| 0 <= i < y.len() && y[i] == t;
        let rx = x.drop_last();
        let ry = y.remove(i);
        assert(x =~= rx.push(t));
        assert(rx.to_multiset() =~= x.to_multiset().remove(t));
        vstd::seq_lib::to_multiset_remove(y, i);
        lemma_entries_of_reordered(rx, ry);
        lemma_child_entries(y);
        lemma_child_entries(ry);
        let at = y.len() - 1 - i;
        assert(child_entries(y) =~= child_entries(ry).insert(at, tree_entry(t))) by {
            assert forall|q: int| 0 <= q < y.len() implies child_entries(y)[q] == child_entries(
                ry,
            ).insert(at, tree_entry(t))[q] by {
                if q < at {
                    assert(ry[ry.len() - 1 - q] == y[y.len() - 1 - q]);
                } else if q > at {
                    assert(ry[ry.len() - 1 - (q - 1)] == y[y.len() - 1 - q]);
                }
            }
        }
        vstd::seq_lib::to_multiset_insert(child_entries(ry), at, tree_entry(t));
        assert(child_entries(x).to_multiset() =~= child_entries(rx).to_multiset().insert(
            tree_entry(t),
        )) by {
            assert(child_entries(x) =~= child_entries(rx).insert(0, tree_entry(t)));
            vstd::seq_lib::to_multiset_insert(child_entries(rx), 0, tree_entry(t));
        }
    }
}

/// Child-order invariance: a tree and the same tree with the children of any of its nodes in
/// another order have one hash, where no two children of one node have one name.
pub proof fn lemma_child_order_invariance<T: NameStr + ObjectKindStr + WriteBytes>(
    a: NodeWithChildren<T>,
    b: NodeWithChildren<T>,
)
    requires
        reordered(a, b),
        sibling_names_distinct(a),
    ensures
        tree_bytes(a) == tree_bytes(b),
        tree_hash(a) == tree_hash(b),
    decreases b,
{
    broadcast use vstd::seq_lib::group_to_multiset_ensures;
    broadcast use vstd::multiset::group_multiset_axioms;

    let c = choose|c: Seq<NodeWithChildren<T>>|
        {
            &&& #[trigger] c.to_multiset() == a.children@.to_multiset()
            &&& c.len() == b.children@.len()
            &&& forall|i: int| 0 <= i < c.len() ==> reordered(c[i], #[trigger] b.children@[i])
        };
    let kids_a = a.children@;
    let kids_b = b.children@;
    lemma_child_entries(c);
    lemma_child_entries(kids_a);
    lemma_child_entries(kids_b);
    assert forall|i: int| 0 <= i < c.len() implies tree_entry(c[i]) == tree_entry(
        #[trigger] kids_b[i],
    ) by {
        assert(c.to_multiset().contains(c[i]));
        assert(kids_a.to_multiset().contains(c[i]));
        let k = choose|k: int| 0 <= k < kids_a.len() && kids_a[k] == c[i];
        assert(sibling_names_distinct(kids_a[k]));
        assert(reordered(c[i], kids_b[i]));
        lemma_child_order_invariance(c[i], kids_b[i]);
    }
    assert(child_entries(c) =~= child_entries(kids_b));
    lemma_entries_of_reordered(kids_a, c);
    assert(distinct_names(child_entries(kids_a)));
    lemma_sort_ignores_order(child_entries(kids_a), child_entries(c));
}

/// Determinism: two trees of hashed nodes that were made from one tree hold the same nodes
/// in the same places with the same hashes, the same edges and the same root.
pub proof fn lemma_deterministic<T: NameStr + ObjectKindStr + WriteBytes>(
    one: ObjectTree<T>,
    other: ObjectTree<T>,
    tree: NodeWithChildren<T>,
)
    requires
        one.is_hashed_form_of(tree),
        other.is_hashed_form_of(tree),
    ensures
        one.nodes_spec().len() == other.nodes_spec().len(),
        forall|k: int|
            0 <= k < one.nodes_spec().len() ==> {
                &&& (#[trigger] one.nodes_spec()[k]).kind_spec() == other.nodes_spec()[k].kind_spec()
                &&& one.nodes_spec()[k].inner_spec() == other.nodes_spec()[k].inner_spec()
                &&& one.nodes_spec()[k].hash_bytes() == other.nodes_spec()[k].hash_bytes()
            },
        one.edges_spec() == other.edges_spec(),
        one.root_spec() == other.root_spec(),
        one.nodes_spec()[one.root_spec()].hash_bytes() == tree_hash(tree),
{
    crate::layout::lemma_single(tree, None, 0);
    assert(tree_subtrees(tree)[0] == tree);
    assert(one.nodes_spec()[0].hash_bytes() == tree_hash(tree_subtrees(tree)[0]));
}

/// Hash verification: every node of a tree of hashed nodes, taken with the entries of its
/// children, holds the hash of its own canonical bytes, which is when `verify_hash` succeeds.
pub proof fn lemma_fresh_node_verifies<T: NameStr + ObjectKindStr + WriteBytes>(
    hashed: ObjectTree<T>,
    tree: NodeWithChildren<T>,
    k: int,
    node: HashedNodeWithEntries<T>,
)
    requires
        hashed.is_hashed_form_of(tree),
        0 <= k < hashed.nodes_spec().len(),
        node.kind_spec() == hashed.nodes_spec()[k].kind_spec(),
        node.hash_bytes() == hashed.nodes_spec()[k].hash_bytes(),
        node.inner_spec() == hashed.nodes_spec()[k].inner_spec(),
        node.entries_spec() == child_entries(tree_subtrees(tree)[k].children@),
    ensures
        node.bytes_spec() == tree_bytes(tree_subtrees(tree)[k]),
        node.hash_spec() == blake3_digest(node.bytes_spec()),
{
}

/// Tamper detection: a node whose canonical bytes are no longer those that its hash was taken
/// over fails to verify, unless the digests of the two byte strings collide.
pub proof fn lemma_tampered_node_fails<T: ObjectKindStr + WriteBytes>(
    node: HashedNodeWithEntries<T>,
    tampered: HashedNodeWithEntries<T>,
)
    requires
        node.hash_spec() == blake3_digest(node.bytes_spec()),
        tampered.hash_spec() == node.hash_spec(),
        blake3_digest(tampered.bytes_spec()) != blake3_digest(node.bytes_spec()),
    ensures
        tampered.hash_spec() != blake3_digest(tampered.bytes_spec()),
{
}

/// The name holds no space and no line feed, so that it stands in an entry line as it is.
pub open spec fn name_fits_in_line(name: Seq<char>) -> bool {
    &&& !vstd::utf8::encode_utf8(name).contains(crate::codec::SPACE)
    &&& !vstd::utf8::encode_utf8(name).contains(crate::codec::LINE_FEED)
}

/// Tamper detection for the payload: a node that verifies no longer does when the bytes of
/// its payload are changed in their place, unless the digest fails to tell the canonical
/// bytes before from those after. `verify_hash` then fails with the stored hash and another.
pub proof fn lemma_tampered_payload_fails<T: ObjectKindStr + WriteBytes>(
    node: HashedNodeWithEntries<T>,
    tampered: HashedNodeWithEntries<T>,
)
    requires
        node.hash_spec() == blake3_digest(node.bytes_spec()),
        tampered.hash_spec() == node.hash_spec(),
        tampered.kind_spec() == node.kind_spec(),
        tampered.entries_spec() == node.entries_spec(),
        tampered.inner_spec().object_kind_spec() == node.inner_spec().object_kind_spec(),
        tampered.inner_spec().bytes_spec().len() == node.inner_spec().bytes_spec().len(),
        tampered.inner_spec().bytes_spec() != node.inner_spec().bytes_spec(),
        tampered.bytes_spec() != node.bytes_spec() ==> blake3_digest(tampered.bytes_spec())
            != blake3_digest(node.bytes_spec()),
    ensures
        tampered.bytes_spec() != node.bytes_spec(),
        tampered.hash_spec() != blake3_digest(tampered.bytes_spec()),
{
    lemma_payload_change_changes_bytes(
        node.kind_spec(),
        node.inner_spec().object_kind_spec(),
        node.inner_spec().bytes_spec(),
        tampered.inner_spec().bytes_spec(),
        node.entries_spec(),
    );
}

/// Tamper detection for the entries: a tree node that verifies no longer does when the kind,
/// the hash or the name of one of its entries is changed, unless the digest fails to tell
/// the canonical bytes before from those after. `verify_hash` then fails with the stored
/// hash and another. The names are such as stand in an entry line: without space and line
/// feed.
pub proof fn lemma_tampered_entry_fails<T: ObjectKindStr + WriteBytes>(
    node: HashedNodeWithEntries<T>,
    tampered: HashedNodeWithEntries<T>,
    at: int,
)
    requires
        node.kind_spec() == NodeKind::Tree,
        node.hash_spec() == blake3_digest(node.bytes_spec()),
        tampered.hash_spec() == node.hash_spec(),
        tampered.kind_spec() == node.kind_spec(),
        tampered.inner_spec() == node.inner_spec(),
        0 <= at < node.entries_spec().len(),
        tampered.entries_spec().len() == node.entries_spec().len(),
        forall|i: int|
            0 <= i < node.entries_spec().len() && i != at ==> tampered.entries_spec()[i]
                == node.entries_spec()[i],
        tampered.entries_spec()[at] != node.entries_spec()[at],
        forall|i: int|
            0 <= i < node.entries_spec().len() ==> name_fits_in_line(
                (#[trigger] node.entries_spec()[i]).name,
            ),
        name_fits_in_line(tampered.entries_spec()[at].name),
        tampered.bytes_spec() != node.bytes_spec() ==> blake3_digest(tampered.bytes_spec())
            != blake3_digest(node.bytes_spec()),
    ensures
        tampered.bytes_spec() != node.bytes_spec(),
        tampered.hash_spec() != blake3_digest(tampered.bytes_spec()),
{
    broadcast use vstd::multiset::group_multiset_axioms;

    let before = node.entries_spec();
    let after = tampered.entries_spec();
    node.lemma_entry_hashes();
    tampered.lemma_entry_hashes();
    assert(after =~= before.update(at, after[at]));
    vstd::seq_lib::to_multiset_update(before, at, after[at]);
    assert(before.to_multiset() != after.to_multiset()) by {
        let gone = before[at];
        assert(after.to_multiset().count(gone) == before.to_multiset().count(gone) - 1) by {
            vstd::seq_lib::to_multiset_contains(before, gone);
            assert(before.contains(gone));
        }
    }
    assert forall|i: int| 0 <= i < after.len() implies entry_fits_in_line(
        #[trigger] after[i],
    ) by {
        if i != at {
            assert(after[i] == before[i]);
        }
    }
    lemma_entries_change_changes_bytes(
        node.inner_spec().object_kind_spec(),
        node.inner_spec().bytes_spec(),
        before,
        after,
    );
}

/// Leaf and tree are told apart: the canonical bytes of a leaf are not those of any tree,
/// whatever the payloads and the entries are.
pub proof fn lemma_leaf_and_tree_bytes_differ(
    leaf_object_kind: Seq<char>,
    leaf_payload: Seq<u8>,
    leaf_entries: Seq<NodeEntryView>,
    tree_object_kind: Seq<char>,
    tree_payload: Seq<u8>,
    tree_entries: Seq<NodeEntryView>,
)
    ensures
        node_bytes(NodeKind::Leaf, leaf_object_kind, leaf_payload, leaf_entries) != node_bytes(
            NodeKind::Tree,
            tree_object_kind,
            tree_payload,
            tree_entries,
        ),
{
    let a = node_bytes(NodeKind::Leaf, leaf_object_kind, leaf_payload, leaf_entries);
    let b = node_bytes(NodeKind::Tree, tree_object_kind, tree_payload, tree_entries);
    lemma_plain_text("version"@);
    reveal_strlit("version");
    reveal_strlit("node_kind");
    reveal_strlit("1");
    reveal_strlit("leaf");
    reveal_strlit("tree");
    vstd::utf8::is_ascii_chars_encode_utf8("version"@);
    vstd::utf8::is_ascii_chars_encode_utf8("node_kind"@);
    vstd::utf8::is_ascii_chars_encode_utf8("1"@);
    vstd::utf8::is_ascii_chars_encode_utf8("leaf"@);
    vstd::utf8::is_ascii_chars_encode_utf8("tree"@);
    assert(a[20] == 108u8);
    assert(b[20] == 116u8);
}

/// A change of the payload that keeps its length changes the canonical bytes of the node.
pub proof fn lemma_payload_change_changes_bytes(
    kind: NodeKind,
    object_kind: Seq<char>,
    payload: Seq<u8>,
    tampered: Seq<u8>,
    entries: Seq<NodeEntryView>,
)
    requires
        payload.len() == tampered.len(),
        payload != tampered,
    ensures
        node_bytes(kind, object_kind, payload, entries) != node_bytes(
            kind,
            object_kind,
            tampered,
            entries,
        ),
{
    let head = header_bytes(kind, object_kind) + separator_line();
    let a = node_bytes(kind, object_kind, payload, entries);
    let b = node_bytes(kind, object_kind, tampered, entries);
    if a == b {
        assert(a.subrange(head.len() as int, head.len() as int + payload.len()) =~= payload);
        assert(b.subrange(head.len() as int, head.len() as int + payload.len()) =~= tampered);
    }
}

/// A change of the entries of a tree changes the canonical bytes of the node: the bytes of
/// two lists of entries are equal only if the lists hold the same entries.
pub proof fn lemma_entries_change_changes_bytes(
    object_kind: Seq<char>,
    payload: Seq<u8>,
    entries: Seq<NodeEntryView>,
    tampered: Seq<NodeEntryView>,
)
    requires
        forall|i: int| 0 <= i < entries.len() ==> entry_fits_in_line(#[trigger] entries[i]),
        forall|i: int| 0 <= i < tampered.len() ==> entry_fits_in_line(#[trigger] tampered[i]),
        entries.to_multiset() != tampered.to_multiset(),
    ensures
        node_bytes(NodeKind::Tree, object_kind, payload, entries) != node_bytes(
            NodeKind::Tree,
            object_kind,
            payload,
            tampered,
        ),
{
    let head = header_bytes(NodeKind::Tree, object_kind) + separator_line() + payload;
    let a = node_bytes(NodeKind::Tree, object_kind, payload, entries);
    let b = node_bytes(NodeKind::Tree, object_kind, payload, tampered);
    let block_a = entries_block(NodeKind::Tree, entries);
    let block_b = entries_block(NodeKind::Tree, tampered);
    crate::sorting::lemma_sort_entries(entries);
    crate::sorting::lemma_sort_entries(tampered);
    if a == b {
        assert(a.skip(head.len() as int) =~= block_a);
        assert(b.skip(head.len() as int) =~= block_b);
        if entries.len() > 0 && tampered.len() > 0 {
            let lines_a = entry_lines(sort_entries(entries));
            let lines_b = entry_lines(sort_entries(tampered));
            assert(block_a.skip(1) =~= lines_a);
            assert(block_b.skip(1) =~= lines_b);
            lemma_sorted_entries_fit(entries);
            lemma_sorted_entries_fit(tampered);
            lemma_read_entry_lines(sort_entries(entries));
            lemma_read_entry_lines(sort_entries(tampered));
            assert(sort_entries(entries) == sort_entries(tampered));
        } else if entries.len() == 0 && tampered.len() == 0 {
            assert(entries =~= tampered);
        } else {
            assert(block_a.len() != block_b.len());
        }
    }
}

/// No leaf of `tree` has children.
pub open spec fn leaves_are_childless<T>(tree: NodeWithChildren<T>) -> bool
    decreases tree,
{
    &&& tree.kind == NodeKind::Leaf ==> tree.children@.len() == 0
    &&& forall|i: int|
        0 <= i < tree.children@.len() ==> leaves_are_childless(#[trigger] tree.children@[i])
}

/// Where no leaf of the trees of a forest has children, none of its subtrees is a leaf with
/// children.
pub proof fn lemma_subtrees_childless<T>(forest: Seq<NodeWithChildren<T>>, k: int)
    requires
        forall|i: int| 0 <= i < forest.len() ==> leaves_are_childless(#[trigger] forest[i]),
        0 <= k < forest_size(forest),
    ensures
        subtrees(forest)[k].kind == NodeKind::Leaf ==> subtrees(forest)[k].children@.len() == 0,
    decreases forest,
{
    let kids = forest[0].children@;
    let rest = forest.drop_first();
    lemma_subtrees_len(kids);
    lemma_subtrees_len(rest);
    assert(leaves_are_childless(forest[0]));
    if k == 0 {
    } else if k - 1 < forest_size(kids) {
        lemma_subtrees_childless(kids, k - 1);
    } else {
        assert forall|i: int| 0 <= i < rest.len() implies leaves_are_childless(
            #[trigger] rest[i],
        ) by {
            assert(rest[i] == forest[i + 1]);
        }
        lemma_subtrees_childless(rest, k - 1 - forest_size(kids));
    }
}

/// One root: in a tree of hashed nodes no edge leads to the root, and exactly one edge leads
/// to each other node, from a node that stands before it.
pub proof fn lemma_one_root<T: NameStr + ObjectKindStr + WriteBytes>(
    hashed: ObjectTree<T>,
    tree: NodeWithChildren<T>,
)
    requires
        hashed.is_hashed_form_of(tree),
    ensures
        hashed.nodes_spec().len() >= 1,
        hashed.edges_spec().len() == hashed.nodes_spec().len() - 1,
        forall|e: int|
            0 <= e < hashed.edges_spec().len() ==> {
                let edge = #[trigger] hashed.edges_spec()[e];
                &&& edge.1 == e + 1
                &&& edge.1 != hashed.root_spec()
                &&& 0 <= edge.0 < edge.1
            },
{
    crate::layout::lemma_tree_edges(tree);
    lemma_subtrees_len(seq![tree]);
    crate::layout::lemma_single(tree, None, 0);
}

/// Leaves have no children: where no leaf of the tree that was hashed has children, no edge
/// leaves a leaf of the tree of hashed nodes.
pub proof fn lemma_leaves_have_no_children<T: NameStr + ObjectKindStr + WriteBytes>(
    hashed: ObjectTree<T>,
    tree: NodeWithChildren<T>,
    k: int,
)
    requires
        hashed.is_hashed_form_of(tree),
        leaves_are_childless(tree),
        0 <= k < hashed.nodes_spec().len(),
        hashed.nodes_spec()[k].kind_spec() == NodeKind::Leaf,
    ensures
        out_neighbors(hashed.edges_spec(), k).len() == 0,
{
    lemma_subtrees_len(seq![tree]);
    lemma_subtrees_childless(seq![tree], k);
    crate::layout::lemma_tree_children(tree, k);
}

} // verus!
