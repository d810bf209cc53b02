//! What sorting the entries of a node gives: the same entries, in the order of their names,
//! and one order for every order in which entries of distinct names are given.

use vstd::prelude::*;
use vstd::utf8::encode_utf8;
use crate::entry::{insert_entry, name_le, sort_entries, NodeEntryView};
use crate::text::lemma_lex_le_order;

verus! {

/// The names of `entries` do not descend.
pub open spec fn sorted_by_name(entries: Seq<NodeEntryView>) -> bool {
    forall|i: int, j: int|
        0 <= i < j < entries.len() ==> name_le(#[trigger] entries[i], #[trigger] entries[j])
}

/// No two of `entries` have one name.
pub open spec fn distinct_names(entries: Seq<NodeEntryView>) -> bool {
    forall|i: int, j: int|
        0 <= i < j < entries.len() ==> (#[trigger] entries[i]).name != (#[trigger] entries[j]).name
}

/// Names that compare both ways are one name.
pub proof fn lemma_name_le_antisymmetric(a: NodeEntryView, b: NodeEntryView)
    requires
        name_le(a, b),
        name_le(b, a),
    ensures
        a.name == b.name,
{
    lemma_lex_le_order(encode_utf8(a.name), encode_utf8(b.name), encode_utf8(b.name));
    vstd::utf8::encode_utf8_decode_utf8(a.name);
    vstd::utf8::encode_utf8_decode_utf8(b.name);
}

/// Inserting an entry into sorted entries leaves them sorted, and adds that entry to them.
pub proof fn lemma_insert_entry(sorted: Seq<NodeEntryView>, entry: NodeEntryView)
    requires
        sorted_by_name(sorted),
    ensures
        sorted_by_name(insert_entry(sorted, entry)),
        insert_entry(sorted, entry).len() == sorted.len() + 1,
        insert_entry(sorted, entry).to_multiset() == sorted.to_multiset().insert(entry),
    decreases sorted.len(),
{
    broadcast use vstd::seq_lib::group_to_multiset_ensures;

    let out = insert_entry(sorted, entry);
    if sorted.len() == 0 || name_le(sorted.last(), entry) {
        assert forall|i: int, j: int| 0 <= i < j < out.len() implies name_le(
            #[trigger] out[i],
            #[trigger] out[j],
        ) by {
            if j == sorted.len() && i < sorted.len() - 1 {
                lemma_lex_le_order(
                    encode_utf8(sorted[i].name),
                    encode_utf8(sorted.last().name),
                    encode_utf8(entry.name),
                );
            }
        }
    } else {
        let rest = sorted.drop_last();
        let last = sorted.last();
        lemma_insert_entry(rest, entry);
        let inner = insert_entry(rest, entry);
        lemma_lex_le_order(encode_utf8(last.name), encode_utf8(entry.name), encode_utf8(entry.name));
        assert(name_le(entry, last));
        assert forall|i: int| 0 <= i < inner.len() implies name_le(#[trigger] inner[i], last) by {
            assert(inner.to_multiset().contains(inner[i]));
            if inner[i] != entry {
                assert(rest.to_multiset().contains(inner[i]));
                let k = choose|k: int| 0 <= k < rest.len() && rest[k] == inner[i];
                assert(rest[k] == sorted[k]);
            }
        }
        assert(sorted =~= rest.push(last));
        assert(out.to_multiset() =~= sorted.to_multiset().insert(entry));
    }
}

/// Sorting gives the same entries, sorted by name.
pub proof fn lemma_sort_entries(entries: Seq<NodeEntryView>)
    ensures
        sorted_by_name(sort_entries(entries)),
        sort_entries(entries).len() == entries.len(),
        sort_entries(entries).to_multiset() == entries.to_multiset(),
    decreases entries.len(),
{
    broadcast use vstd::seq_lib::group_to_multiset_ensures;

    if entries.len() > 0 {
        lemma_sort_entries(entries.drop_last());
        lemma_insert_entry(sort_entries(entries.drop_last()), entries.last());
        assert(entries =~= entries.drop_last().push(entries.last()));
    }
}

/// Sorting leaves sorted entries as they are.
pub proof fn lemma_sort_of_sorted(entries: Seq<NodeEntryView>)
    requires
        sorted_by_name(entries),
    ensures
        sort_entries(entries) == entries,
    decreases entries.len(),
{
    if entries.len() > 0 {
        let rest = entries.drop_last();
        assert forall|i: int, j: int| 0 <= i < j < rest.len() implies name_le(
            #[trigger] rest[i],
            #[trigger] rest[j],
        ) by {
            assert(rest[i] == entries[i] && rest[j] == entries[j]);
        }
        lemma_sort_of_sorted(rest);
        if rest.len() > 0 {
            assert(rest.last() == entries[rest.len() - 1]);
            assert(name_le(rest.last(), entries.last()));
        }
        assert(rest.push(entries.last()) =~= entries);
    }
}

/// Sorting twice is sorting once.
pub proof fn lemma_sort_idempotent(entries: Seq<NodeEntryView>)
    ensures
        sort_entries(sort_entries(entries)) == sort_entries(entries),
{
    lemma_sort_entries(entries);
    lemma_sort_of_sorted(sort_entries(entries));
}

/// Two sorted sequences of the same entries, no two of one name, are equal.
pub proof fn lemma_sorted_unique(a: Seq<NodeEntryView>, b: Seq<NodeEntryView>)
    requires
        sorted_by_name(a),
        sorted_by_name(b),
        a.to_multiset() == b.to_multiset(),
        distinct_names(a),
    ensures
        a == b,
    decreases a.len(),
{
    broadcast use vstd::seq_lib::group_to_multiset_ensures;
    broadcast use vstd::multiset::group_multiset_axioms;

    assert(a.len() == b.len()) by {
        vstd::seq_lib::to_multiset_len(a);
        vstd::seq_lib::to_multiset_len(b);
    }
    if a.len() > 0 {
        let x = a.last();
        let y = b.last();
        assert(a.to_multiset().contains(y)) by {
            assert(b.to_multiset().contains(y));
        }
        assert(b.to_multiset().contains(x)) by {
            assert(a.to_multiset().contains(x));
        }
        let i = choose|i: int| 0 <= i < a.len() && a[i] == y;
        let j = choose|j: int| 0 <= j < b.len() && b[j] == x;
        assert(name_le(y, x)) by {
            if i < a.len() - 1 {
                assert(name_le(a[i], a[a.len() - 1]));
            } else {
                lemma_lex_le_order(encode_utf8(x.name), encode_utf8(x.name), encode_utf8(x.name));
            }
        }
        assert(name_le(x, y)) by {
            if j < b.len() - 1 {
                assert(name_le(b[j], b[b.len() - 1]));
            } else {
                lemma_lex_le_order(encode_utf8(y.name), encode_utf8(y.name), encode_utf8(y.name));
            }
        }
        lemma_name_le_antisymmetric(x, y);
        assert(x == y) by {
            if i < a.len() - 1 {
                assert(a[i].name != a[a.len() - 1].name);
            }
        }
        let ra = a.drop_last();
        let rb = b.drop_last();
        assert(a =~= ra.push(x));
        assert(b =~= rb.push(y));
        assert(ra.to_multiset() =~= a.to_multiset().remove(x));
        assert(rb.to_multiset() =~= b.to_multiset().remove(y));
        assert forall|p: int, q: int| 0 <= p < q < ra.len() implies name_le(
            #[trigger] ra[p],
            #[trigger] ra[q],
        ) && ra[p].name != ra[q].name by {
            assert(ra[p] == a[p] && ra[q] == a[q]);
        }
        assert forall|p: int, q: int| 0 <= p < q < rb.len() implies name_le(
            #[trigger] rb[p],
            #[trigger] rb[q],
        ) by {
            assert(rb[p] == b[p] && rb[q] == b[q]);
        }
        lemma_sorted_unique(ra, rb);
    }
}

/// Entries of distinct names are sorted into one order, whatever order they are given in.
pub proof fn lemma_sort_ignores_order(a: Seq<NodeEntryView>, b: Seq<NodeEntryView>)
    requires
        a.to_multiset() == b.to_multiset(),
        distinct_names(a),
    ensures
        sort_entries(a) == sort_entries(b),
{
    broadcast use vstd::seq_lib::group_to_multiset_ensures;

    lemma_sort_entries(a);
    lemma_sort_entries(b);
    let sa = sort_entries(a);
    assert forall|i: int, j: int| 0 <= i < j < sa.len() implies (#[trigger] sa[i]).name != (
    #[trigger] sa[j]).name by {
        lemma_distinct_names_multiset(a, sa, i, j);
    }
    lemma_sorted_unique(sa, sort_entries(b));
}

/// Among the same entries in another order, no two have one name either.
proof fn lemma_distinct_names_multiset(
    a: Seq<NodeEntryView>,
    b: Seq<NodeEntryView>,
    i: int,
    j: int,
)
    requires
        a.to_multiset() == b.to_multiset(),
        distinct_names(a),
        0 <= i < j < b.len(),
    ensures
        b[i].name != b[j].name,
{
    broadcast use vstd::seq_lib::group_to_multiset_ensures;
    broadcast use vstd::multiset::group_multiset_axioms;

    if b[i].name == b[j].name {
        assert(b.to_multiset().contains(b[i]));
        assert(b.to_multiset().contains(b[j]));
        let p = choose|p: int| 0 <= p < a.len() && a[p] == b[i];
        let q = choose|q: int| 0 <= q < a.len() && a[q] == b[j];
        if p != q {
            if p < q {
                assert(a[p].name != a[q].name);
            } else {
                assert(a[q].name != a[p].name);
            }
        } else {
            // One entry of `a` stands twice in `b`, so it stands twice in `a`.
            let e = b[i];
            assert(b[j] == e);
            assert(b.to_multiset().count(e) >= 2) by {
                let rest = b.remove(j);
                vstd::seq_lib::to_multiset_remove(b, j);
                assert(rest[i] == e);
                assert(rest.to_multiset().contains(e));
                assert(rest.to_multiset().count(e) >= 1);
            }
            assert(a.to_multiset().count(e) >= 2);
            let rest = a.remove(p);
            vstd::seq_lib::to_multiset_remove(a, p);
            assert(rest.to_multiset().count(e) >= 1);
            assert(rest.to_multiset().contains(e));
            let r = choose|r: int| 0 <= r < rest.len() && rest[r] == e;
            let r2 = if r < p {
                r
            } else {
                r + 1
            };
            assert(a[r2] == e);
            if r2 < p {
                assert(a[r2].name != a[p].name);
            } else {
                assert(a[p].name != a[r2].name);
            }
        }
    }
}

} // verus!
