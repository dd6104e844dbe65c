//! The canonical order of tree entries: ascending by the bytes of the name.

use crate::tree_entry::TreeEntryView;
use vstd::prelude::*;
use vstd::seq_lib::{to_multiset_build, to_multiset_contains, to_multiset_insert};
use vstd::utf8::{encode_utf8, encode_utf8_decode_utf8};

verus! {

/// `a` comes no later than `b` in the lexicographic order of byte strings:
/// the first differing byte decides, and a proper beginning comes first.
pub open spec fn lex_le(a: Seq<u8>, b: Seq<u8>) -> bool
    decreases a.len(),
{
    if a.len() == 0 {
        true
    } else if b.len() == 0 {
        false
    } else if a[0] == b[0] {
        lex_le(a.drop_first(), b.drop_first())
    } else {
        a[0] < b[0]
    }
}

/// Of two byte strings one comes no later than the other.
pub proof fn lemma_lex_le_total(a: Seq<u8>, b: Seq<u8>)
    ensures
        lex_le(a, b) || lex_le(b, a),
    decreases a.len(),
{
    if a.len() > 0 && b.len() > 0 && a[0] == b[0] {
        lemma_lex_le_total(a.drop_first(), b.drop_first());
    }
}

/// Byte strings that come no later than each other are equal.
pub proof fn lemma_lex_le_antisymmetric(a: Seq<u8>, b: Seq<u8>)
    requires
        lex_le(a, b),
        lex_le(b, a),
    ensures
        a == b,
    decreases a.len(),
{
    if a.len() == 0 || b.len() == 0 {
        assert(a =~= b);
    } else {
        lemma_lex_le_antisymmetric(a.drop_first(), b.drop_first());
        assert(a =~= seq![a[0]] + a.drop_first());
        assert(b =~= seq![b[0]] + b.drop_first());
    }
}

/// The order is transitive.
pub proof fn lemma_lex_le_transitive(a: Seq<u8>, b: Seq<u8>, c: Seq<u8>)
    requires
        lex_le(a, b),
        lex_le(b, c),
    ensures
        lex_le(a, c),
    decreases a.len(),
{
    if a.len() > 0 && b.len() > 0 && c.len() > 0 && a[0] == b[0] && b[0] == c[0] {
        lemma_lex_le_transitive(a.drop_first(), b.drop_first(), c.drop_first());
    }
}

/// Whether `a` comes no later than `b` in lexicographic order.
pub fn bytes_le(a: &[u8], b: &[u8]) -> (le: bool)
    ensures
        le == lex_le(a@, b@),
{
    let mut i: usize = 0;
    proof {
        assert(a@.skip(0) =~= a@);
        assert(b@.skip(0) =~= b@);
    }
    while i < a.len() && i < b.len()
        invariant
            i <= a@.len(),
            i <= b@.len(),
            lex_le(a@, b@) == lex_le(a@.skip(i as int), b@.skip(i as int)),
        decreases a@.len() - i,
    {
        proof {
            assert(a@.skip(i as int).drop_first() =~= a@.skip(i + 1));
            assert(b@.skip(i as int).drop_first() =~= b@.skip(i + 1));
        }
        if a[i] != b[i] {
            return a[i] < b[i];
        }
        i = i + 1;
    }
    i == a.len()
}

/// The entry `a` comes no later than `b`: its name does, as UTF-8 bytes.
pub open spec fn name_le(a: TreeEntryView, b: TreeEntryView) -> bool {
    lex_le(encode_utf8(a.name), encode_utf8(b.name))
}

/// No entry stands before one that must come earlier.
pub open spec fn sorted_by_name(entries: Seq<TreeEntryView>) -> bool {
    forall|i: int, j: int| 0 <= i < j < entries.len() ==> name_le(entries[i], entries[j])
}

/// Where a further entry goes in a list in order: behind the last entry that
/// comes no later than it, so behind those of the same name.
pub open spec fn insertion_point(sorted: Seq<TreeEntryView>, entry: TreeEntryView) -> int
    decreases sorted.len(),
{
    if sorted.len() == 0 {
        0
    } else if name_le(sorted.last(), entry) {
        sorted.len() as int
    } else {
        insertion_point(sorted.drop_last(), entry)
    }
}

/// The entries in ascending order of name; entries of the same name keep the
/// order in which they were given.
pub open spec fn sort_entries(entries: Seq<TreeEntryView>) -> Seq<TreeEntryView>
    decreases entries.len(),
{
    if entries.len() == 0 {
        entries
    } else {
        let before = sort_entries(entries.drop_last());
        before.insert(insertion_point(before, entries.last()), entries.last())
    }
}

/// The insertion point is the one place with nothing at or behind it that
/// comes no later than the entry, and with such an entry just before it.
pub proof fn lemma_insertion_point(sorted: Seq<TreeEntryView>, entry: TreeEntryView, at: int)
    requires
        0 <= at <= sorted.len(),
        forall|j: int| at <= j < sorted.len() ==> !name_le(#[trigger] sorted[j], entry),
        at > 0 ==> name_le(sorted[at - 1], entry),
    ensures
        insertion_point(sorted, entry) == at,
    decreases sorted.len(),
{
    if sorted.len() == 0 {
    } else if at == sorted.len() {
    } else {
        assert(!name_le(sorted[sorted.len() - 1], entry));
        let init = sorted.drop_last();
        assert forall|j: int| at <= j < init.len() implies !name_le(#[trigger] init[j], entry) by {
            assert(init[j] == sorted[j]);
        }
        lemma_insertion_point(init, entry, at);
    }
}

/// The insertion point lies in range; what stands at or behind it comes
/// later than the entry, and what stands just before it does not.
pub proof fn lemma_insertion_point_bounds(sorted: Seq<TreeEntryView>, entry: TreeEntryView)
    ensures
        0 <= insertion_point(sorted, entry) <= sorted.len(),
        forall|j: int|
            insertion_point(sorted, entry) <= j < sorted.len() ==> !name_le(
                #[trigger] sorted[j],
                entry,
            ),
        insertion_point(sorted, entry) > 0 ==> name_le(
            sorted[insertion_point(sorted, entry) - 1],
            entry,
        ),
    decreases sorted.len(),
{
    if sorted.len() == 0 {
    } else if name_le(sorted.last(), entry) {
    } else {
        let init = sorted.drop_last();
        lemma_insertion_point_bounds(init, entry);
        let at = insertion_point(init, entry);
        assert forall|j: int| at <= j < sorted.len() implies !name_le(
            #[trigger] sorted[j],
            entry,
        ) by {
            if j < init.len() {
                assert(init[j] == sorted[j]);
            }
        }
        if at > 0 {
            assert(init[at - 1] == sorted[at - 1]);
        }
    }
}

/// Putting an entry at its insertion point keeps a list in order.
pub proof fn lemma_insert_keeps_order(sorted: Seq<TreeEntryView>, entry: TreeEntryView)
    requires
        sorted_by_name(sorted),
    ensures
        sorted_by_name(sorted.insert(insertion_point(sorted, entry), entry)),
{
    lemma_insertion_point_bounds(sorted, entry);
    let at = insertion_point(sorted, entry);
    let out = sorted.insert(at, entry);
    assert forall|i: int, j: int| 0 <= i < j < out.len() implies name_le(out[i], out[j]) by {
        if j < at {
            assert(out[i] == sorted[i] && out[j] == sorted[j]);
        } else if j == at {
            assert(out[i] == sorted[i]);
            if i < at - 1 {
                assert(name_le(sorted[i], sorted[at - 1]));
                lemma_lex_le_transitive(
                    encode_utf8(sorted[i].name),
                    encode_utf8(sorted[at - 1].name),
                    encode_utf8(entry.name),
                );
            }
        } else if i == at {
            assert(out[j] == sorted[j - 1]);
            assert(!name_le(sorted[j - 1], entry));
            lemma_lex_le_total(encode_utf8(sorted[j - 1].name), encode_utf8(entry.name));
        } else if i < at {
            assert(out[i] == sorted[i] && out[j] == sorted[j - 1]);
        } else {
            assert(out[i] == sorted[i - 1] && out[j] == sorted[j - 1]);
        }
    }
}

/// Sorting puts the entries in order and neither adds, drops nor repeats one.
pub proof fn lemma_sort_entries(entries: Seq<TreeEntryView>)
    ensures
        sorted_by_name(sort_entries(entries)),
        sort_entries(entries).to_multiset() == entries.to_multiset(),
        sort_entries(entries).len() == entries.len(),
    decreases entries.len(),
{
    if entries.len() == 0 {
    } else {
        let init = entries.drop_last();
        let before = sort_entries(init);
        lemma_sort_entries(init);
        lemma_insertion_point_bounds(before, entries.last());
        lemma_insert_keeps_order(before, entries.last());
        to_multiset_insert(before, insertion_point(before, entries.last()), entries.last());
        to_multiset_build(init, entries.last());
        assert(init.push(entries.last()) =~= entries);
    }
}

/// The entries of the given name, in the order in which they stand.
pub open spec fn named(entries: Seq<TreeEntryView>, name: Seq<char>) -> Seq<TreeEntryView> {
    entries.filter(|e: TreeEntryView| e.name == name)
}

/// Sorting is stable: the entries of one name stand in the sorted list in
/// the order in which they were given.
pub proof fn lemma_sort_entries_stable(entries: Seq<TreeEntryView>, name: Seq<char>)
    ensures
        named(sort_entries(entries), name) == named(entries, name),
    decreases entries.len(),
{
    let pred = |e: TreeEntryView| e.name == name;
    if entries.len() == 0 {
    } else {
        let init = entries.drop_last();
        let last = entries.last();
        let before = sort_entries(init);
        lemma_sort_entries_stable(init, name);
        lemma_sort_entries(init);
        lemma_insertion_point_bounds(before, last);
        let at = insertion_point(before, last);
        let front = before.take(at);
        let back = before.skip(at);
        assert(before =~= front + back);
        assert(before.insert(at, last) =~= front + seq![last] + back);
        Seq::filter_distributes_over_add(front, back, pred);
        Seq::filter_distributes_over_add(front, seq![last], pred);
        Seq::filter_distributes_over_add(front + seq![last], back, pred);
        Seq::filter_distributes_over_add(init, seq![last], pred);
        assert(init + seq![last] =~= entries);
        reveal(Seq::filter);
        assert(seq![last].drop_last() =~= Seq::<TreeEntryView>::empty());
        if last.name == name {
            assert(seq![last].filter(pred) =~= seq![last]);
            assert(back.filter(pred) =~= Seq::<TreeEntryView>::empty()) by {
                lemma_lex_le_total(encode_utf8(name), encode_utf8(name));
                assert forall|k: int| 0 <= k < back.len() implies !pred(#[trigger] back[k]) by {
                    assert(back[k] == before[at + k]);
                    assert(!name_le(before[at + k], last));
                }
                back.lemma_all_neg_filter_empty(pred);
            }
            assert(named(sort_entries(entries), name) =~= named(entries, name));
        } else {
            assert(seq![last].filter(pred) =~= Seq::<TreeEntryView>::empty());
            assert(named(sort_entries(entries), name) =~= named(entries, name));
        }
    }
}

/// Every entry of the sorted list is one of the given entries.
pub proof fn lemma_sort_entries_members(entries: Seq<TreeEntryView>, i: int)
    requires
        0 <= i < entries.len(),
    ensures
        entries.contains(sort_entries(entries)[i]),
        sort_entries(entries).contains(entries[i]),
{
    lemma_sort_entries(entries);
    let sorted = sort_entries(entries);
    assert(sorted.contains(sorted[i]));
    to_multiset_contains(sorted, sorted[i]);
    to_multiset_contains(entries, sorted[i]);
    assert(entries.contains(entries[i]));
    to_multiset_contains(sorted, entries[i]);
    to_multiset_contains(entries, entries[i]);
}

/// Entries of one name are one entry: no name stands for two different children.
pub open spec fn names_identify(entries: Seq<TreeEntryView>) -> bool {
    forall|i: int, j: int|
        0 <= i < entries.len() && 0 <= j < entries.len() && (#[trigger] entries[i]).name == (
        #[trigger] entries[j]).name ==> entries[i] == entries[j]
}

/// Two lists in order that hold the same entries, none of them sharing its
/// name with a different one, are the same list.
pub proof fn lemma_sorted_unique(x: Seq<TreeEntryView>, y: Seq<TreeEntryView>)
    requires
        sorted_by_name(x),
        sorted_by_name(y),
        x.to_multiset() == y.to_multiset(),
        names_identify(x),
    ensures
        x == y,
    decreases x.len(),
{
    broadcast use vstd::multiset::group_multiset_axioms;
    broadcast use vstd::seq_lib::group_to_multiset_ensures;

    vstd::seq_lib::to_multiset_len(x);
    vstd::seq_lib::to_multiset_len(y);
    if x.len() == 0 {
        assert(x =~= y);
    } else {
        assert(x.contains(x[0]));
        assert(y.contains(y[0]));
        assert(y.to_multiset().count(x[0]) > 0);
        assert(x.to_multiset().count(y[0]) > 0);
        assert(y.contains(x[0]));
        assert(x.contains(y[0]));
        let i = choose|i: int| 0 <= i < x.len() && x[i] == y[0];
        let j = choose|j: int| 0 <= j < y.len() && y[j] == x[0];
        lemma_lex_le_total(encode_utf8(x[0].name), encode_utf8(x[0].name));
        lemma_lex_le_total(encode_utf8(y[0].name), encode_utf8(y[0].name));
        assert(name_le(x[0], x[i]));
        assert(name_le(y[0], y[j]));
        lemma_lex_le_antisymmetric(encode_utf8(x[0].name), encode_utf8(y[0].name));
        encode_utf8_decode_utf8(x[0].name);
        encode_utf8_decode_utf8(y[0].name);
        assert(x[0].name == y[0].name);
        assert(x[0] == y[0]);
        let xt = x.drop_first();
        let yt = y.drop_first();
        assert(xt =~= x.remove(0));
        assert(yt =~= y.remove(0));
        assert(xt.to_multiset() == yt.to_multiset());
        assert forall|a: int, b: int|
            0 <= a < xt.len() && 0 <= b < xt.len() && (#[trigger] xt[a]).name == (
            #[trigger] xt[b]).name implies xt[a] == xt[b] by {
            assert(xt[a] == x[a + 1] && xt[b] == x[b + 1]);
        }
        assert forall|a: int, b: int| 0 <= a < b < xt.len() implies name_le(xt[a], xt[b]) by {
            assert(xt[a] == x[a + 1] && xt[b] == x[b + 1]);
        }
        assert forall|a: int, b: int| 0 <= a < b < yt.len() implies name_le(yt[a], yt[b]) by {
            assert(yt[a] == y[a + 1] && yt[b] == y[b + 1]);
        }
        lemma_sorted_unique(xt, yt);
        assert(x =~= seq![x[0]] + xt);
        assert(y =~= seq![y[0]] + yt);
    }
}

/// The order of the sorted list does not depend on the order in which the
/// entries were given, where no name stands for two different entries.
pub proof fn lemma_sort_entries_order_independent(
    a: Seq<TreeEntryView>,
    b: Seq<TreeEntryView>,
)
    requires
        a.to_multiset() == b.to_multiset(),
        names_identify(a),
    ensures
        sort_entries(a) == sort_entries(b),
{
    lemma_sort_entries(a);
    lemma_sort_entries(b);
    let x = sort_entries(a);
    assert forall|i: int, j: int|
        0 <= i < x.len() && 0 <= j < x.len() && (#[trigger] x[i]).name == (#[trigger] x[j]).name
        implies x[i] == x[j] by {
        lemma_sort_entries_members(a, i);
        lemma_sort_entries_members(a, j);
        let p = choose|p: int| 0 <= p < a.len() && a[p] == x[i];
        let q = choose|q: int| 0 <= q < a.len() && a[q] == x[j];
        assert(a[p].name == a[q].name);
    }
    lemma_sorted_unique(x, sort_entries(b));
}

} // verus!
