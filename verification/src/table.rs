//! Tables as sequences of entries: their order, and what merging keeps.
//!
//! A table is sorted by the keys of its inputs. Sorting is stable: entries
//! with the same key stay in the order in which they stood. Both are stated
//! here without reference to any sorting procedure, and a table that meets
//! them is shown to be the only one that does.

use vstd::prelude::*;
use crate::order::{
    key_le, key_lt, key_of, lemma_key_le_antisymmetric, lemma_key_lt_asymmetric,
    lemma_key_lt_irreflexive,
};
use crate::romaji::RomajiView;
use crate::text::{find, lemma_find_properties};

verus! {

/// The key by which an entry is ordered.
pub open spec fn record_key(r: RomajiView) -> Seq<usize> {
    key_of(r.input)
}

/// The entries that have key `k`.
pub open spec fn with_key(k: Seq<usize>) -> spec_fn(RomajiView) -> bool {
    |r: RomajiView| record_key(r) == k
}

/// The entries that have the given input.
pub open spec fn with_input(input: Seq<char>) -> spec_fn(RomajiView) -> bool {
    |r: RomajiView| r.input == input
}

/// The inputs of a table, entry by entry.
pub open spec fn inputs_of(t: Seq<RomajiView>) -> Seq<Seq<char>> {
    Seq::new(t.len(), |i: int| t[i].input)
}

/// No entry comes after one with a greater key.
pub open spec fn is_sorted(t: Seq<RomajiView>) -> bool {
    forall|i: int, j: int|
        0 <= i < j < t.len() ==> key_le(#[trigger] record_key(t[i]), #[trigger] record_key(t[j]))
}

/// For every key, the two tables hold the same entries with that key, in the
/// same order.
pub open spec fn same_within_keys(a: Seq<RomajiView>, b: Seq<RomajiView>) -> bool {
    forall|k: Seq<usize>| #[trigger] a.filter(with_key(k)) == b.filter(with_key(k))
}

/// `t` holds the entries of `source` in the order of their keys, those with
/// the same key in the order in which `source` holds them.
pub open spec fn is_stable_sort_of(t: Seq<RomajiView>, source: Seq<RomajiView>) -> bool {
    is_sorted(t) && same_within_keys(t, source)
}

/// The table with `r` put in: in the place of the first entry that has the
/// input of `r`, or at the end if there is none.
pub open spec fn upsert(t: Seq<RomajiView>, r: RomajiView) -> Seq<RomajiView> {
    let i = find(inputs_of(t), r.input);
    if 0 <= i < t.len() {
        t.update(i, r)
    } else {
        t.push(r)
    }
}

/// The entries of `source` folded into a table from first to last, each
/// replacing the entry with the same input that is already there.
pub open spec fn merged(source: Seq<RomajiView>) -> Seq<RomajiView>
    decreases source.len(),
{
    if source.len() == 0 {
        Seq::empty()
    } else {
        upsert(merged(source.drop_last()), source.last())
    }
}

/// The last entry of `source` that has the given input.
pub open spec fn last_with_input(source: Seq<RomajiView>, input: Seq<char>) -> Option<RomajiView>
    decreases source.len(),
{
    if source.len() == 0 {
        None
    } else if source.last().input == input {
        Some(source.last())
    } else {
        last_with_input(source.drop_last(), input)
    }
}

/// No entry, or the one entry.
pub open spec fn at_most_one(r: Option<RomajiView>) -> Seq<RomajiView> {
    match r {
        Some(r) => seq![r],
        None => Seq::empty(),
    }
}

/// Nothing is selected from a sequence of which no element qualifies.
pub proof fn lemma_filter_absent<A>(s: Seq<A>, p: spec_fn(A) -> bool)
    requires
        forall|i: int| 0 <= i < s.len() ==> !p(s[i]),
    ensures
        s.filter(p) == Seq::<A>::empty(),
    decreases s.len(),
{
    reveal(Seq::filter);
    if s.len() > 0 {
        lemma_filter_absent(s.drop_last(), p);
    }
}

/// Selecting from a single element.
pub proof fn lemma_filter_single<A>(x: A, p: spec_fn(A) -> bool)
    ensures
        seq![x].filter(p) == if p(x) {
            seq![x]
        } else {
            Seq::<A>::empty()
        },
{
    let none = Seq::<A>::empty();
    lemma_filter_absent(none, p);
    none.lemma_filter_push(x, p);
    assert(seq![x] == none.push(x));
}

/// Selecting by `p` and then by `q` is selecting by `q`, where `q` holds only
/// of what `p` holds of.
pub proof fn lemma_filter_refines<A>(s: Seq<A>, p: spec_fn(A) -> bool, q: spec_fn(A) -> bool)
    requires
        forall|x: A| #[trigger] q(x) ==> p(x),
    ensures
        s.filter(p).filter(q) == s.filter(q),
    decreases s.len(),
{
    if s.len() == 0 {
        lemma_filter_absent(s, p);
        lemma_filter_absent(s, q);
        lemma_filter_absent(Seq::<A>::empty(), q);
    } else {
        let init = s.drop_last();
        let x = s.last();
        assert(s == init.push(x));
        init.lemma_filter_push(x, p);
        init.lemma_filter_push(x, q);
        lemma_filter_refines(init, p, q);
        if p(x) {
            init.filter(p).lemma_filter_push(x, q);
        }
    }
}

/// Tables that agree within every key agree within every input.
pub proof fn lemma_same_within_inputs(a: Seq<RomajiView>, b: Seq<RomajiView>, input: Seq<char>)
    requires
        same_within_keys(a, b),
    ensures
        a.filter(with_input(input)) == b.filter(with_input(input)),
{
    let k = key_of(input);
    lemma_filter_refines(a, with_key(k), with_input(input));
    lemma_filter_refines(b, with_key(k), with_input(input));
    assert(a.filter(with_key(k)) == b.filter(with_key(k)));
}

/// A stably sorted table holds an entry exactly when its source does.
pub proof fn lemma_stable_sort_holds_the_same(
    t: Seq<RomajiView>,
    source: Seq<RomajiView>,
    r: RomajiView,
)
    requires
        same_within_keys(t, source),
    ensures
        t.contains(r) <==> source.contains(r),
{
    let f = with_key(record_key(r));
    assert(t.filter(f) == source.filter(f));
    if t.contains(r) {
        let i = choose|i: int| 0 <= i < t.len() && t[i] == r;
        t.lemma_filter_contains(f, i);
        source.lemma_filter_contains_rev(f, r);
    }
    if source.contains(r) {
        let i = choose|i: int| 0 <= i < source.len() && source[i] == r;
        source.lemma_filter_contains(f, i);
        t.lemma_filter_contains_rev(f, r);
    }
}

/// A table holds at most one entry with a given input when no two of its
/// entries share an input, and the other way round.
pub proof fn lemma_inputs_distinct(t: Seq<RomajiView>)
    requires
        forall|input: Seq<char>| #[trigger] t.filter(with_input(input)).len() <= 1,
    ensures
        inputs_of(t).no_duplicates(),
{
    assert forall|i: int, j: int|
        0 <= i < t.len() && 0 <= j < t.len() && i != j implies inputs_of(t)[i] != inputs_of(
        t,
    )[j] by {
        if t[i].input == t[j].input {
            let (lo, hi) = if i < j { (i, j) } else { (j, i) };
            let f = with_input(t[hi].input);
            lemma_filter_around(t, hi, f);
            lemma_filter_single(t[hi], f);
            assert(t.take(hi)[lo] == t[lo]);
            t.take(hi).lemma_filter_contains(f, lo);
            assert(t.take(hi).filter(f).len() > 0);
            assert(t.filter(f).len() >= 2);
        }
    }
}

/// A stably sorted table holds every entry as often as its source does.
pub proof fn lemma_stable_sort_is_permutation(t: Seq<RomajiView>, source: Seq<RomajiView>)
    requires
        same_within_keys(t, source),
    ensures
        t.to_multiset() == source.to_multiset(),
        t.len() == source.len(),
{
    assert forall|r: RomajiView| t.to_multiset().count(r) == source.to_multiset().count(r) by {
        let f = with_key(record_key(r));
        lemma_count_within_key(t, r);
        lemma_count_within_key(source, r);
        assert(t.filter(f) == source.filter(f));
    }
    assert(t.to_multiset() =~= source.to_multiset());
    t.to_multiset_ensures();
    source.to_multiset_ensures();
}

/// An entry occurs in a table as often as among the entries that have its key.
proof fn lemma_count_within_key(t: Seq<RomajiView>, r: RomajiView)
    ensures
        t.to_multiset().count(r) == t.filter(with_key(record_key(r))).to_multiset().count(r),
    decreases t.len(),
{
    let f = with_key(record_key(r));
    if t.len() == 0 {
        lemma_filter_absent(t, f);
        assert(t =~= Seq::<RomajiView>::empty());
    } else {
        let init = t.drop_last();
        let x = t.last();
        assert(t == init.push(x));
        lemma_count_within_key(init, r);
        init.lemma_filter_push(x, f);
        init.to_multiset_ensures();
        init.filter(f).to_multiset_ensures();
    }
}

/// A sorted table stays the stable sort of its source when an entry is added
/// to the source and put into the table behind every entry that does not come
/// after it.
pub proof fn lemma_insert_keeps_stable_sort(
    t: Seq<RomajiView>,
    source: Seq<RomajiView>,
    r: RomajiView,
    p: int,
)
    requires
        is_stable_sort_of(t, source),
        0 <= p <= t.len(),
        forall|q: int| 0 <= q < p ==> key_le(record_key(#[trigger] t[q]), record_key(r)),
        forall|q: int| p <= q < t.len() ==> key_lt(record_key(r), record_key(#[trigger] t[q])),
    ensures
        is_stable_sort_of(t.insert(p, r), source.push(r)),
{
    let t2 = t.insert(p, r);
    let k = record_key(r);
    t.insert_ensures(p, r);
    assert forall|i: int, j: int| 0 <= i < j < t2.len() implies key_le(
        #[trigger] record_key(t2[i]),
        #[trigger] record_key(t2[j]),
    ) by {
        let a = if i < p { t[i] } else if i == p { r } else { t[i - 1] };
        let b = if j < p { t[j] } else if j == p { r } else { t[j - 1] };
        assert(t2[i] == a);
        assert(t2[j] == b);
        if j == p {
            assert(key_le(record_key(t[i]), k));
        } else if i == p {
            assert(key_lt(k, record_key(t[j - 1])));
            lemma_key_lt_asymmetric(k, record_key(t[j - 1]));
        } else if i < p && j > p {
            assert(key_le(record_key(t[i]), record_key(t[j - 1])));
        } else if i < p {
            assert(key_le(record_key(t[i]), record_key(t[j])));
        } else {
            assert(key_le(record_key(t[i - 1]), record_key(t[j - 1])));
        }
    }
    assert forall|kk: Seq<usize>| #[trigger]
        t2.filter(with_key(kk)) == source.push(r).filter(with_key(kk)) by {
        let f = with_key(kk);
        let left = t.take(p);
        let right = t.skip(p);
        assert(t == left + right);
        assert(t2 == left.push(r) + right);
        Seq::filter_distributes_over_add(left, right, f);
        Seq::filter_distributes_over_add(left.push(r), right, f);
        left.lemma_filter_push(r, f);
        source.lemma_filter_push(r, f);
        assert(t.filter(f) == source.filter(f));
        if kk == k {
            assert forall|i: int| 0 <= i < right.len() implies !f(right[i]) by {
                assert(right[i] == t[p + i]);
                lemma_key_lt_irreflexive(k);
            }
            lemma_filter_absent(right, f);
        }
    }
}

/// Two sorted tables that agree within every key are the same table.
pub proof fn lemma_sorted_and_same_within_keys(a: Seq<RomajiView>, b: Seq<RomajiView>)
    requires
        is_sorted(a),
        is_sorted(b),
        same_within_keys(a, b),
    ensures
        a == b,
    decreases a.len(),
{
    if a.len() == 0 || b.len() == 0 {
        if a.len() > 0 {
            let f = with_key(record_key(a[0]));
            a.lemma_filter_contains(f, 0);
            lemma_filter_absent(b, f);
            assert(a.filter(f) == b.filter(f));
        }
        if b.len() > 0 {
            let f = with_key(record_key(b[0]));
            b.lemma_filter_contains(f, 0);
            lemma_filter_absent(a, f);
            assert(a.filter(f) == b.filter(f));
        }
        assert(a =~= b);
    } else {
        let ka = record_key(a[0]);
        let kb = record_key(b[0]);
        let a1 = a.drop_first();
        let b1 = b.drop_first();
        assert(a == seq![a[0]] + a1);
        assert(b == seq![b[0]] + b1);
        // The first keys are the same key: each occurs in the other table, behind its first entry.
        assert(key_le(kb, ka)) by {
            let f = with_key(ka);
            a.lemma_filter_contains(f, 0);
            assert(a.filter(f) == b.filter(f));
            b.lemma_filter_contains_rev(f, a[0]);
            let j = choose|j: int| 0 <= j < b.len() && b[j] == a[0];
            if j == 0 {
                lemma_key_lt_irreflexive(ka);
            } else {
                assert(key_le(record_key(b[0]), record_key(b[j])));
            }
        }
        assert(key_le(ka, kb)) by {
            let f = with_key(kb);
            b.lemma_filter_contains(f, 0);
            assert(a.filter(f) == b.filter(f));
            a.lemma_filter_contains_rev(f, b[0]);
            let j = choose|j: int| 0 <= j < a.len() && a[j] == b[0];
            if j == 0 {
                lemma_key_lt_irreflexive(kb);
            } else {
                assert(key_le(record_key(a[0]), record_key(a[j])));
            }
        }
        lemma_key_le_antisymmetric(ka, kb);
        assert forall|k: Seq<usize>| #[trigger]
            a1.filter(with_key(k)) == b1.filter(with_key(k)) && (k == ka ==> a[0] == b[0]) by {
            let f = with_key(k);
            Seq::filter_distributes_over_add(seq![a[0]], a1, f);
            Seq::filter_distributes_over_add(seq![b[0]], b1, f);
            lemma_filter_single(a[0], f);
            lemma_filter_single(b[0], f);
            assert(a.filter(f) == b.filter(f));
            if k == ka {
                let fa = seq![a[0]] + a1.filter(f);
                let fb = seq![b[0]] + b1.filter(f);
                assert(fa[0] == fb[0]);
                assert(fa.drop_first() == a1.filter(f));
                assert(fb.drop_first() == b1.filter(f));
            } else {
                assert(Seq::<RomajiView>::empty() + a1.filter(f) == a1.filter(f));
                assert(Seq::<RomajiView>::empty() + b1.filter(f) == b1.filter(f));
            }
        }
        assert(a1.filter(with_key(ka)) == b1.filter(with_key(ka)) && a[0] == b[0]);
        assert(is_sorted(a1)) by {
            assert forall|i: int, j: int| 0 <= i < j < a1.len() implies key_le(
                #[trigger] record_key(a1[i]),
                #[trigger] record_key(a1[j]),
            ) by {
                assert(key_le(record_key(a[i + 1]), record_key(a[j + 1])));
            }
        }
        assert(is_sorted(b1)) by {
            assert forall|i: int, j: int| 0 <= i < j < b1.len() implies key_le(
                #[trigger] record_key(b1[i]),
                #[trigger] record_key(b1[j]),
            ) by {
                assert(key_le(record_key(b[i + 1]), record_key(b[j + 1])));
            }
        }
        lemma_sorted_and_same_within_keys(a1, b1);
    }
}

/// A source has one stable sort: two tables that are stable sorts of the same
/// source are the same table.
pub proof fn lemma_stable_sort_is_unique(
    a: Seq<RomajiView>,
    b: Seq<RomajiView>,
    source: Seq<RomajiView>,
)
    requires
        is_stable_sort_of(a, source),
        is_stable_sort_of(b, source),
    ensures
        a == b,
{
    assert forall|k: Seq<usize>| #[trigger] a.filter(with_key(k)) == b.filter(with_key(k)) by {
        assert(a.filter(with_key(k)) == source.filter(with_key(k)));
        assert(b.filter(with_key(k)) == source.filter(with_key(k)));
    }
    lemma_sorted_and_same_within_keys(a, b);
}

/// Selecting from a sequence goes part by part: before an index, at it, and
/// behind it.
pub proof fn lemma_filter_around<A>(s: Seq<A>, i: int, p: spec_fn(A) -> bool)
    requires
        0 <= i < s.len(),
    ensures
        s.filter(p) == s.take(i).filter(p) + seq![s[i]].filter(p) + s.skip(i + 1).filter(p),
{
    let left = s.take(i);
    let right = s.skip(i + 1);
    assert(s == left + seq![s[i]] + right);
    Seq::filter_distributes_over_add(left + seq![s[i]], right, p);
    Seq::filter_distributes_over_add(left, seq![s[i]], p);
}

/// Replacing an entry by one with the same input in a table that holds a
/// single entry with this input leaves a single entry, the new one; entries
/// with another input are as they were.
proof fn lemma_replace(t: Seq<RomajiView>, i: int, r: RomajiView, input: Seq<char>)
    requires
        0 <= i < t.len(),
        t[i].input == r.input,
        t.filter(with_input(input)).len() <= 1,
    ensures
        t.update(i, r).filter(with_input(input)) == if r.input == input {
            seq![r]
        } else {
            t.filter(with_input(input))
        },
{
    let f = with_input(input);
    let t2 = t.update(i, r);
    lemma_filter_around(t, i, f);
    lemma_filter_around(t2, i, f);
    assert(t2.take(i) == t.take(i));
    assert(t2.skip(i + 1) == t.skip(i + 1));
    lemma_filter_single(t[i], f);
    lemma_filter_single(r, f);
}

/// For every input, the merged table holds the last entry of the source that
/// has this input, once, and no other entry with this input.
pub proof fn lemma_merged_holds_last(source: Seq<RomajiView>, input: Seq<char>)
    ensures
        merged(source).filter(with_input(input)) == at_most_one(last_with_input(source, input)),
    decreases source.len(),
{
    let f = with_input(input);
    if source.len() == 0 {
        lemma_filter_absent(merged(source), f);
    } else {
        let before = merged(source.drop_last());
        let r = source.last();
        lemma_merged_holds_last(source.drop_last(), input);
        lemma_find_properties(inputs_of(before), r.input);
        let i = find(inputs_of(before), r.input);
        if 0 <= i < before.len() {
            assert(inputs_of(before)[i] == before[i].input);
            lemma_replace(before, i, r, input);
        } else {
            before.lemma_filter_push(r, f);
            if r.input == input {
                assert forall|j: int| 0 <= j < before.len() implies !f(before[j]) by {
                    assert(inputs_of(before)[j] == before[j].input);
                }
                lemma_filter_absent(before, f);
            }
        }
    }
}

} // verus!
