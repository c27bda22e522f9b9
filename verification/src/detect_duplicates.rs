//! Finding the inputs that a table holds more than once.

use vstd::prelude::*;
use crate::build_roman_table::{records_of, RomanTableBuilder};
use crate::lines::{lines_of, split_lines};
use crate::romaji::{Romaji, RomajiView};
use crate::table::{inputs_of, lemma_filter_absent, lemma_inputs_distinct, with_input};
use crate::text::{find, lemma_find_is, lemma_find_properties};

verus! {

/// How many entries of a table have the given input.
pub open spec fn count_of(t: Seq<RomajiView>, input: Seq<char>) -> nat {
    t.filter(with_input(input)).len()
}

/// Whether the entry at `i` is the first with its input and not the only one.
pub open spec fn heads_duplicates(t: Seq<RomajiView>, i: int) -> bool {
    find(inputs_of(t), t[i].input) == i && count_of(t, t[i].input) >= 2
}

/// The report on the first `n` entries of `t`: for each of them that is the
/// first with its input, and whose input the whole table holds more than
/// once, the input and the number of entries that have it.
pub open spec fn duplicates_among(t: Seq<RomajiView>, n: int) -> Seq<(Seq<char>, usize)>
    decreases n,
{
    if n <= 0 {
        Seq::empty()
    } else if heads_duplicates(t, n - 1) {
        duplicates_among(t, n - 1).push((t[n - 1].input, count_of(t, t[n - 1].input) as usize))
    } else {
        duplicates_among(t, n - 1)
    }
}

/// The report on a table: every input that occurs more than once, with the
/// number of its occurrences, in the order in which the inputs first occur.
pub open spec fn duplicates_of(t: Seq<RomajiView>) -> Seq<(Seq<char>, usize)> {
    duplicates_among(t, t.len() as int)
}

/// Checks a table for inputs that occur more than once. It only reports;
/// whether a report that is not empty is a failure is for the caller to say.
pub struct DuplicateDetector {}

impl DuplicateDetector {
    /// How many of the entries have the given input.
    pub fn count(entries: &Vec<Romaji>, input: &String) -> (n: usize)
        ensures
            n == count_of(entries.deep_view(), input@),
    {
        let ghost t = entries.deep_view();
        let ghost f = with_input(input@);
        let mut n: usize = 0;
        let mut i: usize = 0;
        proof {
            assert(t.take(0) == Seq::<RomajiView>::empty());
            lemma_filter_absent(t.take(0), f);
        }
        while i < entries.len()
            invariant
                0 <= i <= entries.len(),
                t == entries.deep_view(),
                f == with_input(input@),
                n == t.take(i as int).filter(f).len(),
                n <= i,
            decreases entries.len() - i,
        {
            proof {
                assert(t.take(i + 1) == t.take(i as int).push(t[i as int]));
                t.take(i as int).lemma_filter_push(t[i as int], f);
                assert(t[i as int] == entries[i as int]@);
            }
            if entries[i].input == *input {
                n += 1;
            }
            i += 1;
        }
        assert(t.take(entries.len() as int) == t);
        n
    }

    /// Reports the inputs that the entries hold more than once.
    pub fn detect_in(entries: &Vec<Romaji>) -> (report: Vec<(String, usize)>)
        ensures
            report.deep_view() == duplicates_of(entries.deep_view()),
    {
        let ghost t = entries.deep_view();
        let mut report: Vec<(String, usize)> = Vec::new();
        let mut i: usize = 0;
        assert(report.deep_view() == Seq::<(Seq<char>, usize)>::empty());
        while i < entries.len()
            invariant
                0 <= i <= entries.len(),
                t == entries.deep_view(),
                report.deep_view() == duplicates_among(t, i as int),
            decreases entries.len() - i,
        {
            let ghost before = report.deep_view();
            let input = &entries[i].input;
            assert(t[i as int] == entries[i as int]@);
            let mut j: usize = 0;
            while j < i && entries[j].input != *input
                invariant
                    0 <= j <= i < entries.len(),
                    t == entries.deep_view(),
                    input@ == t[i as int].input,
                    forall|k: int| 0 <= k < j ==> inputs_of(t)[k] != input@,
                decreases i - j,
            {
                assert(t[j as int] == entries[j as int]@);
                j += 1;
            }
            proof {
                assert(j < i ==> t[j as int] == entries[j as int]@);
                lemma_find_is(inputs_of(t), input@, j as int);
            }
            if j == i {
                let n = Self::count(entries, input);
                if n >= 2 {
                    let pair = (input.clone(), n);
                    report.push(pair);
                    assert(report.deep_view() == before.push((input@, n)));
                }
            }
            i += 1;
        }
        report
    }

    /// Reports the inputs that the text of a table holds more than once.
    /// Lines that hold no entry are passed over.
    pub fn detect(table: &str) -> (report: Vec<(String, usize)>)
        ensures
            report.deep_view() == duplicates_of(records_of(lines_of(table@))),
    {
        let entries = RomanTableBuilder::to_romaji(split_lines(table));
        Self::detect_in(&entries)
    }
}

/// Where the input reported at `k` first occurs in the table.
pub open spec fn first_place(t: Seq<RomajiView>, report: Seq<(Seq<char>, usize)>, k: int) -> int {
    find(inputs_of(t), report[k].0)
}

/// The shape of the report on the first `n` entries: each line of it names
/// an input that first occurs among them and that the table holds more than
/// once, with its count; the lines stand in the order of these first
/// occurrences; and no such input is left out.
proof fn lemma_report_shape(t: Seq<RomajiView>, n: int)
    requires
        0 <= n <= t.len() <= usize::MAX,
    ensures
        forall|k: int|
            0 <= k < duplicates_among(t, n).len() ==> {
                let i = #[trigger] first_place(t, duplicates_among(t, n), k);
                &&& 0 <= i < n
                &&& t[i].input == duplicates_among(t, n)[k].0
                &&& duplicates_among(t, n)[k].1 == count_of(t, t[i].input)
                &&& count_of(t, t[i].input) >= 2
            },
        forall|a: int, b: int|
            0 <= a < b < duplicates_among(t, n).len() ==> #[trigger] first_place(
                t,
                duplicates_among(t, n),
                a,
            ) < #[trigger] first_place(t, duplicates_among(t, n), b),
        forall|i: int|
            0 <= i < n && heads_duplicates(t, i) ==> exists|k: int|
                0 <= k < duplicates_among(t, n).len() && #[trigger] first_place(
                    t,
                    duplicates_among(t, n),
                    k,
                ) == i,
    decreases n,
{
    if n > 0 {
        lemma_report_shape(t, n - 1);
        let before = duplicates_among(t, n - 1);
        let now = duplicates_among(t, n);
        t.lemma_filter_len(with_input(t[n - 1].input));
        if heads_duplicates(t, n - 1) {
            assert forall|k: int| 0 <= k < now.len() implies {
                let i = #[trigger] first_place(t, now, k);
                &&& 0 <= i < n
                &&& t[i].input == now[k].0
                &&& now[k].1 == count_of(t, t[i].input)
                &&& count_of(t, t[i].input) >= 2
            } by {
                if k < before.len() {
                    assert(first_place(t, before, k) == first_place(t, now, k));
                }
            }
            assert forall|a: int, b: int| 0 <= a < b < now.len() implies #[trigger] first_place(
                t,
                now,
                a,
            ) < #[trigger] first_place(t, now, b) by {
                assert(first_place(t, before, a) == first_place(t, now, a));
                if b < before.len() {
                    assert(first_place(t, before, b) == first_place(t, now, b));
                }
            }
            assert forall|i: int| 0 <= i < n && heads_duplicates(t, i) implies exists|k: int|
                0 <= k < now.len() && #[trigger] first_place(t, now, k) == i by {
                if i < n - 1 {
                    let k = choose|k: int|
                        0 <= k < before.len() && #[trigger] first_place(t, before, k) == i;
                    assert(first_place(t, now, k) == i);
                } else {
                    assert(first_place(t, now, before.len() as int) == i);
                }
            }
        } else {
            assert(now == before);
        }
    }
}

/// An input is reported exactly when the table holds it more than once, and
/// then with the number of entries that have it.
pub proof fn lemma_reported_iff_repeated(t: Seq<RomajiView>, input: Seq<char>)
    requires
        t.len() <= usize::MAX,
    ensures
        count_of(t, input) >= 2 <==> exists|k: int|
            0 <= k < duplicates_of(t).len() && #[trigger] duplicates_of(t)[k].0 == input,
        forall|k: int|
            0 <= k < duplicates_of(t).len() && #[trigger] duplicates_of(t)[k].0 == input
                ==> duplicates_of(t)[k].1 == count_of(t, input),
{
    let report = duplicates_of(t);
    let n = t.len() as int;
    lemma_report_shape(t, n);
    if count_of(t, input) >= 2 {
        lemma_find_properties(inputs_of(t), input);
        let i = find(inputs_of(t), input);
        if i >= n {
            assert forall|j: int| 0 <= j < t.len() implies !with_input(input)(t[j]) by {
                assert(inputs_of(t)[j] == t[j].input);
            }
            lemma_filter_absent(t, with_input(input));
        }
        assert(inputs_of(t)[i] == t[i].input);
        assert(heads_duplicates(t, i));
        let k = choose|k: int| 0 <= k < report.len() && #[trigger] first_place(t, report, k) == i;
        assert(first_place(t, report, k) == i);
        assert(report[k].0 == input);
    }
    assert forall|k: int| 0 <= k < report.len() && #[trigger] report[k].0 == input implies report[k].1
        == count_of(t, input) && count_of(t, input) >= 2 by {
        assert(first_place(t, report, k) == find(inputs_of(t), input));
    }
}

/// No input is reported twice, and the report follows the order in which the
/// inputs first occur in the table.
pub proof fn lemma_report_order(t: Seq<RomajiView>, a: int, b: int)
    requires
        t.len() <= usize::MAX,
        0 <= a < b < duplicates_of(t).len(),
    ensures
        duplicates_of(t)[a].0 != duplicates_of(t)[b].0,
        find(inputs_of(t), duplicates_of(t)[a].0) < find(inputs_of(t), duplicates_of(t)[b].0),
{
    lemma_report_shape(t, t.len() as int);
    assert(first_place(t, duplicates_of(t), a) < first_place(t, duplicates_of(t), b));
}

/// A table without two entries of the same input holds each input at most once.
proof fn lemma_distinct_inputs_count(t: Seq<RomajiView>, input: Seq<char>)
    requires
        inputs_of(t).no_duplicates(),
    ensures
        count_of(t, input) <= 1,
    decreases t.len(),
{
    let f = with_input(input);
    if t.len() == 0 {
        lemma_filter_absent(t, f);
    } else {
        let init = t.drop_last();
        let x = t.last();
        assert(t == init.push(x));
        init.lemma_filter_push(x, f);
        assert forall|i: int, j: int|
            0 <= i < init.len() && 0 <= j < init.len() && i != j implies inputs_of(init)[i]
            != inputs_of(init)[j] by {
            assert(inputs_of(t)[i] == inputs_of(init)[i]);
            assert(inputs_of(t)[j] == inputs_of(init)[j]);
        }
        lemma_distinct_inputs_count(init, input);
        if x.input == input {
            assert forall|j: int| 0 <= j < init.len() implies !f(init[j]) by {
                assert(inputs_of(t)[j] == init[j].input);
                assert(inputs_of(t)[t.len() - 1] == x.input);
            }
            lemma_filter_absent(init, f);
        }
    }
}

/// The report is empty exactly when no two entries of the table have the same
/// input.
pub proof fn lemma_report_empty_iff_distinct(t: Seq<RomajiView>)
    requires
        t.len() <= usize::MAX,
    ensures
        duplicates_of(t).len() == 0 <==> inputs_of(t).no_duplicates(),
{
    let report = duplicates_of(t);
    if report.len() == 0 {
        assert forall|input: Seq<char>| #[trigger] t.filter(with_input(input)).len() <= 1 by {
            lemma_reported_iff_repeated(t, input);
        }
        lemma_inputs_distinct(t);
    }
    if inputs_of(t).no_duplicates() && report.len() > 0 {
        lemma_reported_iff_repeated(t, report[0].0);
        lemma_distinct_inputs_count(t, report[0].0);
    }
}

} // verus!
