//! Extending a table with emoji entries without touching what it holds.

use vstd::prelude::*;
use crate::build_roman_table::{records_of, RomanTableBuilder};
use crate::lines::{lines_of, split_lines};
use crate::romaji::{Romaji, RomajiView};
use crate::table::{
    inputs_of, is_stable_sort_of, lemma_filter_absent, lemma_filter_refines,
    lemma_same_within_inputs, lemma_stable_sort_is_unique, with_input,
};

verus! {

/// The entries whose input the base table does not hold.
pub open spec fn new_to(base: Seq<RomajiView>) -> spec_fn(RomajiView) -> bool {
    |r: RomajiView| !inputs_of(base).contains(r.input)
}

/// The base table followed by the emoji entries that do not collide with it.
pub open spec fn augmented(base: Seq<RomajiView>, emoji: Seq<RomajiView>) -> Seq<RomajiView> {
    base + emoji.filter(new_to(base))
}

/// `table` is the base table extended by the emoji entries: every base entry,
/// and every emoji entry whose input no base entry has, in the stable order
/// of their keys.
pub open spec fn is_augmentation(
    base: Seq<RomajiView>,
    emoji: Seq<RomajiView>,
    table: Seq<RomajiView>,
) -> bool {
    is_stable_sort_of(table, augmented(base, emoji))
}

/// Extends a finished table by emoji entries that come from elsewhere.
/// Fetching the entries and writing the result are left to the caller.
pub struct WithEmojiBuilder {}

impl WithEmojiBuilder {
    /// Whether one of the entries has the given input.
    pub fn holds_input(entries: &Vec<Romaji>, input: &String) -> (found: bool)
        ensures
            found == inputs_of(entries.deep_view()).contains(input@),
    {
        let ghost inputs = inputs_of(entries.deep_view());
        let mut i: usize = 0;
        while i < entries.len()
            invariant
                0 <= i <= entries.len(),
                inputs == inputs_of(entries.deep_view()),
                forall|k: int| 0 <= k < i ==> inputs[k] != input@,
            decreases entries.len() - i,
        {
            assert(inputs[i as int] == entries[i as int]@.input);
            if entries[i].input == *input {
                return true;
            }
            i += 1;
        }
        false
    }

    /// Extends the base entries by the emoji entries. An emoji entry whose
    /// input a base entry has is dropped; the base entries all stay.
    pub fn merge_records(base: Vec<Romaji>, emoji: Vec<Romaji>) -> (table: Vec<Romaji>)
        ensures
            is_augmentation(base.deep_view(), emoji.deep_view(), table.deep_view()),
    {
        let ghost base_view = base.deep_view();
        let ghost all = emoji.deep_view();
        let ghost source = emoji@;
        let ghost f = new_to(base_view);
        let mut kept: Vec<Romaji> = Vec::new();
        proof {
            assert(all.take(0) == Seq::<RomajiView>::empty());
            assert(kept.deep_view() == Seq::<RomajiView>::empty());
            lemma_filter_absent(all.take(0), f);
        }
        for entry in it: emoji
            invariant
                it.seq() == source,
                all.len() == source.len(),
                forall|i: int| 0 <= i < source.len() ==> all[i] == source[i]@,
                base_view == base.deep_view(),
                f == new_to(base_view),
                kept.deep_view() == all.take(it.index() as int).filter(f),
        {
            let ghost before = kept.deep_view();
            let ghost n = it.index() as int;
            proof {
                all.take(n).lemma_filter_push(entry@, f);
                assert(all.take(n + 1) == all.take(n).push(entry@));
            }
            if !Self::holds_input(&base, &entry.input) {
                kept.push(entry);
                assert(kept.deep_view() == before.push(entry@));
            }
        }
        assert(all.take(all.len() as int) == all);
        let mut joint = base;
        let ghost kept_view = kept.deep_view();
        joint.append(&mut kept);
        assert(joint.deep_view() == base_view + kept_view);
        RomanTableBuilder::sort_romaji(joint)
    }

    /// Extends the table of the given text by the emoji entries. Lines of the
    /// text that hold no entry are passed over.
    pub fn merge(base_table: &str, emoji: Vec<Romaji>) -> (table: Vec<Romaji>)
        ensures
            is_augmentation(
                records_of(lines_of(base_table@)),
                emoji.deep_view(),
                table.deep_view(),
            ),
    {
        let base = RomanTableBuilder::to_romaji(split_lines(base_table));
        Self::merge_records(base, emoji)
    }
}

/// The base table wins: for an input that it holds, the extended table holds
/// its entries with this input and no emoji entry; for any other input, the
/// extended table holds the emoji entries with this input.
pub proof fn lemma_base_wins(
    base: Seq<RomajiView>,
    emoji: Seq<RomajiView>,
    table: Seq<RomajiView>,
    input: Seq<char>,
)
    requires
        is_augmentation(base, emoji, table),
    ensures
        table.filter(with_input(input)) == if inputs_of(base).contains(input) {
            base.filter(with_input(input))
        } else {
            emoji.filter(with_input(input))
        },
{
    let f = with_input(input);
    let fresh = emoji.filter(new_to(base));
    lemma_same_within_inputs(table, augmented(base, emoji), input);
    Seq::filter_distributes_over_add(base, fresh, f);
    if inputs_of(base).contains(input) {
        assert forall|i: int| 0 <= i < fresh.len() implies !f(fresh[i]) by {
            emoji.lemma_filter_pred(new_to(base), i);
        }
        lemma_filter_absent(fresh, f);
        assert(base.filter(f) + Seq::<RomajiView>::empty() == base.filter(f));
    } else {
        assert forall|i: int| 0 <= i < base.len() implies !f(base[i]) by {
            assert(inputs_of(base)[i] == base[i].input);
        }
        lemma_filter_absent(base, f);
        lemma_filter_refines(emoji, new_to(base), f);
        assert(Seq::<RomajiView>::empty() + fresh.filter(f) == fresh.filter(f));
    }
}

/// Extending is a function of the two tables: two extensions of the same
/// base by the same emoji entries are the same table.
pub proof fn lemma_augmentation_is_unique(
    base: Seq<RomajiView>,
    emoji: Seq<RomajiView>,
    a: Seq<RomajiView>,
    b: Seq<RomajiView>,
)
    requires
        is_augmentation(base, emoji, a),
        is_augmentation(base, emoji, b),
    ensures
        a == b,
{
    lemma_stable_sort_is_unique(a, b, augmented(base, emoji));
}

} // verus!
