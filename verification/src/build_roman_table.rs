//! Assembling a table from the texts of its fragment files.

use vstd::prelude::*;
use crate::lines::{is_noise, is_noise_line, join_lines, joined, lines_of, split_lines};
use crate::order::{key_le, key_less, key_lt, key_of, lemma_key_le_transitive, rank, rank_of};
use crate::romaji::{line_of, parse_line, Romaji, RomajiView};
use crate::table::{
    at_most_one, inputs_of, is_sorted, is_stable_sort_of, last_with_input, lemma_filter_absent,
    lemma_inputs_distinct, lemma_insert_keeps_stable_sort, lemma_merged_holds_last,
    lemma_same_within_inputs, lemma_stable_sort_is_unique, merged, record_key, with_input,
    with_key,
};
use crate::text::{chars_of, lemma_find_is, push_char};

verus! {

/// The lines that carry data.
pub open spec fn is_data() -> spec_fn(Seq<char>) -> bool {
    |line: Seq<char>| !is_noise_line(line)
}

/// The entry of a line, if it holds one.
pub open spec fn parsed() -> spec_fn(Seq<char>) -> Option<RomajiView> {
    |line: Seq<char>| parse_line(line)
}

/// The given lines without the blank lines and the comments.
pub open spec fn data_lines(lines: Seq<Seq<char>>) -> Seq<Seq<char>> {
    lines.filter(is_data())
}

/// The entries of the lines that hold one, in the order of the lines.
pub open spec fn records_of(lines: Seq<Seq<char>>) -> Seq<RomajiView> {
    lines.filter_map(parsed())
}

/// The lines of several texts, text after text.
pub open spec fn lines_of_all(texts: Seq<Seq<char>>) -> Seq<Seq<char>>
    decreases texts.len(),
{
    if texts.len() == 0 {
        Seq::empty()
    } else {
        lines_of_all(texts.drop_last()) + lines_of(texts.last())
    }
}

/// The lines of all layers, layer after layer. A layer is the texts of the
/// fragment files of one directory.
pub open spec fn lines_of_layers(layers: Seq<Seq<Seq<char>>>) -> Seq<Seq<char>>
    decreases layers.len(),
{
    if layers.len() == 0 {
        Seq::empty()
    } else {
        lines_of_layers(layers.drop_last()) + lines_of_all(layers.last())
    }
}

/// What a character becomes under a substitution list: the second part of the
/// first pair whose first part it is, or itself if there is no such pair.
pub open spec fn substitute(transforms: Seq<(char, char)>, c: char) -> char
    decreases transforms.len(),
{
    if transforms.len() == 0 {
        c
    } else if transforms[0].0 == c {
        transforms[0].1
    } else {
        substitute(transforms.drop_first(), c)
    }
}

/// An input with every character substituted.
pub open spec fn substituted(transforms: Seq<(char, char)>, input: Seq<char>) -> Seq<char> {
    Seq::new(input.len(), |i: int| substitute(transforms, input[i]))
}

/// An entry with its input substituted; output and pending input are kept.
pub open spec fn retargeted_record(transforms: Seq<(char, char)>, r: RomajiView) -> RomajiView {
    RomajiView { input: substituted(transforms, r.input), output: r.output, next_input: r.next_input }
}

/// A table with the input of every entry substituted.
pub open spec fn retargeted(transforms: Seq<(char, char)>, t: Seq<RomajiView>) -> Seq<RomajiView> {
    Seq::new(t.len(), |i: int| retargeted_record(transforms, t[i]))
}

/// The entries that the layers supply, in the order in which they are read,
/// with their inputs substituted for the target.
pub open spec fn source_records(
    layers: Seq<Seq<Seq<char>>>,
    transforms: Seq<(char, char)>,
) -> Seq<RomajiView> {
    retargeted(transforms, records_of(data_lines(lines_of_layers(layers))))
}

/// `table` is the table assembled from `layers` for the target of
/// `transforms`: the supplied entries merged by input, later ones replacing
/// earlier ones, in the stable order of their keys.
pub open spec fn is_assembly(
    layers: Seq<Seq<Seq<char>>>,
    transforms: Seq<(char, char)>,
    table: Seq<RomajiView>,
) -> bool {
    is_stable_sort_of(table, merged(source_records(layers, transforms)))
}

/// The lines of a table, entry by entry.
pub open spec fn lines_of_table(t: Seq<RomajiView>) -> Seq<Seq<char>> {
    Seq::new(t.len(), |i: int| line_of(t[i]))
}

/// Whether a file name has the extension of a fragment file: it ends in
/// `.tsv`, and something stands before that.
pub open spec fn is_fragment_name(name: Seq<char>) -> bool {
    name.len() > 4 && name.skip(name.len() - 4) == seq!['.', 't', 's', 'v']
}

/// Builds the table of a target from the fragment files of its source
/// directories. Reading the directories and writing the table are left to
/// the caller: the functions here work on the texts of the files.
pub struct RomanTableBuilder {}

impl RomanTableBuilder {
    /// Drops blank lines and comments.
    pub fn filter_lines(lines: Vec<String>) -> (kept: Vec<String>)
        ensures
            kept.deep_view() == data_lines(lines.deep_view()),
    {
        let ghost all = lines.deep_view();
        let ghost source = lines@;
        let mut kept: Vec<String> = Vec::new();
        assert(all.take(0) == Seq::<Seq<char>>::empty());
        assert(kept.deep_view() == Seq::<Seq<char>>::empty());
        proof {
            lemma_filter_absent(Seq::<Seq<char>>::empty(), is_data());
        }
        for line in it: lines
            invariant
                it.seq() == source,
                all.len() == source.len(),
                forall|i: int| 0 <= i < source.len() ==> all[i] == source[i]@,
                kept.deep_view() == data_lines(all.take(it.index() as int)),
        {
            let ghost before = kept.deep_view();
            let ghost i = it.index() as int;
            proof {
                all.take(i).lemma_filter_push(line@, is_data());
                assert(all.take(i + 1) == all.take(i).push(line@));
            }
            if !is_noise(line.as_str()) {
                kept.push(line);
                assert(kept.deep_view() == before.push(line@));
            }
        }
        assert(all.take(all.len() as int) == all);
        kept
    }

    /// Reads the entries of the lines that hold one; the other lines are passed over.
    pub fn to_romaji(lines: Vec<String>) -> (entries: Vec<Romaji>)
        ensures
            entries.deep_view() == records_of(lines.deep_view()),
    {
        let ghost all = lines.deep_view();
        let ghost source = lines@;
        let mut entries: Vec<Romaji> = Vec::new();
        assert(all.take(0) == Seq::<Seq<char>>::empty());
        assert(entries.deep_view() == Seq::<RomajiView>::empty());
        for line in it: lines
            invariant
                it.seq() == source,
                all.len() == source.len(),
                forall|i: int| 0 <= i < source.len() ==> all[i] == source[i]@,
                entries.deep_view() == records_of(all.take(it.index() as int)),
        {
            let ghost before = entries.deep_view();
            let ghost i = it.index() as int;
            proof {
                all.lemma_filter_map_take_succ(parsed(), i);
            }
            match Romaji::from_line(line.as_str()) {
                Some(entry) => {
                    entries.push(entry);
                    assert(entries.deep_view() == before.push(entry@));
                },
                None => {},
            }
        }
        assert(all.take(all.len() as int) == all);
        entries
    }

    /// Whether a directory entry of this name is a fragment file.
    pub fn is_fragment_file(name: &str) -> (b: bool)
        ensures
            b == is_fragment_name(name@),
    {
        let chars = chars_of(name);
        let n = chars.len();
        if n <= 4 {
            return false;
        }
        let b = chars[n - 4] == '.' && chars[n - 3] == 't' && chars[n - 2] == 's' && chars[n - 1]
            == 'v';
        proof {
            let tail = name@.skip(n - 4);
            assert(tail.len() == 4);
            assert(tail[0] == chars@[n - 4] && tail[1] == chars@[n - 3] && tail[2] == chars@[n - 2]
                && tail[3] == chars@[n - 1]);
            if b {
                assert(tail =~= seq!['.', 't', 's', 'v']);
            } else {
                assert(seq!['.', 't', 's', 'v'][0] == '.' && seq!['.', 't', 's', 'v'][1] == 't'
                    && seq!['.', 't', 's', 'v'][2] == 's' && seq!['.', 't', 's', 'v'][3] == 'v');
            }
        }
        b
    }

    /// The lines of the texts of all layers, in reading order.
    pub fn read_lines(layers: &Vec<Vec<String>>) -> (lines: Vec<String>)
        ensures
            lines.deep_view() == lines_of_layers(layers.deep_view()),
    {
        let ghost all = layers.deep_view();
        let mut lines: Vec<String> = Vec::new();
        let mut i: usize = 0;
        assert(all.take(0) == Seq::<Seq<Seq<char>>>::empty());
        assert(lines.deep_view() == Seq::<Seq<char>>::empty());
        while i < layers.len()
            invariant
                0 <= i <= layers.len(),
                all == layers.deep_view(),
                lines.deep_view() == lines_of_layers(all.take(i as int)),
            decreases layers.len() - i,
        {
            let layer = &layers[i];
            let ghost texts = layer.deep_view();
            let ghost before = lines.deep_view();
            let mut j: usize = 0;
            assert(texts.take(0) == Seq::<Seq<char>>::empty());
            assert(before + Seq::<Seq<char>>::empty() == before);
            while j < layer.len()
                invariant
                    0 <= j <= layer.len(),
                    texts == layer.deep_view(),
                    lines.deep_view() == before + lines_of_all(texts.take(j as int)),
                decreases layer.len() - j,
            {
                let mut more = split_lines(layer[j].as_str());
                let ghost so_far = lines.deep_view();
                let ghost added = more.deep_view();
                lines.append(&mut more);
                proof {
                    assert(lines.deep_view() == so_far + added);
                    assert(texts.take(j + 1).drop_last() == texts.take(j as int));
                    assert(texts.take(j + 1).last() == layer[j as int]@);
                }
                j += 1;
            }
            proof {
                assert(texts.take(layer.len() as int) == texts);
                assert(all.take(i + 1).drop_last() == all.take(i as int));
                assert(all.take(i + 1).last() == texts);
            }
            i += 1;
        }
        assert(all.take(layers.len() as int) == all);
        lines
    }

    /// What a character becomes for the target.
    pub fn substitute_char(transforms: &[(char, char)], c: char) -> (d: char)
        ensures
            d == substitute(transforms@, c),
    {
        let mut i: usize = 0;
        assert(transforms@.skip(0) == transforms@);
        while i < transforms.len()
            invariant
                0 <= i <= transforms.len(),
                substitute(transforms@, c) == substitute(transforms@.skip(i as int), c),
            decreases transforms.len() - i,
        {
            if transforms[i].0 == c {
                return transforms[i].1;
            }
            assert(transforms@.skip(i as int).drop_first() == transforms@.skip(i + 1));
            i += 1;
        }
        c
    }

    /// Substitutes the characters of every input for the target.
    pub fn retarget(entries: Vec<Romaji>, transforms: &[(char, char)]) -> (out: Vec<Romaji>)
        ensures
            out.deep_view() == retargeted(transforms@, entries.deep_view()),
    {
        let ghost all = entries.deep_view();
        let ghost source = entries@;
        let mut out: Vec<Romaji> = Vec::new();
        for entry in it: entries
            invariant
                it.seq() == source,
                all.len() == source.len(),
                forall|i: int| 0 <= i < source.len() ==> all[i] == source[i]@,
                out.len() == it.index(),
                forall|i: int|
                    0 <= i < out.len() ==> out[i]@ == retargeted_record(transforms@, all[i]),
        {
            let chars = chars_of(entry.input.as_str());
            let mut input = String::new();
            let mut k: usize = 0;
            while k < chars.len()
                invariant
                    0 <= k <= chars.len(),
                    chars@ == entry.input@,
                    input@.len() == k,
                    forall|m: int|
                        0 <= m < k ==> input@[m] == substitute(transforms@, chars@[m]),
                decreases chars.len() - k,
            {
                push_char(&mut input, Self::substitute_char(transforms, chars[k]));
                k += 1;
            }
            assert(input@ == substituted(transforms@, entry.input@));
            out.push(Romaji { input, output: entry.output, next_input: entry.next_input });
        }
        assert(out.deep_view() == retargeted(transforms@, all));
        out
    }

    /// Merges entries by input: each entry takes the place of the entry with
    /// the same input that came before it, or is added behind the others.
    pub fn merge(entries: Vec<Romaji>) -> (table: Vec<Romaji>)
        ensures
            table.deep_view() == merged(entries.deep_view()),
    {
        let ghost all = entries.deep_view();
        let ghost source = entries@;
        let mut table: Vec<Romaji> = Vec::new();
        assert(all.take(0) == Seq::<RomajiView>::empty());
        assert(table.deep_view() == Seq::<RomajiView>::empty());
        for entry in it: entries
            invariant
                it.seq() == source,
                all.len() == source.len(),
                forall|i: int| 0 <= i < source.len() ==> all[i] == source[i]@,
                table.deep_view() == merged(all.take(it.index() as int)),
        {
            let ghost before = table.deep_view();
            let ghost n = it.index() as int;
            let mut i: usize = 0;
            while i < table.len() && table[i].input != entry.input
                invariant
                    0 <= i <= table.len(),
                    table.deep_view() == before,
                    forall|k: int| 0 <= k < i ==> before[k].input != entry.input@,
                decreases table.len() - i,
            {
                assert(before[i as int] == table[i as int]@);
                i += 1;
            }
            proof {
                assert(i < table.len() ==> before[i as int] == table[i as int]@);
                lemma_find_is(inputs_of(before), entry.input@, i as int);
                assert(all.take(n + 1).drop_last() == all.take(n));
                assert(all.take(n + 1).last() == entry@);
            }
            if i < table.len() {
                table[i] = entry;
                assert(table.deep_view() == before.update(i as int, entry@));
            } else {
                table.push(entry);
                assert(table.deep_view() == before.push(entry@));
            }
        }
        assert(all.take(all.len() as int) == all);
        table
    }

    /// The sort key of an input.
    pub fn sort_key(input: &str) -> (key: Vec<usize>)
        ensures
            key@ == key_of(input@),
    {
        let mut key: Vec<usize> = Vec::new();
        for c in it: input.chars()
            invariant
                it.seq() == input@,
                key.len() == it.index(),
                forall|i: int| 0 <= i < key.len() ==> key@[i] == rank(input@[i]),
        {
            key.push(rank_of(c));
        }
        assert(key@ == key_of(input@));
        key
    }

    /// Sorts entries by the keys of their inputs. Entries with the same key
    /// stay in the order in which they were given.
    pub fn sort_romaji(entries: Vec<Romaji>) -> (sorted: Vec<Romaji>)
        ensures
            is_stable_sort_of(sorted.deep_view(), entries.deep_view()),
    {
        let ghost all = entries.deep_view();
        let ghost source = entries@;
        let mut sorted: Vec<Romaji> = Vec::new();
        let mut keys: Vec<Vec<usize>> = Vec::new();
        proof {
            assert(all.take(0) == Seq::<RomajiView>::empty());
            assert(sorted.deep_view() == Seq::<RomajiView>::empty());
        }
        for entry in it: entries
            invariant
                it.seq() == source,
                all.len() == source.len(),
                forall|i: int| 0 <= i < source.len() ==> all[i] == source[i]@,
                keys.len() == sorted.len(),
                forall|i: int| 0 <= i < sorted.len() ==> keys[i]@ == record_key(sorted[i]@),
                is_stable_sort_of(sorted.deep_view(), all.take(it.index() as int)),
        {
            let ghost before = sorted.deep_view();
            let ghost n = it.index() as int;
            let key = Self::sort_key(entry.input.as_str());
            let mut p: usize = sorted.len();
            while p > 0 && key_less(&key, &keys[p - 1])
                invariant
                    0 <= p <= sorted.len(),
                    keys.len() == sorted.len(),
                    forall|q: int| p <= q < keys.len() ==> key_lt(key@, keys[q]@),
                decreases p,
            {
                p -= 1;
            }
            proof {
                assert forall|q: int| 0 <= q < p implies key_le(
                    record_key(#[trigger] before[q]),
                    record_key(entry@),
                ) by {
                    assert(before[q] == sorted[q]@);
                    assert(before[p - 1] == sorted[p - 1]@);
                    if q < p - 1 {
                        assert(key_le(
                            record_key(before[q]),
                            record_key(before[p - 1]),
                        ));
                        lemma_key_le_transitive(
                            record_key(before[q]),
                            record_key(before[p - 1]),
                            record_key(entry@),
                        );
                    }
                }
                assert forall|q: int| p <= q < before.len() implies key_lt(
                    record_key(entry@),
                    record_key(#[trigger] before[q]),
                ) by {
                    assert(before[q] == sorted[q]@);
                    assert(keys[q]@ == record_key(sorted[q]@));
                }
                lemma_insert_keeps_stable_sort(before, all.take(n), entry@, p as int);
                assert(all.take(n + 1) == all.take(n).push(entry@));
            }
            sorted.insert(p, entry);
            keys.insert(p, key);
            assert(sorted.deep_view() == before.insert(p as int, entry@));
        }
        assert(all.take(all.len() as int) == all);
        sorted
    }

    /// Assembles the table of a target from the texts of the fragment files.
    ///
    /// `layers` holds one list of texts for each source directory, from the
    /// lowest precedence to the highest. `transforms` substitutes characters
    /// of the inputs for the target.
    pub fn assemble(layers: &Vec<Vec<String>>, transforms: &[(char, char)]) -> (table: Vec<Romaji>)
        ensures
            is_assembly(layers.deep_view(), transforms@, table.deep_view()),
    {
        let raw_lines = Self::read_lines(layers);
        let lines = Self::filter_lines(raw_lines);
        let entries = Self::to_romaji(lines);
        let entries = Self::retarget(entries, transforms);
        let table = Self::merge(entries);
        Self::sort_romaji(table)
    }

    /// The text of a table: one line for each entry, joined by line feeds.
    pub fn serialize(table: &Vec<Romaji>) -> (text: String)
        ensures
            text@ == joined(lines_of_table(table.deep_view())),
    {
        let mut lines: Vec<String> = Vec::new();
        let mut i: usize = 0;
        while i < table.len()
            invariant
                0 <= i <= table.len(),
                lines.len() == i,
                forall|k: int| 0 <= k < i ==> lines[k]@ == line_of(table[k]@),
            decreases table.len() - i,
        {
            lines.push(table[i].to_line());
            i += 1;
        }
        assert(lines.deep_view() == lines_of_table(table.deep_view()));
        join_lines(&lines)
    }
}

/// Assembling is a function of what is read: two tables assembled from the
/// same layers for the same target are the same table, and so are their texts.
pub proof fn lemma_assembly_is_unique(
    layers: Seq<Seq<Seq<char>>>,
    transforms: Seq<(char, char)>,
    a: Seq<RomajiView>,
    b: Seq<RomajiView>,
)
    requires
        is_assembly(layers, transforms, a),
        is_assembly(layers, transforms, b),
    ensures
        a == b,
        joined(lines_of_table(a)) == joined(lines_of_table(b)),
{
    lemma_stable_sort_is_unique(a, b, merged(source_records(layers, transforms)));
}

/// Later entries override earlier ones: for every input, the assembled table
/// holds the last supplied entry that has this input, once, and no other
/// entry with this input.
pub proof fn lemma_assembly_holds_last(
    layers: Seq<Seq<Seq<char>>>,
    transforms: Seq<(char, char)>,
    table: Seq<RomajiView>,
    input: Seq<char>,
)
    requires
        is_assembly(layers, transforms, table),
    ensures
        table.filter(with_input(input)) == at_most_one(
            last_with_input(source_records(layers, transforms), input),
        ),
{
    let source = source_records(layers, transforms);
    lemma_same_within_inputs(table, merged(source), input);
    lemma_merged_holds_last(source, input);
}

/// No two entries of an assembled table have the same input.
pub proof fn lemma_assembly_inputs_distinct(
    layers: Seq<Seq<Seq<char>>>,
    transforms: Seq<(char, char)>,
    table: Seq<RomajiView>,
)
    requires
        is_assembly(layers, transforms, table),
    ensures
        inputs_of(table).no_duplicates(),
        is_sorted(table),
{
    assert forall|input: Seq<char>| #[trigger] table.filter(with_input(input)).len() <= 1 by {
        lemma_assembly_holds_last(layers, transforms, table, input);
    }
    lemma_inputs_distinct(table);
}

} // verus!
