//! One table entry and its one-line, tab-separated text form.

use vstd::prelude::*;
use crate::text::{chars_of, find, lemma_find_absent, lemma_find_is, lemma_find_properties, position_from, push_char, string_of};

verus! {

/// What a `Romaji` stands for in contracts: its three fields as character sequences.
pub struct RomajiView {
    pub input: Seq<char>,
    pub output: Seq<char>,
    pub next_input: Option<Seq<char>>,
}

/// A table entry: the keys to type, the text they produce, and optionally the
/// keys that are left pending for the next entry.
#[derive(Debug)]
pub struct Romaji {
    pub input: String,
    pub output: String,
    pub next_input: Option<String>,
}

impl View for Romaji {
    type V = RomajiView;

    open spec fn view(&self) -> RomajiView {
        RomajiView {
            input: self.input@,
            output: self.output@,
            next_input: match self.next_input {
                Some(next) => Some(next@),
                None => None,
            },
        }
    }
}

impl DeepView for Romaji {
    type V = RomajiView;

    open spec fn deep_view(&self) -> RomajiView {
        self@
    }
}

/// The entry that a line holds. The line is cut at its first tab and, if there
/// is one, at the tab after that; later tabs belong to the third field. A line
/// without a tab holds no entry.
pub open spec fn parse_line(line: Seq<char>) -> Option<RomajiView> {
    let i = find(line, '\t');
    if i == line.len() {
        None
    } else {
        let rest = line.skip(i + 1);
        let j = find(rest, '\t');
        Some(
            RomajiView {
                input: line.take(i),
                output: rest.take(j),
                next_input: if j == rest.len() {
                    None
                } else {
                    Some(rest.skip(j + 1))
                },
            },
        )
    }
}

/// The line that holds an entry: its fields joined by tabs, the third field
/// and its tab left out when there is no third field.
pub open spec fn line_of(r: RomajiView) -> Seq<char> {
    match r.next_input {
        Some(next) => r.input + seq!['\t'] + r.output + seq!['\t'] + next,
        None => r.input + seq!['\t'] + r.output,
    }
}

/// Whether an entry keeps its fields apart when written as a line: neither
/// the input nor the output holds a tab.
pub open spec fn separable(r: RomajiView) -> bool {
    !r.input.contains('\t') && !r.output.contains('\t')
}

impl Romaji {
    /// Reads an entry from a line. Returns `None` exactly for a line without a tab.
    pub fn from_line(line: &str) -> (r: Option<Romaji>)
        ensures
            r is Some <==> line@.contains('\t'),
            r is Some <==> parse_line(line@) is Some,
            r is Some ==> r->0@ == parse_line(line@)->0,
    {
        let chars = chars_of(line);
        let n = chars.len();
        let i = position_from(&chars, 0, '\t');
        proof {
            assert(chars@.skip(0) == chars@);
            lemma_find_absent(line@, '\t');
        }
        if i == n {
            return None;
        }
        let j = position_from(&chars, i + 1, '\t');
        let input = string_of(&chars, 0, i);
        let output = string_of(&chars, i + 1, j);
        let next_input = if j == n {
            None
        } else {
            Some(string_of(&chars, j + 1, n))
        };
        proof {
            let rest = line@.skip(i + 1);
            assert(line@.take(i as int) == chars@.subrange(0, i as int));
            assert(rest.take(j - (i + 1)) == chars@.subrange(i + 1, j as int));
            if j < n {
                assert(rest.skip(j - (i + 1) + 1) == chars@.subrange(j + 1, n as int));
            }
        }
        Some(Romaji { input, output, next_input })
    }

    /// Writes the entry as a line.
    pub fn to_line(&self) -> (line: String)
        ensures
            line@ == line_of(self@),
    {
        let mut line = self.input.clone();
        push_char(&mut line, '\t');
        line.append(self.output.as_str());
        match &self.next_input {
            Some(next) => {
                push_char(&mut line, '\t');
                line.append(next.as_str());
            },
            None => {},
        }
        line
    }
}

/// Writing an entry and reading the line back gives the entry again, provided
/// that neither its input nor its output holds a tab.
pub proof fn lemma_read_written(r: RomajiView)
    requires
        separable(r),
    ensures
        parse_line(line_of(r)) == Some(r),
{
    let line = line_of(r);
    let i = r.input.len() as int;
    assert forall|k: int| 0 <= k < i implies line[k] != '\t' by {
        assert(line[k] == r.input[k]);
        assert(r.input.contains(r.input[k]));
    }
    assert(line[i] == '\t');
    lemma_find_is(line, '\t', i);
    let rest = line.skip(i + 1);
    let j = r.output.len() as int;
    assert forall|k: int| 0 <= k < j implies rest[k] != '\t' by {
        assert(rest[k] == r.output[k]);
        assert(r.output.contains(r.output[k]));
    }
    lemma_find_is(rest, '\t', j);
    assert(line.take(i) == r.input);
    assert(rest.take(j) == r.output);
    match r.next_input {
        Some(next) => {
            assert(rest.skip(j + 1) == next);
        },
        None => {},
    }
}

/// Reading a line and writing the entry gives the line again, whatever the line
/// holds after its second tab.
pub proof fn lemma_written_read(line: Seq<char>)
    requires
        parse_line(line) is Some,
    ensures
        line_of(parse_line(line)->0) == line,
{
    lemma_find_properties(line, '\t');
    let i = find(line, '\t');
    let rest = line.skip(i + 1);
    lemma_find_properties(rest, '\t');
    let j = find(rest, '\t');
    let r = parse_line(line)->0;
    if j == rest.len() {
        assert(r.input + seq!['\t'] + r.output == line);
    } else {
        assert(r.input + seq!['\t'] + r.output + seq!['\t'] + r.next_input->0 == line);
    }
}

/// A line holds an entry exactly when it holds a tab.
pub proof fn lemma_parses_iff_tab(line: Seq<char>)
    ensures
        parse_line(line) is Some <==> line.contains('\t'),
{
    lemma_find_absent(line, '\t');
}

} // verus!
