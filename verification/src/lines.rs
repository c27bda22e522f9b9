//! Lines of text: cutting a file into lines, telling noise from data, and
//! joining lines into a file again.

use vstd::prelude::*;
use crate::text::{
    chars_of, find, lemma_find_absent, lemma_find_properties, position_from, push_char, string_of,
};

verus! {

/// Whether a character has the Unicode property White_Space.
pub open spec fn is_white_space(c: char) -> bool {
    let u = c as u32;
    ||| 0x09 <= u <= 0x0D
    ||| u == 0x20
    ||| u == 0x85
    ||| u == 0xA0
    ||| u == 0x1680
    ||| 0x2000 <= u <= 0x200A
    ||| u == 0x2028
    ||| u == 0x2029
    ||| u == 0x202F
    ||| u == 0x205F
    ||| u == 0x3000
}

/// Whether a line carries no data: after its leading white space nothing is
/// left, or a `#` comes first.
pub open spec fn is_noise_line(line: Seq<char>) -> bool
    decreases line.len(),
{
    if line.len() == 0 {
        true
    } else if is_white_space(line[0]) {
        is_noise_line(line.drop_first())
    } else {
        line[0] == '#'
    }
}

/// A line without the carriage return that ends it, if one does.
pub open spec fn without_carriage_return(line: Seq<char>) -> Seq<char> {
    if line.len() > 0 && line.last() == '\r' {
        line.drop_last()
    } else {
        line
    }
}

/// The lines of a text. A line ends at a line feed, or at a carriage return
/// directly followed by one; neither belongs to the line. What follows the
/// last line feed is a line too, unless it is empty.
pub open spec fn lines_of(text: Seq<char>) -> Seq<Seq<char>>
    decreases text.len(),
{
    if text.len() == 0 {
        Seq::empty()
    } else {
        let i = find(text, '\n');
        if 0 <= i < text.len() {
            seq![without_carriage_return(text.take(i))] + lines_of(text.skip(i + 1))
        } else {
            seq![text]
        }
    }
}

/// The text that holds the given lines: a line feed between each two of them,
/// none after the last.
pub open spec fn joined(lines: Seq<Seq<char>>) -> Seq<char>
    decreases lines.len(),
{
    if lines.len() == 0 {
        Seq::empty()
    } else if lines.len() == 1 {
        lines[0]
    } else {
        joined(lines.drop_last()) + seq!['\n'] + lines.last()
    }
}

/// Whether a character has the Unicode property White_Space.
pub fn white_space(c: char) -> (b: bool)
    ensures
        b == is_white_space(c),
{
    let u = c as u32;
    (0x09 <= u && u <= 0x0D) || u == 0x20 || u == 0x85 || u == 0xA0 || u == 0x1680 || (0x2000 <= u
        && u <= 0x200A) || u == 0x2028 || u == 0x2029 || u == 0x202F || u == 0x205F || u == 0x3000
}

/// Whether a line is blank or a comment.
pub fn is_noise(line: &str) -> (noise: bool)
    ensures
        noise == is_noise_line(line@),
{
    let chars = chars_of(line);
    let mut i: usize = 0;
    assert(line@.skip(0) == line@);
    while i < chars.len() && white_space(chars[i])
        invariant
            0 <= i <= chars.len(),
            chars@ == line@,
            is_noise_line(line@) == is_noise_line(line@.skip(i as int)),
        decreases chars.len() - i,
    {
        assert(line@.skip(i as int).drop_first() == line@.skip(i + 1));
        i += 1;
    }
    i == chars.len() || chars[i] == '#'
}

/// Cuts a text into its lines.
pub fn split_lines(text: &str) -> (lines: Vec<String>)
    ensures
        lines.deep_view() == lines_of(text@),
{
    let chars = chars_of(text);
    let n = chars.len();
    let mut lines: Vec<String> = Vec::new();
    let mut start: usize = 0;
    assert(text@.skip(0) == text@);
    while start < n
        invariant
            0 <= start <= n,
            n == chars.len(),
            chars@ == text@,
            lines_of(text@) == lines.deep_view() + lines_of(text@.skip(start as int)),
        decreases n - start,
    {
        let ghost rest = text@.skip(start as int);
        let ghost before = lines.deep_view();
        let i = position_from(&chars, start, '\n');
        let end = if i < n && start < i && chars[i - 1] == '\r' {
            i - 1
        } else {
            i
        };
        let line = string_of(&chars, start, end);
        lines.push(line);
        proof {
            if i < n {
                assert(rest.take(i - start) == text@.subrange(start as int, i as int));
                assert(without_carriage_return(rest.take(i - start)) == line@);
                assert(rest.skip(i - start + 1) == text@.skip(i + 1));
            } else {
                assert(rest == text@.subrange(start as int, n as int));
                assert(lines_of(text@.skip(n as int)) == Seq::<Seq<char>>::empty());
            }
            assert(lines.deep_view() == before.push(line@));
        }
        start = if i < n {
            i + 1
        } else {
            n
        };
    }
    lines
}

/// Joins lines into one text, with a line feed between each two of them.
pub fn join_lines(lines: &Vec<String>) -> (text: String)
    ensures
        text@ == joined(lines.deep_view()),
{
    let mut text = String::new();
    let mut i: usize = 0;
    while i < lines.len()
        invariant
            0 <= i <= lines.len(),
            text@ == joined(lines.deep_view().take(i as int)),
        decreases lines.len() - i,
    {
        if i > 0 {
            push_char(&mut text, '\n');
        }
        text.append(lines[i].as_str());
        proof {
            let now = lines.deep_view().take(i + 1);
            assert(now.drop_last() == lines.deep_view().take(i as int));
            assert(now.last() == lines[i as int]@);
            if i == 0 {
                assert(text@ == lines[0]@);
            }
        }
        i += 1;
    }
    assert(lines.deep_view().take(lines.len() as int) == lines.deep_view());
    text
}

/// A line that `lines_of` gives holds no line feed.
pub proof fn lemma_lines_hold_no_line_feed(text: Seq<char>)
    ensures
        forall|k: int| 0 <= k < lines_of(text).len() ==> !(#[trigger] lines_of(text)[k]).contains('\n'),
    decreases text.len(),
{
    if text.len() > 0 {
        lemma_find_properties(text, '\n');
        let i = find(text, '\n');
        if i >= text.len() {
            lemma_find_absent(text, '\n');
        } else {
            let first = without_carriage_return(text.take(i));
            let tail = lines_of(text.skip(i + 1));
            lemma_lines_hold_no_line_feed(text.skip(i + 1));
            if first.contains('\n') {
                let j = choose|j: int| 0 <= j < first.len() && first[j] == '\n';
                assert(text[j] == '\n');
            }
            assert forall|k: int| 0 <= k < lines_of(text).len() implies !(#[trigger] lines_of(
                text,
            )[k]).contains('\n') by {
                if k > 0 {
                    assert(lines_of(text)[k] == tail[k - 1]);
                }
            }
        }
    }
}

} // verus!
