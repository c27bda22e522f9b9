//! The order of the table: a rank for each character and a key for each input.
//!
//! Entries are ordered by sound rather than by code point: the vowels come
//! first, then the consonants row by row, then the remaining letters, and
//! every other character after all of them.

use vstd::prelude::*;
use crate::text::{find, lemma_find_absent, lemma_find_is, lemma_find_properties};

verus! {

/// The characters that have a rank of their own, in rising rank.
pub open spec fn priority_list() -> Seq<char> {
    seq![
        'a', 'i', 'u', 'e', 'o',
        'k', 'c', 's', 't', 'n', 'h', 'm', 'y', 'r', 'w',
        'g', 'z', 'd', 'b', 'p',
        'f', 'j', 'v', 'q',
        'l', 'x',
    ]
}

/// The rank of every character that is not in the priority list.
pub open spec fn unranked() -> usize {
    26
}

/// An ASCII capital as its small letter; any other character unchanged.
pub open spec fn to_lower(c: char) -> char {
    if 'A' <= c && c <= 'Z' {
        ((c as u8) + 32) as char
    } else {
        c
    }
}

/// The rank of a character: the place of its small letter in the priority
/// list, or `unranked()` if it has none.
pub open spec fn rank(c: char) -> usize {
    find(priority_list(), to_lower(c)) as usize
}

/// The sort key of an input: the rank of each of its characters.
pub open spec fn key_of(input: Seq<char>) -> Seq<usize> {
    Seq::new(input.len(), |i: int| rank(input[i]))
}

/// How many leading numbers two keys share.
pub open spec fn common_prefix_len(a: Seq<usize>, b: Seq<usize>) -> int
    decreases a.len(),
{
    if a.len() == 0 || b.len() == 0 || a[0] != b[0] {
        0
    } else {
        1 + common_prefix_len(a.drop_first(), b.drop_first())
    }
}

/// Lexicographic order on keys: where the two first differ, `a` has ended or
/// holds the smaller number, and `b` has not ended.
pub open spec fn key_lt(a: Seq<usize>, b: Seq<usize>) -> bool {
    let i = common_prefix_len(a, b);
    i < b.len() && (i == a.len() || a[i] < b[i])
}

/// `a` does not come after `b`.
pub open spec fn key_le(a: Seq<usize>, b: Seq<usize>) -> bool {
    !key_lt(b, a)
}

/// The shared prefix is shared, and ends where a key ends or the keys differ.
pub proof fn lemma_common_prefix(a: Seq<usize>, b: Seq<usize>)
    ensures
        0 <= common_prefix_len(a, b) <= a.len(),
        common_prefix_len(a, b) <= b.len(),
        forall|k: int| 0 <= k < common_prefix_len(a, b) ==> a[k] == b[k],
        common_prefix_len(a, b) < a.len() && common_prefix_len(a, b) < b.len() ==> a[common_prefix_len(
            a,
            b,
        )] != b[common_prefix_len(a, b)],
    decreases a.len(),
{
    if !(a.len() == 0 || b.len() == 0 || a[0] != b[0]) {
        let a1 = a.drop_first();
        let b1 = b.drop_first();
        lemma_common_prefix(a1, b1);
        let n = common_prefix_len(a, b);
        assert forall|k: int| 0 <= k < n implies a[k] == b[k] by {
            if k > 0 {
                assert(a[k] == a1[k - 1]);
                assert(b[k] == b1[k - 1]);
            }
        }
        if n < a.len() && n < b.len() {
            assert(a[n] == a1[n - 1]);
            assert(b[n] == b1[n - 1]);
        }
    }
}

/// An index up to which two keys agree, and at which one ends or they differ,
/// is the length of their shared prefix.
pub proof fn lemma_common_prefix_is(a: Seq<usize>, b: Seq<usize>, i: int)
    requires
        0 <= i <= a.len(),
        i <= b.len(),
        forall|k: int| 0 <= k < i ==> a[k] == b[k],
        i < a.len() && i < b.len() ==> a[i] != b[i],
    ensures
        common_prefix_len(a, b) == i,
{
    lemma_common_prefix(a, b);
    let n = common_prefix_len(a, b);
    if n < i {
        assert(a[n] == b[n]);
    } else if i < n {
        assert(a[i] == b[i]);
    }
}

/// The shared prefix does not depend on which key is named first.
pub proof fn lemma_common_prefix_symmetric(a: Seq<usize>, b: Seq<usize>)
    ensures
        common_prefix_len(a, b) == common_prefix_len(b, a),
{
    lemma_common_prefix(a, b);
    lemma_common_prefix_is(b, a, common_prefix_len(a, b));
}

/// No key comes before itself.
pub proof fn lemma_key_lt_irreflexive(a: Seq<usize>)
    ensures
        !key_lt(a, a),
{
    lemma_common_prefix_is(a, a, a.len() as int);
}

/// Of two keys one comes first, or they are the same key.
pub proof fn lemma_key_lt_total(a: Seq<usize>, b: Seq<usize>)
    ensures
        key_lt(a, b) || key_lt(b, a) || a == b,
{
    lemma_common_prefix(a, b);
    lemma_common_prefix_symmetric(a, b);
    let n = common_prefix_len(a, b);
    if n == a.len() && n == b.len() {
        assert(a =~= b);
    }
}

/// The order on keys is transitive.
pub proof fn lemma_key_lt_transitive(a: Seq<usize>, b: Seq<usize>, c: Seq<usize>)
    requires
        key_lt(a, b),
        key_lt(b, c),
    ensures
        key_lt(a, c),
{
    lemma_common_prefix(a, b);
    lemma_common_prefix(b, c);
    let i = common_prefix_len(a, b);
    let j = common_prefix_len(b, c);
    let m = if i <= j { i } else { j };
    assert forall|k: int| 0 <= k < m implies a[k] == c[k] by {
        assert(a[k] == b[k]);
        assert(b[k] == c[k]);
    }
    if i < j {
        assert(b[i] == c[i]);
    } else if j < i {
        assert(a[j] == b[j]);
    }
    lemma_common_prefix_is(a, c, m);
}

/// No two keys come before each other.
pub proof fn lemma_key_lt_asymmetric(a: Seq<usize>, b: Seq<usize>)
    ensures
        !(key_lt(a, b) && key_lt(b, a)),
{
    if key_lt(a, b) && key_lt(b, a) {
        lemma_key_lt_transitive(a, b, a);
        lemma_key_lt_irreflexive(a);
    }
}

/// "Not after" is transitive.
pub proof fn lemma_key_le_transitive(a: Seq<usize>, b: Seq<usize>, c: Seq<usize>)
    requires
        key_le(a, b),
        key_le(b, c),
    ensures
        key_le(a, c),
{
    if key_lt(c, a) {
        lemma_key_lt_total(b, c);
        if key_lt(b, c) {
            lemma_key_lt_transitive(b, c, a);
        }
    }
}

/// Two keys of which neither comes before the other are the same key.
pub proof fn lemma_key_le_antisymmetric(a: Seq<usize>, b: Seq<usize>)
    requires
        key_le(a, b),
        key_le(b, a),
    ensures
        a == b,
{
    lemma_key_lt_total(a, b);
}

/// A key that is a strict prefix of another comes first.
pub proof fn lemma_prefix_comes_first(p: Seq<char>, rest: Seq<char>)
    requires
        rest.len() > 0,
    ensures
        key_lt(key_of(p), key_of(p + rest)),
{
    lemma_common_prefix_is(key_of(p), key_of(p + rest), p.len() as int);
}

/// Two inputs that agree up to a character are ordered by the rank of that
/// character, whatever follows it.
pub proof fn lemma_first_difference_decides(
    p: Seq<char>,
    x: char,
    y: char,
    u: Seq<char>,
    v: Seq<char>,
)
    requires
        rank(x) < rank(y),
    ensures
        key_lt(key_of(p + seq![x] + u), key_of(p + seq![y] + v)),
{
    lemma_common_prefix_is(key_of(p + seq![x] + u), key_of(p + seq![y] + v), p.len() as int);
}

/// An input in small letters: every ASCII capital as its small letter.
pub open spec fn lowered(input: Seq<char>) -> Seq<char> {
    Seq::new(input.len(), |i: int| to_lower(input[i]))
}

/// Capitals and small letters have the same rank, so the key of an input
/// does not depend on its case.
pub proof fn lemma_key_ignores_case(input: Seq<char>)
    ensures
        key_of(lowered(input)) == key_of(input),
{
    assert forall|i: int| 0 <= i < input.len() implies rank(lowered(input)[i]) == rank(
        input[i],
    ) by {
        assert(to_lower(to_lower(input[i])) == to_lower(input[i]));
    }
    assert(key_of(lowered(input)) =~= key_of(input));
}

/// Every character of the priority list has its place in the list as its rank,
/// and every rank is at most `unranked()`, which is the rank of exactly the
/// characters whose small letter the list lacks.
pub proof fn lemma_ranks()
    ensures
        priority_list().len() == unranked(),
        forall|i: int| 0 <= i < priority_list().len() ==> rank(#[trigger] priority_list()[i]) == i,
        forall|c: char| #[trigger] rank(c) <= unranked(),
        forall|c: char| #[trigger]
            rank(c) == unranked() <==> !priority_list().contains(to_lower(c)),
{
    let list = priority_list();
    assert forall|i: int| 0 <= i < list.len() implies rank(#[trigger] list[i]) == i by {
        lemma_find_is(list, list[i], i);
    }
    assert forall|c: char| #[trigger] rank(c) <= unranked() by {
        lemma_find_properties(list, to_lower(c));
    }
    assert forall|c: char| #[trigger]
        rank(c) == unranked() <==> !list.contains(to_lower(c)) by {
        lemma_find_absent(list, to_lower(c));
        lemma_find_properties(list, to_lower(c));
    }
}

/// The small letter of an ASCII capital; any other character unchanged.
pub fn lower_of(c: char) -> (l: char)
    ensures
        l == to_lower(c),
{
    if 'A' <= c && c <= 'Z' {
        ((c as u8) + 32) as char
    } else {
        c
    }
}

/// The rank of a character.
pub fn rank_of(c: char) -> (r: usize)
    ensures
        r == rank(c),
{
    let l = lower_of(c);
    let list: [char; 26] = [
        'a', 'i', 'u', 'e', 'o',
        'k', 'c', 's', 't', 'n', 'h', 'm', 'y', 'r', 'w',
        'g', 'z', 'd', 'b', 'p',
        'f', 'j', 'v', 'q',
        'l', 'x',
    ];
    assert(list@ =~= priority_list());
    let mut i: usize = 0;
    while i < 26 && list[i] != l
        invariant
            0 <= i <= 26,
            list@ == priority_list(),
            forall|k: int| 0 <= k < i ==> list@[k] != l,
        decreases 26 - i,
    {
        i += 1;
    }
    proof {
        lemma_find_is(priority_list(), l, i as int);
    }
    i
}

/// Whether key `a` comes before key `b`.
pub fn key_less(a: &Vec<usize>, b: &Vec<usize>) -> (less: bool)
    ensures
        less == key_lt(a@, b@),
{
    let mut i: usize = 0;
    while i < a.len() && i < b.len() && a[i] == b[i]
        invariant
            0 <= i <= a.len(),
            i <= b.len(),
            forall|k: int| 0 <= k < i ==> a@[k] == b@[k],
        decreases a.len() - i,
    {
        i += 1;
    }
    proof {
        lemma_common_prefix_is(a@, b@, i as int);
    }
    i < b.len() && (i == a.len() || a[i] < b[i])
}

} // verus!
