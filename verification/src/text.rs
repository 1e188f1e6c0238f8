//! Character-level helpers shared by the YAML reader and writer: which
//! characters may stand in configuration strings, conversion between
//! strings and character vectors, and splitting a text into lines.

use vstd::prelude::*;
use vstd::slice::{slice_subrange, slice_to_vec};
use vstd::string::StrSliceExecFns;

verus! {

/// Characters allowed in configuration strings. The YAML writer quotes
/// strings without escaping, so quotes, backslashes and line breaks are
/// excluded.
pub open spec fn yaml_safe_char(c: char) -> bool {
    c != '"' && c != '\\' && c != '\n' && c != '\r'
}

/// A string is safe to serialize when every character is.
pub open spec fn yaml_safe(s: Seq<char>) -> bool {
    forall|i: int| 0 <= i < s.len() ==> yaml_safe_char(#[trigger] s[i])
}

/// A line holds no line break.
pub open spec fn line_free(l: Seq<char>) -> bool {
    forall|i: int| 0 <= i < l.len() ==> #[trigger] l[i] != '\n'
}

pub open spec fn all_line_free(ls: Seq<Seq<char>>) -> bool {
    forall|i: int| 0 <= i < ls.len() ==> line_free(#[trigger] ls[i])
}

/// Collects the characters of a string slice into a vector, one element
/// per character.
pub fn str_to_chars(s: &str) -> (v: Vec<char>)
    ensures
        v@ == s@,
{
    let n: usize = s.unicode_len();
    let mut v: Vec<char> = Vec::new();
    let mut i: usize = 0;
    while i < n
        invariant
            n == s@.len(),
            i <= n,
            v@ == s@.take(i as int),
        decreases n - i,
    {
        let c = s.get_char(i);
        v.push(c);
        i = i + 1;
        proof {
            assert(v@ =~= s@.take(i as int));
        }
    }
    proof {
        assert(s@.take(n as int) =~= s@);
    }
    v
}

/// Builds the string of exactly these characters, in order.
/// Relies on `String`'s `FromIterator<char>` implementation (`collect`),
/// which std documents as concatenating the characters of the iterator.
#[verifier::external_body]
pub fn chars_to_string(v: &Vec<char>) -> (s: String)
    ensures
        s@ == v@,
{
    v.iter().collect()
}

/// Tests whether a character vector holds only serializable characters.
pub fn chars_are_yaml_safe(v: &Vec<char>) -> (r: bool)
    ensures
        r == yaml_safe(v@),
{
    let mut i: usize = 0;
    while i < v.len()
        invariant
            i <= v@.len(),
            forall|j: int| 0 <= j < i ==> yaml_safe_char(#[trigger] v@[j]),
        decreases v@.len() - i,
    {
        let c = v[i];
        if c == '"' || c == '\\' || c == '\n' || c == '\r' {
            return false;
        }
        i = i + 1;
    }
    true
}

/// Tests whether every character of a string is serializable.
pub fn str_is_yaml_safe(s: &str) -> (r: bool)
    ensures
        r == yaml_safe(s@),
{
    let v = str_to_chars(s);
    chars_are_yaml_safe(&v)
}

/// Index of the first occurrence of `c` in `s`, or `s.len()` if absent.
pub open spec fn find_char(s: Seq<char>, c: char) -> int
    decreases s.len(),
{
    if s.len() == 0 {
        0
    } else if s[0] == c {
        0
    } else {
        1 + find_char(s.skip(1), c)
    }
}

pub proof fn lemma_find_char(s: Seq<char>, c: char)
    ensures
        0 <= find_char(s, c) <= s.len(),
        find_char(s, c) < s.len() ==> s[find_char(s, c)] == c,
        forall|j: int| 0 <= j < find_char(s, c) ==> #[trigger] s[j] != c,
    decreases s.len(),
{
    if s.len() != 0 && s[0] != c {
        lemma_find_char(s.skip(1), c);
        assert forall|j: int| 0 <= j < find_char(s, c) implies #[trigger] s[j] != c by {
            if j > 0 {
                assert(s[j] == s.skip(1)[j - 1]);
            }
        }
    }
}

/// If the first `k` characters are not `c` and position `k` is the end or
/// holds `c`, then `k` is where `find_char` stops.
pub proof fn lemma_find_char_at(s: Seq<char>, c: char, k: int)
    requires
        0 <= k <= s.len(),
        forall|j: int| 0 <= j < k ==> #[trigger] s[j] != c,
        k == s.len() || s[k] == c,
    ensures
        find_char(s, c) == k,
    decreases k,
{
    if k == 0 {
        if s.len() != 0 && s[0] != c {
            lemma_find_char(s, c);
        }
    } else {
        assert(s[0] != c);
        lemma_find_char_at(s.skip(1), c, k - 1);
    }
}

/// Joins lines with a newline after each line.
pub open spec fn unlines(ls: Seq<Seq<char>>) -> Seq<char>
    decreases ls.len(),
{
    if ls.len() == 0 {
        Seq::empty()
    } else {
        ls[0] + seq!['\n'] + unlines(ls.skip(1))
    }
}

#[via_fn]
proof fn split_lines_decreases(s: Seq<char>) {
    lemma_find_char(s, '\n');
}

/// Splits a text into lines. A final fragment without a closing newline
/// counts as a line; a closing newline adds no empty line.
pub open spec fn split_lines(s: Seq<char>) -> Seq<Seq<char>>
    decreases s.len(),
    via split_lines_decreases
{
    if s.len() == 0 {
        Seq::empty()
    } else {
        let i = find_char(s, '\n');
        if i == s.len() {
            seq![s]
        } else {
            seq![s.take(i)] + split_lines(s.skip(i + 1))
        }
    }
}

/// Splitting undoes joining, for lines that hold no newline.
pub proof fn lemma_split_unlines(ls: Seq<Seq<char>>)
    requires
        all_line_free(ls),
    ensures
        split_lines(unlines(ls)) == ls,
    decreases ls.len(),
{
    if ls.len() == 0 {
        assert(split_lines(unlines(ls)) =~= ls);
    } else {
        let l0 = ls[0];
        let rest = unlines(ls.skip(1));
        let s = unlines(ls);
        assert(s == l0 + seq!['\n'] + rest);
        lemma_find_char_at(s, '\n', l0.len() as int);
        assert(find_char(s, '\n') == l0.len());
        assert(l0.len() < s.len());
        assert(s.take(l0.len() as int) =~= l0);
        assert(s.skip(l0.len() as int + 1) =~= rest);
        lemma_split_unlines(ls.skip(1));
        assert(split_lines(s) =~= ls);
    }
}

/// Splits a character vector into its lines.
pub fn split_lines_exec(s: &Vec<char>) -> (lines: Vec<Vec<char>>)
    ensures
        lines.deep_view() == split_lines(s@),
{
    let n: usize = s.len();
    let mut lines: Vec<Vec<char>> = Vec::new();
    let mut pos: usize = 0;
    proof {
        assert(s@.skip(0) =~= s@);
        assert(lines.deep_view() + split_lines(s@.skip(0)) =~~= split_lines(s@));
    }
    while pos < n
        invariant
            pos <= n,
            n == s@.len(),
            lines.deep_view() + split_lines(s@.skip(pos as int)) =~~= split_lines(s@),
        decreases n - pos,
    {
        let ghost prev_lines = lines.deep_view();
        let ghost start = pos as int;
        let ghost tail = s@.skip(pos as int);
        let mut j: usize = pos;
        while j < n && s[j] != '\n'
            invariant
                pos <= j <= n,
                n == s@.len(),
                forall|k: int| pos <= k < j ==> #[trigger] s@[k] != '\n',
            decreases n - j,
        {
            j = j + 1;
        }
        proof {
            assert forall|k: int| 0 <= k < j - start implies #[trigger] tail[k] != '\n' by {
                assert(tail[k] == s@[start + k]);
            }
            if j < n {
                assert(tail[j - start] == s@[j as int]);
            }
            lemma_find_char_at(tail, '\n', j - start);
        }
        let line = slice_to_vec(slice_subrange(s.as_slice(), pos, j));
        lines.push(line);
        proof {
            assert(line@ =~= tail.take(j - start));
            assert(line.deep_view() =~= line@);
            assert(lines.deep_view() =~~= prev_lines + seq![line@]);
        }
        if j == n {
            pos = n;
            proof {
                assert(tail.take(j - start) =~= tail);
                assert(split_lines(tail) == seq![tail]);
                assert(split_lines(s@.skip(n as int)) =~= Seq::<Seq<char>>::empty());
                assert(lines.deep_view() + split_lines(s@.skip(n as int)) =~~= split_lines(s@));
            }
        } else {
            pos = j + 1;
            proof {
                assert(split_lines(tail) == seq![tail.take(j - start)] + split_lines(
                    tail.skip(j - start + 1),
                ));
                assert(tail.skip(j - start + 1) =~= s@.skip(pos as int));
                assert(lines.deep_view() + split_lines(s@.skip(pos as int)) =~~= split_lines(s@));
            }
        }
    }
    proof {
        assert(split_lines(s@.skip(n as int)) =~= Seq::<Seq<char>>::empty());
        assert(lines.deep_view() =~~= split_lines(s@));
    }
    lines
}

} // verus!

