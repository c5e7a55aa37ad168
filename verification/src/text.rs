//! Character-level text utilities for the search engine: whitespace tests,
//! case folding, line splitting, and overlap-inclusive substring scanning.

use vstd::prelude::*;
use vstd::string::StrSliceExecFns;

verus! {

/// The Unicode `White_Space` characters, as std's documentation lists them
/// for `char::is_whitespace`.
pub open spec fn is_space(c: char) -> bool {
    ||| c == '\u{0009}'
    ||| c == '\u{000A}'
    ||| c == '\u{000B}'
    ||| c == '\u{000C}'
    ||| c == '\u{000D}'
    ||| c == '\u{0020}'
    ||| c == '\u{0085}'
    ||| c == '\u{00A0}'
    ||| c == '\u{1680}'
    ||| c == '\u{2000}'
    ||| c == '\u{2001}'
    ||| c == '\u{2002}'
    ||| c == '\u{2003}'
    ||| c == '\u{2004}'
    ||| c == '\u{2005}'
    ||| c == '\u{2006}'
    ||| c == '\u{2007}'
    ||| c == '\u{2008}'
    ||| c == '\u{2009}'
    ||| c == '\u{200A}'
    ||| c == '\u{2028}'
    ||| c == '\u{2029}'
    ||| c == '\u{202F}'
    ||| c == '\u{205F}'
    ||| c == '\u{3000}'
}

pub fn is_space_char(c: char) -> (r: bool)
    ensures
        r == is_space(c),
{
    c == '\u{0009}' || c == '\u{000A}' || c == '\u{000B}' || c == '\u{000C}' || c == '\u{000D}'
        || c == '\u{0020}' || c == '\u{0085}' || c == '\u{00A0}' || c == '\u{1680}'
        || c == '\u{2000}' || c == '\u{2001}' || c == '\u{2002}' || c == '\u{2003}'
        || c == '\u{2004}' || c == '\u{2005}' || c == '\u{2006}' || c == '\u{2007}'
        || c == '\u{2008}' || c == '\u{2009}' || c == '\u{200A}' || c == '\u{2028}'
        || c == '\u{2029}' || c == '\u{202F}' || c == '\u{205F}' || c == '\u{3000}'
}

/// A string is blank when every character is whitespace; the empty string is
/// blank.
pub open spec fn is_blank(s: Seq<char>) -> bool {
    forall|i: int| 0 <= i < s.len() ==> is_space(s[i])
}

pub fn check_blank(s: &str) -> (r: bool)
    ensures
        r == is_blank(s@),
{
    let n = s.unicode_len();
    let mut i: usize = 0;
    while i < n
        invariant
            0 <= i <= n == s@.len(),
            forall|j: int| 0 <= j < i ==> is_space(s@[j]),
        decreases n - i,
    {
        if !is_space_char(s.get_char(i)) {
            return false;
        }
        i += 1;
    }
    true
}

/// The characters of a string, as a vector.
pub fn chars_of(s: &str) -> (r: Vec<char>)
    ensures
        r@ == s@,
{
    let n = s.unicode_len();
    let mut r: Vec<char> = Vec::new();
    let mut i: usize = 0;
    while i < n
        invariant
            0 <= i <= n == s@.len(),
            r@ == s@.subrange(0, i as int),
        decreases n - i,
    {
        r.push(s.get_char(i));
        i += 1;
        proof {
            assert(r@ =~= s@.subrange(0, i as int));
        }
    }
    proof {
        assert(r@ =~= s@);
    }
    r
}

/// What `str::to_lowercase` returns on the characters of `s`.
pub uninterp spec fn lower_of(s: Seq<char>) -> Seq<char>;

/// Relies on `str::to_lowercase`: the result is a function of the input
/// characters alone (Unicode lowercasing, no locale); every character maps to
/// one or more characters, so the result is empty exactly when the input is.
#[verifier::external_body]
pub fn to_lower(s: &str) -> (r: String)
    ensures
        r@ == lower_of(s@),
        s@.len() == 0 <==> r@.len() == 0,
{
    s.to_lowercase()
}

/// The index of the first newline in `s`, or `s.len()` if there is none.
pub open spec fn first_newline(s: Seq<char>) -> int
    decreases s.len(),
{
    if s.len() == 0 {
        0
    } else if s[0] == '\n' {
        0
    } else {
        1 + first_newline(s.drop_first())
    }
}

pub proof fn lemma_first_newline(s: Seq<char>)
    ensures
        0 <= first_newline(s) <= s.len(),
        first_newline(s) < s.len() ==> s[first_newline(s)] == '\n',
        forall|j: int| 0 <= j < first_newline(s) ==> s[j] != '\n',
    decreases s.len(),
{
    if s.len() > 0 && s[0] != '\n' {
        lemma_first_newline(s.drop_first());
        assert forall|j: int| 0 <= j < first_newline(s) implies s[j] != '\n' by {
            if j > 0 {
                assert(s.drop_first()[j - 1] == s[j]);
            }
        }
    }
}

/// A line with one trailing carriage return removed, as `str::lines` strips it.
pub open spec fn strip_cr(l: Seq<char>) -> Seq<char> {
    if l.len() > 0 && l.last() == '\r' {
        l.drop_last()
    } else {
        l
    }
}

/// The lines of `s`, split at `'\n'`; a segment that a newline terminated is
/// stripped of one trailing `'\r'`, while a final unterminated segment keeps
/// its characters; a trailing newline does not open a final empty line.
pub open spec fn lines_of(s: Seq<char>) -> Seq<Seq<char>>
    decreases s.len(),
    via lines_of_dec
{
    if s.len() == 0 {
        seq![]
    } else {
        let k = first_newline(s);
        if k == s.len() {
            seq![s]
        } else {
            seq![strip_cr(s.subrange(0, k))] + lines_of(s.subrange(k + 1, s.len() as int))
        }
    }
}

#[via_fn]
proof fn lines_of_dec(s: Seq<char>) {
    lemma_first_newline(s);
}

pub open spec fn lines_view(v: Seq<String>) -> Seq<Seq<char>> {
    Seq::new(v.len(), |i: int| v[i]@)
}

/// Finds the first newline of `s`, or its length if there is none.
fn find_newline(s: &str) -> (k: usize)
    ensures
        k as int == first_newline(s@),
        k <= s@.len(),
{
    let n = s.unicode_len();
    let mut k: usize = 0;
    while k < n
        invariant
            0 <= k <= n == s@.len(),
            forall|j: int| 0 <= j < k ==> s@[j] != '\n',
        decreases n - k,
    {
        if s.get_char(k) == '\n' {
            proof {
                lemma_first_newline(s@);
                assert(k as int == first_newline(s@)) by {
                    if first_newline(s@) < k {
                        assert(s@[first_newline(s@)] == '\n');
                    }
                }
            }
            return k;
        }
        k += 1;
    }
    proof {
        lemma_first_newline(s@);
        assert(k as int == first_newline(s@)) by {
            if first_newline(s@) < k {
                assert(s@[first_newline(s@)] == '\n');
            }
        }
    }
    k
}

/// Splits a string into its lines, matching `lines_of` on the view.
pub fn split_lines(s: &str) -> (r: Vec<String>)
    ensures
        lines_view(r@) == lines_of(s@),
    decreases s@.len(),
{
    let ghost sv = s@;
    let n = s.unicode_len();
    if n == 0 {
        let r: Vec<String> = Vec::new();
        proof {
            assert(lines_view(r@) =~= lines_of(sv));
        }
        return r;
    }
    let k = find_newline(s);
    // a newline-terminated segment loses one trailing '\r'; the final
    // unterminated segment keeps its characters
    let line_end: usize = if k < n && k > 0 && s.get_char(k - 1) == '\r' {
        k - 1
    } else {
        k
    };
    let line = s.substring_char(0, line_end);
    let head = String::from_str(line);
    proof {
        if k == n {
            assert(head@ =~= sv);
        } else {
            assert(sv.subrange(0, k as int).len() == k as int);
            if k > 0 && sv[k as int - 1] == '\r' {
                assert(sv.subrange(0, k as int).last() == sv[k as int - 1]);
                assert(head@ =~= strip_cr(sv.subrange(0, k as int)));
            } else {
                if k > 0 {
                    assert(sv.subrange(0, k as int).last() == sv[k as int - 1]);
                }
                assert(head@ =~= strip_cr(sv.subrange(0, k as int)));
            }
        }
    }
    if k == n {
        let mut r: Vec<String> = Vec::new();
        r.push(head);
        proof {
            assert(lines_view(r@) =~= lines_of(sv));
        }
        r
    } else {
        let rest = s.substring_char(k + 1, n);
        let mut r = split_lines(rest);
        r.insert(0, head);
        proof {
            assert(lines_view(r@) =~= lines_of(sv));
        }
        r
    }
}

/// The query occurs in `line` at position `i`.
pub open spec fn is_hit(line: Seq<char>, q: Seq<char>, i: int) -> bool {
    0 <= i && i + q.len() <= line.len() && line.subrange(i, i + q.len()) == q
}

/// Every occurrence position of `q` in `line` at or after `i`, in increasing
/// order; overlapping occurrences are all included.
pub open spec fn hits_from(line: Seq<char>, q: Seq<char>, i: int) -> Seq<int>
    decreases line.len() - i,
    when 0 <= i && 1 <= q.len()
{
    if i + q.len() > line.len() {
        seq![]
    } else if is_hit(line, q, i) {
        seq![i] + hits_from(line, q, i + 1)
    } else {
        hits_from(line, q, i + 1)
    }
}

/// Every occurrence position of `q` in `line`, in increasing order.
pub open spec fn hits(line: Seq<char>, q: Seq<char>) -> Seq<int> {
    hits_from(line, q, 0)
}

/// `q` occurs somewhere in `s`.
pub open spec fn has_substring(s: Seq<char>, q: Seq<char>) -> bool {
    exists|i: int| is_hit(s, q, i)
}

/// Compares `line[i .. i + q.len()]` against `q`.
fn match_at(line: &Vec<char>, q: &Vec<char>, i: usize) -> (r: bool)
    requires
        i + q@.len() <= line@.len(),
    ensures
        r == is_hit(line@, q@, i as int),
{
    let m = q.len();
    let n = line.len();
    let mut j: usize = 0;
    while j < m
        invariant
            0 <= j <= m == q@.len(),
            n == line@.len(),
            i + m <= line@.len(),
            forall|t: int| 0 <= t < j ==> line@[i + t] == q@[t],
        decreases m - j,
    {
        proof {
            assert(i + j < line@.len());
        }
        if line[i + j] != q[j] {
            proof {
                assert(line@.subrange(i as int, i + m) != q@) by {
                    assert(line@.subrange(i as int, i + m)[j as int] == line@[i + j]);
                }
            }
            return false;
        }
        j += 1;
    }
    proof {
        assert(line@.subrange(i as int, i + m) =~= q@);
    }
    true
}

/// Finds every occurrence of `q` in `line`, left to right, overlap-inclusive.
pub fn find_hits(line: &Vec<char>, q: &Vec<char>) -> (r: Vec<usize>)
    requires
        q@.len() >= 1,
    ensures
        r@.map_values(|x: usize| x as int) == hits(line@, q@),
{
    let mut r: Vec<usize> = Vec::new();
    if q.len() > line.len() {
        proof {
            assert(r@.map_values(|x: usize| x as int) =~= hits(line@, q@));
        }
        return r;
    }
    let last_start = line.len() - q.len();
    let mut i: usize = 0;
    while i <= last_start
        invariant
            0 <= i <= last_start + 1,
            last_start < usize::MAX,
            q@.len() >= 1,
            last_start == line@.len() - q@.len(),
            r@.map_values(|x: usize| x as int) + hits_from(line@, q@, i as int) == hits(
                line@,
                q@,
            ),
        decreases last_start + 1 - i,
    {
        let ghost pre = r@;
        if match_at(line, q, i) {
            r.push(i);
            proof {
                assert(r@.map_values(|x: usize| x as int) =~= pre.map_values(|x: usize| x as int)
                    + seq![i as int]);
            }
        }
        i += 1;
        proof {
            assert(r@.map_values(|x: usize| x as int) + hits_from(line@, q@, i as int) =~= hits(
                line@,
                q@,
            ));
        }
    }
    proof {
        assert(hits_from(line@, q@, i as int) =~= Seq::<int>::empty());
        assert(r@.map_values(|x: usize| x as int) =~= hits(line@, q@));
    }
    r
}

/// Decides whether `q` occurs in `s`.
pub fn contains_sub(s: &Vec<char>, q: &Vec<char>) -> (r: bool)
    requires
        q@.len() >= 1,
    ensures
        r == has_substring(s@, q@),
{
    if q.len() > s.len() {
        proof {
            assert forall|i: int| !is_hit(s@, q@, i) by {}
        }
        return false;
    }
    let last_start = s.len() - q.len();
    let mut i: usize = 0;
    while i <= last_start
        invariant
            0 <= i <= last_start + 1,
            last_start < usize::MAX,
            q@.len() >= 1,
            last_start == s@.len() - q@.len(),
            forall|j: int| 0 <= j < i ==> !is_hit(s@, q@, j),
        decreases last_start + 1 - i,
    {
        if match_at(s, q, i) {
            return true;
        }
        i += 1;
    }
    proof {
        assert forall|j: int| !is_hit(s@, q@, j) by {
            if 0 <= j < i {
            }
        }
    }
    false
}

} // verus!
