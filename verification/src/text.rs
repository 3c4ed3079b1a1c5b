//! Character-level string helpers with exact specifications.
//!
//! Text is handled as sequences of `char`; the specifications below say what
//! `str::trim`, `str::lines`, `str::contains` and friends compute, and the
//! executable functions are proved to compute exactly that.

use vstd::prelude::*;

verus! {

/// The characters of a string slice, in order.
pub fn chars_of(s: &str) -> (r: Vec<char>)
    ensures
        r@ == s@,
{
    broadcast use vstd::string::axiom_spec_iter;
    let mut r: Vec<char> = Vec::new();
    for c in it: s.chars()
        invariant
            r@ == it.seq().subrange(0, it.index() as int),
    {
        r.push(c);
    }
    r
}

/// Calls `String::from_iter` on the characters. Claims the string holds
/// exactly those characters, in order.
#[verifier::external_body]
pub(crate) fn string_of(cs: &[char]) -> (r: String)
    ensures
        r@ == cs@,
{
    String::from_iter(cs)
}

/// Code point of a character after ASCII lower-casing; other characters keep their code.
pub open spec fn ascii_lower(c: char) -> u32 {
    if 'A' <= c && c <= 'Z' {
        ((c as u32) + 32) as u32
    } else {
        c as u32
    }
}

/// The code of a character with ASCII upper-case letters lowered.
pub fn ascii_lower_exec(c: char) -> (r: u32)
    ensures
        r == ascii_lower(c),
{
    if 'A' <= c && c <= 'Z' {
        (c as u32) + 32
    } else {
        c as u32
    }
}

/// Whether `s` equals `word` once ASCII upper-case letters are lowered on both sides.
pub open spec fn eq_ignore_ascii_case(s: Seq<char>, word: Seq<char>) -> bool {
    &&& s.len() == word.len()
    &&& forall|i: int| 0 <= i < s.len() ==> ascii_lower(#[trigger] s[i]) == ascii_lower(word[i])
}

/// Whether two texts are equal once ASCII letters are lowered.
pub fn eq_ignore_ascii_case_exec(s: &[char], word: &[char]) -> (r: bool)
    ensures
        r == eq_ignore_ascii_case(s@, word@),
{
    if s.len() != word.len() {
        return false;
    }
    let mut i: usize = 0;
    while i < s.len()
        invariant
            s@.len() == word@.len(),
            0 <= i <= s@.len(),
            forall|j: int| 0 <= j < i ==> ascii_lower(#[trigger] s@[j]) == ascii_lower(word@[j]),
        decreases s@.len() - i,
    {
        if ascii_lower_exec(s[i]) != ascii_lower_exec(word[i]) {
            return false;
        }
        i += 1;
    }
    true
}

/// The Unicode `White_Space` property, which `char::is_whitespace` tests.
pub open spec fn is_ws(c: char) -> bool {
    ||| ('\u{9}' <= c && c <= '\u{d}')
    ||| c == ' '
    ||| c == '\u{85}'
    ||| c == '\u{a0}'
    ||| c == '\u{1680}'
    ||| ('\u{2000}' <= c && c <= '\u{200a}')
    ||| c == '\u{2028}'
    ||| c == '\u{2029}'
    ||| c == '\u{202f}'
    ||| c == '\u{205f}'
    ||| c == '\u{3000}'
}

/// Whether a character is white space.
pub fn is_ws_exec(c: char) -> (r: bool)
    ensures
        r == is_ws(c),
{
    ('\u{9}' <= c && c <= '\u{d}') || c == ' ' || c == '\u{85}' || c == '\u{a0}' || c
        == '\u{1680}' || ('\u{2000}' <= c && c <= '\u{200a}') || c == '\u{2028}' || c
        == '\u{2029}' || c == '\u{202f}' || c == '\u{205f}' || c == '\u{3000}'
}

/// First index at or after `i` whose character is not white space (or the length).
pub open spec fn skip_ws(s: Seq<char>, i: int) -> int
    decreases s.len() - i,
{
    if 0 <= i < s.len() && is_ws(s[i]) {
        skip_ws(s, i + 1)
    } else {
        i
    }
}

/// Going down from `j` while staying above `lo`, the end of the last non-white-space character.
pub open spec fn back_ws(s: Seq<char>, lo: int, j: int) -> int
    decreases j - lo,
{
    if lo < j && j <= s.len() && is_ws(s[j - 1]) {
        back_ws(s, lo, j - 1)
    } else {
        j
    }
}

/// What `str::trim` returns: the text without leading and trailing white space.
pub open spec fn trim(s: Seq<char>) -> Seq<char> {
    let a = skip_ws(s, 0);
    s.subrange(a, back_ws(s, a, s.len() as int))
}

/// Bounds of `skip_ws`, and what it skips and stops at.
pub proof fn lemma_skip_ws_bounds(s: Seq<char>, i: int)
    requires
        0 <= i <= s.len(),
    ensures
        i <= skip_ws(s, i) <= s.len(),
        forall|k: int| i <= k < skip_ws(s, i) ==> is_ws(#[trigger] s[k]),
        skip_ws(s, i) < s.len() ==> !is_ws(s[skip_ws(s, i)]),
    decreases s.len() - i,
{
    if i < s.len() && is_ws(s[i]) {
        lemma_skip_ws_bounds(s, i + 1);
    }
}

/// Bounds of `back_ws`, and what it passes over and stops at.
pub proof fn lemma_back_ws_bounds(s: Seq<char>, lo: int, j: int)
    requires
        0 <= lo <= j <= s.len(),
    ensures
        lo <= back_ws(s, lo, j) <= j,
        forall|k: int| back_ws(s, lo, j) <= k < j ==> is_ws(#[trigger] s[k]),
        back_ws(s, lo, j) > lo ==> !is_ws(s[back_ws(s, lo, j) - 1]),
    decreases j - lo,
{
    if lo < j && is_ws(s[j - 1]) {
        lemma_back_ws_bounds(s, lo, j - 1);
    }
}

/// The characters `s[a..b]` as a new vector.
pub fn slice_chars(s: &[char], a: usize, b: usize) -> (r: Vec<char>)
    requires
        a <= b <= s@.len(),
    ensures
        r@ == s@.subrange(a as int, b as int),
{
    let mut r: Vec<char> = Vec::new();
    let mut i = a;
    while i < b
        invariant
            a <= i <= b <= s@.len(),
            r@ == s@.subrange(a as int, i as int),
        decreases b - i,
    {
        r.push(s[i]);
        i += 1;
    }
    r
}

/// The text without leading and trailing white space.
pub fn trim_exec(s: &[char]) -> (r: Vec<char>)
    ensures
        r@ == trim(s@),
{
    let mut a: usize = 0;
    while a < s.len() && is_ws_exec(s[a])
        invariant
            0 <= a <= s@.len(),
            skip_ws(s@, a as int) == skip_ws(s@, 0),
        decreases s@.len() - a,
    {
        a += 1;
    }
    let mut b: usize = s.len();
    while b > a && is_ws_exec(s[b - 1])
        invariant
            a <= b <= s@.len(),
            a == skip_ws(s@, 0),
            back_ws(s@, a as int, b as int) == back_ws(s@, a as int, s@.len() as int),
        decreases b - a,
    {
        b -= 1;
    }
    slice_chars(s, a, b)
}

/// What `str::trim_end` returns: the text without trailing white space.
pub open spec fn trim_end(s: Seq<char>) -> Seq<char> {
    s.subrange(0, back_ws(s, 0, s.len() as int))
}

/// The text without trailing white space.
pub fn trim_end_exec(s: &[char]) -> (r: Vec<char>)
    ensures
        r@ == trim_end(s@),
{
    let mut b: usize = s.len();
    while b > 0 && is_ws_exec(s[b - 1])
        invariant
            b <= s@.len(),
            back_ws(s@, 0, b as int) == back_ws(s@, 0, s@.len() as int),
        decreases b,
    {
        b -= 1;
    }
    slice_chars(s, 0, b)
}

/// Whether `s` begins with `p`.
pub open spec fn starts_with(s: Seq<char>, p: Seq<char>) -> bool {
    p.len() <= s.len() && s.subrange(0, p.len() as int) == p
}

/// Whether `s` ends with `p`.
pub open spec fn ends_with(s: Seq<char>, p: Seq<char>) -> bool {
    p.len() <= s.len() && s.subrange(s.len() - p.len(), s.len() as int) == p
}

/// Whether `p` occurs in `s` at position `i`.
pub open spec fn occurs_at(s: Seq<char>, p: Seq<char>, i: int) -> bool {
    0 <= i && i + p.len() <= s.len() && s.subrange(i, i + p.len()) == p
}

/// Whether `p` occurs anywhere in `s`, as `str::contains` tests.
pub open spec fn contains(s: Seq<char>, p: Seq<char>) -> bool {
    exists|i: int| occurs_at(s, p, i)
}

/// Whether `p` occurs in `s` at index `i`.
pub fn occurs_at_exec(s: &[char], p: &[char], i: usize) -> (r: bool)
    ensures
        r == occurs_at(s@, p@, i as int),
{
    if i > s.len() || p.len() > s.len() - i {
        return false;
    }
    let n = s.len();
    let mut k: usize = 0;
    while k < p.len()
        invariant
            n == s@.len(),
            i + p@.len() <= s@.len(),
            0 <= k <= p@.len(),
            forall|j: int| 0 <= j < k ==> s@[i + j] == p@[j],
        decreases p@.len() - k,
    {
        assert(i + k < s@.len());
        if s[i + k] != p[k] {
            assert(s@.subrange(i as int, i + p@.len())[k as int] != p@[k as int]);
            return false;
        }
        k += 1;
    }
    assert(s@.subrange(i as int, i + p@.len()) =~= p@);
    true
}

/// Whether `s` begins with `p`.
pub fn starts_with_exec(s: &[char], p: &[char]) -> (r: bool)
    ensures
        r == starts_with(s@, p@),
{
    occurs_at_exec(s, p, 0)
}

/// Whether `s` ends with `p`.
pub fn ends_with_exec(s: &[char], p: &[char]) -> (r: bool)
    ensures
        r == ends_with(s@, p@),
{
    if p.len() > s.len() {
        return false;
    }
    occurs_at_exec(s, p, s.len() - p.len())
}

/// Whether `p` occurs somewhere in `s`.
pub fn contains_exec(s: &[char], p: &[char]) -> (r: bool)
    ensures
        r == contains(s@, p@),
{
    if p.len() > s.len() {
        assert forall|i: int| !occurs_at(s@, p@, i) by {}
        return false;
    }
    let last = s.len() - p.len();
    let mut i: usize = 0;
    loop
        invariant
            last + p@.len() == s@.len(),
            0 <= i <= last,
            forall|j: int| 0 <= j < i ==> !occurs_at(s@, p@, j),
        ensures
            forall|j: int| 0 <= j <= last ==> !occurs_at(s@, p@, j),
        decreases last - i,
    {
        if occurs_at_exec(s, p, i) {
            return true;
        }
        if i == last {
            break;
        }
        i += 1;
    }
    assert forall|j: int| !occurs_at(s@, p@, j) by {
        if 0 <= j <= last {
        }
    }
    false
}

/// Index of the first `c` at or after `i`, or the length when there is none.
pub open spec fn find_from(s: Seq<char>, c: char, i: int) -> int
    decreases s.len() - i,
{
    if i < 0 || i >= s.len() {
        s.len() as int
    } else if s[i] == c {
        i
    } else {
        find_from(s, c, i + 1)
    }
}

/// Bounds of `find_from`, and the characters it passes over and stops at.
pub proof fn lemma_find_from(s: Seq<char>, c: char, i: int)
    requires
        0 <= i <= s.len(),
    ensures
        i <= find_from(s, c, i) <= s.len(),
        forall|k: int| i <= k < find_from(s, c, i) ==> #[trigger] s[k] != c,
        find_from(s, c, i) < s.len() ==> s[find_from(s, c, i)] == c,
    decreases s.len() - i,
{
    if i < s.len() && s[i] != c {
        lemma_find_from(s, c, i + 1);
    }
}

/// Index of the first `c` at or after `i`, or the length.
pub fn find_from_exec(s: &[char], c: char, i: usize) -> (r: usize)
    requires
        i <= s@.len(),
    ensures
        r == find_from(s@, c, i as int),
{
    let mut k = i;
    while k < s.len() && s[k] != c
        invariant
            i <= k <= s@.len(),
            find_from(s@, c, k as int) == find_from(s@, c, i as int),
        decreases s@.len() - k,
    {
        k += 1;
    }
    k
}

/// A line without the carriage return that ended it, as `str::lines` yields it.
pub open spec fn strip_cr(l: Seq<char>) -> Seq<char> {
    if l.len() > 0 && l.last() == '\r' {
        l.drop_last()
    } else {
        l
    }
}

/// What `str::lines` yields: pieces split at `\n`, a `\r` before the `\n`
/// dropped, and no empty piece after a final `\n`.
pub open spec fn lines(s: Seq<char>) -> Seq<Seq<char>>
    decreases s.len(),
{
    if s.len() == 0 {
        seq![]
    } else {
        let k = find_from(s, '\n', 0);
        if k >= s.len() || k < 0 {
            seq![s]
        } else {
            seq![strip_cr(s.subrange(0, k))] + lines(s.subrange(k + 1, s.len() as int))
        }
    }
}

/// Lines of `s` from position `i` on.
pub open spec fn lines_from(s: Seq<char>, i: int) -> Seq<Seq<char>> {
    lines(s.subrange(i, s.len() as int))
}

proof fn lemma_find_from_shift(s: Seq<char>, c: char, i: int, k: int)
    requires
        0 <= i <= k <= s.len(),
    ensures
        find_from(s.subrange(i, s.len() as int), c, k - i) == find_from(s, c, k) - i,
    decreases s.len() - k,
{
    if k < s.len() && s[k] != c {
        lemma_find_from_shift(s, c, i, k + 1);
    }
}

/// A line without its final carriage return.
pub fn strip_cr_exec(l: Vec<char>) -> (r: Vec<char>)
    ensures
        r@ == strip_cr(l@),
{
    let mut l = l;
    if l.len() > 0 && l[l.len() - 1] == '\r' {
        l.pop();
    }
    l
}

/// The lines of a text, as `str::lines` yields them.
pub fn lines_exec(s: &[char]) -> (r: Vec<Vec<char>>)
    ensures
        r@.map_values(|l: Vec<char>| l@) == lines(s@),
{
    let mut r: Vec<Vec<char>> = Vec::new();
    let mut i: usize = 0;
    assert(s@.subrange(0, s@.len() as int) =~= s@);
    assert(r@.map_values(|l: Vec<char>| l@) =~= Seq::<Seq<char>>::empty());
    while i < s.len()
        invariant
            0 <= i <= s@.len(),
            r@.map_values(|l: Vec<char>| l@) + lines_from(s@, i as int) == lines(s@),
        decreases s@.len() - i,
    {
        let k = find_from_exec(s, '\n', i);
        let ghost rest = s@.subrange(i as int, s@.len() as int);
        proof {
            lemma_find_from(s@, '\n', i as int);
            lemma_find_from_shift(s@, '\n', i as int, i as int);
            assert(find_from(rest, '\n', 0) == k - i);
        }
        let piece = slice_chars(s, i, k);
        if k == s.len() {
            proof {
                assert(piece@ == rest);
                assert(lines(rest) == seq![rest]);
            }
            r.push(piece);
            i = k;
            proof {
                assert(lines_from(s@, i as int) =~= seq![]);
                assert(r@.map_values(|l: Vec<char>| l@) =~= line_views(r@));
            }
        } else {
            let line = strip_cr_exec(piece);
            proof {
                assert(rest.subrange(0, k - i) =~= s@.subrange(i as int, k as int));
                assert(rest.subrange(k - i + 1, rest.len() as int) =~= s@.subrange(
                    k + 1,
                    s@.len() as int,
                ));
            }
            let ghost before = r@.map_values(|l: Vec<char>| l@);
            r.push(line);
            i = k + 1;
            proof {
                assert(r@.map_values(|l: Vec<char>| l@) =~= before.push(line@));
                assert(before.push(line@) + lines_from(s@, i as int) =~= before + (seq![line@]
                    + lines_from(s@, i as int)));
            }
        }
    }
    proof {
        assert(lines_from(s@, i as int) =~= seq![]);
        assert(r@.map_values(|l: Vec<char>| l@) + seq![] =~= r@.map_values(|l: Vec<char>| l@));
    }
    r
}

spec fn line_views(r: Seq<Vec<char>>) -> Seq<Seq<char>> {
    r.map_values(|l: Vec<char>| l@)
}

/// The text after leading and trailing `c`s are removed, as `str::trim_matches(c)` does.
pub open spec fn trim_char(s: Seq<char>, c: char) -> Seq<char> {
    let a = skip_char(s, c, 0);
    s.subrange(a, back_char(s, c, a, s.len() as int))
}

/// First index at or after `i` whose character is not `c` (or the length).
pub open spec fn skip_char(s: Seq<char>, c: char, i: int) -> int
    decreases s.len() - i,
{
    if 0 <= i < s.len() && s[i] == c {
        skip_char(s, c, i + 1)
    } else {
        i
    }
}

/// Going down from `j` while staying above `lo`, the end of the last character that is not `c`.
pub open spec fn back_char(s: Seq<char>, c: char, lo: int, j: int) -> int
    decreases j - lo,
{
    if lo < j && j <= s.len() && s[j - 1] == c {
        back_char(s, c, lo, j - 1)
    } else {
        j
    }
}

/// Bounds of `skip_char`.
pub proof fn lemma_skip_char_bounds(s: Seq<char>, c: char, i: int)
    requires
        0 <= i <= s.len(),
    ensures
        i <= skip_char(s, c, i) <= s.len(),
    decreases s.len() - i,
{
    if i < s.len() && s[i] == c {
        lemma_skip_char_bounds(s, c, i + 1);
    }
}

/// Bounds of `back_char`.
pub proof fn lemma_back_char_bounds(s: Seq<char>, c: char, lo: int, j: int)
    requires
        0 <= lo <= j <= s.len(),
    ensures
        lo <= back_char(s, c, lo, j) <= j,
    decreases j - lo,
{
    if lo < j && s[j - 1] == c {
        lemma_back_char_bounds(s, c, lo, j - 1);
    }
}

/// The text without leading and trailing `c`s.
pub fn trim_char_exec(s: &[char], c: char) -> (r: Vec<char>)
    ensures
        r@ == trim_char(s@, c),
{
    let mut a: usize = 0;
    while a < s.len() && s[a] == c
        invariant
            0 <= a <= s@.len(),
            skip_char(s@, c, a as int) == skip_char(s@, c, 0),
        decreases s@.len() - a,
    {
        a += 1;
    }
    let mut b: usize = s.len();
    while b > a && s[b - 1] == c
        invariant
            a <= b <= s@.len(),
            a == skip_char(s@, c, 0),
            back_char(s@, c, a as int, b as int) == back_char(s@, c, a as int, s@.len() as int),
        decreases b - a,
    {
        b -= 1;
    }
    slice_chars(s, a, b)
}

/// The pieces of `s` between occurrences of `c`, as `str::split(c)` yields them.
pub open spec fn split_char(s: Seq<char>, c: char) -> Seq<Seq<char>>
    decreases s.len(),
{
    let k = find_from(s, c, 0);
    if k >= s.len() || k < 0 {
        seq![s]
    } else {
        seq![s.subrange(0, k)] + split_char(s.subrange(k + 1, s.len() as int), c)
    }
}

/// The pieces of a text between occurrences of `c`.
pub fn split_char_exec(s: &[char], c: char) -> (r: Vec<Vec<char>>)
    ensures
        r@.map_values(|l: Vec<char>| l@) == split_char(s@, c),
{
    let mut r: Vec<Vec<char>> = Vec::new();
    let mut i: usize = 0;
    assert(s@.subrange(0, s@.len() as int) =~= s@);
    assert(r@.map_values(|l: Vec<char>| l@) =~= Seq::<Seq<char>>::empty());
    loop
        invariant
            0 <= i <= s@.len(),
            r@.map_values(|l: Vec<char>| l@) + split_char(s@.subrange(i as int, s@.len() as int), c)
                == split_char(s@, c),
        decreases s@.len() - i,
    {
        let k = find_from_exec(s, c, i);
        let ghost rest = s@.subrange(i as int, s@.len() as int);
        proof {
            lemma_find_from(s@, c, i as int);
            lemma_find_from_shift(s@, c, i as int, i as int);
            assert(find_from(rest, c, 0) == k - i);
        }
        let piece = slice_chars(s, i, k);
        let ghost before = r@.map_values(|l: Vec<char>| l@);
        if k == s.len() {
            proof {
                assert(piece@ =~= rest);
            }
            r.push(piece);
            proof {
                assert(r@.map_values(|l: Vec<char>| l@) =~= before.push(piece@));
                assert(before.push(piece@) =~= before + seq![rest]);
            }
            return r;
        } else {
            proof {
                assert(rest.subrange(0, k - i) =~= piece@);
                assert(rest.subrange(k - i + 1, rest.len() as int) =~= s@.subrange(
                    k + 1,
                    s@.len() as int,
                ));
            }
            r.push(piece);
            i = k + 1;
            proof {
                assert(r@.map_values(|l: Vec<char>| l@) =~= before.push(piece@));
                assert(before.push(piece@) + split_char(s@.subrange(i as int, s@.len() as int), c)
                    =~= before + (seq![piece@] + split_char(
                    s@.subrange(i as int, s@.len() as int),
                    c,
                )));
            }
        }
    }
}

/// Appends the characters of `t` to `v`.
pub fn push_all(v: &mut Vec<char>, t: &[char])
    ensures
        final(v)@ == old(v)@ + t@,
{
    let mut i: usize = 0;
    while i < t.len()
        invariant
            0 <= i <= t@.len(),
            v@ == old(v)@ + t@.subrange(0, i as int),
        decreases t@.len() - i,
    {
        v.push(t[i]);
        i += 1;
        proof {
            assert(t@.subrange(0, i as int) =~= t@.subrange(0, i - 1).push(t@[i - 1]));
        }
    }
    proof {
        assert(t@.subrange(0, i as int) =~= t@);
    }
}

/// Characters of a literal.
pub fn lit(s: &str) -> (r: Vec<char>)
    ensures
        r@ == s@,
{
    chars_of(s)
}

/// Whether two character sequences are equal.
pub fn chars_eq(a: &[char], b: &[char]) -> (r: bool)
    ensures
        r == (a@ == b@),
{
    if a.len() != b.len() {
        return false;
    }
    let mut i: usize = 0;
    while i < a.len()
        invariant
            a@.len() == b@.len(),
            0 <= i <= a@.len(),
            forall|j: int| 0 <= j < i ==> a@[j] == b@[j],
        decreases a@.len() - i,
    {
        if a[i] != b[i] {
            return false;
        }
        i += 1;
    }
    assert(a@ =~= b@);
    true
}

/// Whether two strings are equal.
pub fn str_eq(a: &str, b: &str) -> (r: bool)
    ensures
        r == (a@ == b@),
{
    let x = chars_of(a);
    let y = chars_of(b);
    chars_eq(x.as_slice(), y.as_slice())
}

/// `s` with every `from` character replaced by `to`.
pub open spec fn replace_char(s: Seq<char>, from: char, to: char) -> Seq<char> {
    s.map_values(|c: char| if c == from { to } else { c })
}

/// The text with every `from` replaced by `to`.
pub fn replace_char_exec(s: &[char], from: char, to: char) -> (r: Vec<char>)
    ensures
        r@ == replace_char(s@, from, to),
{
    let mut r: Vec<char> = Vec::new();
    let mut i: usize = 0;
    while i < s.len()
        invariant
            0 <= i <= s@.len(),
            r@ == replace_char(s@.subrange(0, i as int), from, to),
        decreases s@.len() - i,
    {
        let c = s[i];
        r.push(if c == from { to } else { c });
        i += 1;
        proof {
            assert(replace_char(s@.subrange(0, i as int), from, to) =~= replace_char(
                s@.subrange(0, i - 1),
                from,
                to,
            ).push(if c == from { to } else { c }));
        }
    }
    proof {
        assert(s@.subrange(0, i as int) =~= s@);
    }
    r
}

/// Each line followed by a newline, concatenated: `lines.join("\n") + "\n"` for a non-empty list.
pub open spec fn join_lines(ls: Seq<Seq<char>>) -> Seq<char>
    decreases ls.len(),
{
    if ls.len() == 0 {
        seq![]
    } else {
        join_lines(ls.drop_last()) + ls.last() + seq!['\n']
    }
}

/// `"true"` or `"false"`, as `bool` displays.
pub open spec fn bool_text(b: bool) -> Seq<char> {
    if b {
        "true"@
    } else {
        "false"@
    }
}

/// `"true"` or `"false"`.
pub fn bool_text_exec(b: bool) -> (r: Vec<char>)
    ensures
        r@ == bool_text(b),
{
    if b {
        lit("true")
    } else {
        lit("false")
    }
}

/// Each line followed by a newline, concatenated.
pub fn join_lines_exec(ls: &Vec<Vec<char>>) -> (r: Vec<char>)
    ensures
        r@ == join_lines(ls@.map_values(|l: Vec<char>| l@)),
{
    let ghost lv = ls@.map_values(|l: Vec<char>| l@);
    let mut r: Vec<char> = Vec::new();
    let mut i: usize = 0;
    assert(lv.subrange(0, 0) =~= Seq::<Seq<char>>::empty());
    while i < ls.len()
        invariant
            lv == ls@.map_values(|l: Vec<char>| l@),
            0 <= i <= ls@.len(),
            r@ == join_lines(lv.subrange(0, i as int)),
        decreases ls@.len() - i,
    {
        assert(lv.subrange(0, i + 1).drop_last() =~= lv.subrange(0, i as int));
        push_all(&mut r, ls[i].as_slice());
        r.push('\n');
        i += 1;
    }
    assert(lv.subrange(0, i as int) =~= lv);
    r
}

/// The character of a decimal digit.
pub open spec fn digit_char(d: int) -> char {
    if d == 0 {
        '0'
    } else if d == 1 {
        '1'
    } else if d == 2 {
        '2'
    } else if d == 3 {
        '3'
    } else if d == 4 {
        '4'
    } else if d == 5 {
        '5'
    } else if d == 6 {
        '6'
    } else if d == 7 {
        '7'
    } else if d == 8 {
        '8'
    } else {
        '9'
    }
}

/// The decimal text of a number, as `{}` displays it.
pub open spec fn decimal(n: nat) -> Seq<char>
    decreases n,
{
    if n < 10 {
        seq![digit_char(n as int)]
    } else {
        decimal(n / 10).push(digit_char((n % 10) as int))
    }
}

fn digit_char_exec(d: u64) -> (r: char)
    requires
        d < 10,
    ensures
        r == digit_char(d as int),
{
    if d == 0 {
        '0'
    } else if d == 1 {
        '1'
    } else if d == 2 {
        '2'
    } else if d == 3 {
        '3'
    } else if d == 4 {
        '4'
    } else if d == 5 {
        '5'
    } else if d == 6 {
        '6'
    } else if d == 7 {
        '7'
    } else if d == 8 {
        '8'
    } else {
        '9'
    }
}

/// The decimal text of a number.
pub fn decimal_exec(n: u64) -> (r: Vec<char>)
    ensures
        r@ == decimal(n as nat),
    decreases n,
{
    if n < 10 {
        vec![digit_char_exec(n)]
    } else {
        let mut v = decimal_exec(n / 10);
        v.push(digit_char_exec(n % 10));
        v
    }
}

/// `join_lines` seen from the front: the first line, a newline, then the rest.
pub proof fn lemma_join_lines_front(ls: Seq<Seq<char>>)
    requires
        ls.len() > 0,
    ensures
        join_lines(ls) == ls[0] + seq!['\n'] + join_lines(ls.drop_first()),
    decreases ls.len(),
{
    if ls.len() == 1 {
        assert(ls.drop_first() =~= Seq::<Seq<char>>::empty());
        assert(ls.drop_last() =~= Seq::<Seq<char>>::empty());
        assert(join_lines(ls) =~= ls[0] + seq!['\n'] + join_lines(ls.drop_first()));
    } else {
        lemma_join_lines_front(ls.drop_last());
        assert(ls.drop_last().drop_first() =~= ls.drop_first().drop_last());
        assert(ls.drop_last()[0] == ls[0]);
        assert(ls.drop_first().last() == ls.last());
        assert(join_lines(ls) =~= ls[0] + seq!['\n'] + join_lines(ls.drop_first()));
    }
}

/// Whether a line comes back unchanged from `str::lines` once written with a
/// newline after it: it holds no newline and does not end in a carriage return.
pub open spec fn is_whole_line(l: Seq<char>) -> bool {
    !l.contains('\n') && !(l.len() > 0 && l.last() == '\r')
}

/// Reading back lines written one per line gives the same lines.
pub proof fn lemma_lines_of_join(ls: Seq<Seq<char>>)
    requires
        forall|i: int| 0 <= i < ls.len() ==> is_whole_line(#[trigger] ls[i]),
    ensures
        lines(join_lines(ls)) == ls,
    decreases ls.len(),
{
    if ls.len() == 0 {
        assert(join_lines(ls) =~= Seq::<char>::empty());
        assert(lines(join_lines(ls)) =~= ls);
    } else {
        lemma_join_lines_front(ls);
        let x = ls[0];
        assert(is_whole_line(x));
        let rest = join_lines(ls.drop_first());
        let s = join_lines(ls);
        assert(s == x + seq!['\n'] + rest);
        assert(s[x.len() as int] == '\n');
        lemma_find_from(s, '\n', 0);
        let k = find_from(s, '\n', 0);
        assert(k <= x.len());
        if k < x.len() {
            assert(s[k] == x[k]);
            assert(x.contains('\n'));
        }
        assert(s.subrange(0, k) =~= x);
        assert(s.subrange(k + 1, s.len() as int) =~= rest);
        assert forall|i: int| 0 <= i < ls.drop_first().len() implies is_whole_line(
            #[trigger] ls.drop_first()[i],
        ) by {
            assert(ls.drop_first()[i] == ls[i + 1]);
        }
        lemma_lines_of_join(ls.drop_first());
        assert(strip_cr(x) == x);
        assert(lines(s) =~= seq![x] + ls.drop_first());
        assert(ls =~= seq![x] + ls.drop_first());
    }
}

/// Text that starts and ends with something other than white space is its own trim.
pub proof fn lemma_trim_unchanged(l: Seq<char>)
    requires
        l.len() > 0,
        !is_ws(l[0]),
        !is_ws(l.last()),
    ensures
        trim(l) == l,
{
    assert(skip_ws(l, 0) == 0);
    assert(back_ws(l, 0, l.len() as int) == l.len());
    assert(l.subrange(0, l.len() as int) =~= l);
}

proof fn lemma_first_newline_in_prefix(a: Seq<char>, b: Seq<char>)
    requires
        a.len() > 0,
        a.last() == '\n',
    ensures
        find_from(a + b, '\n', 0) == find_from(a, '\n', 0),
        0 <= find_from(a, '\n', 0) < a.len(),
{
    lemma_find_from(a, '\n', 0);
    lemma_find_from(a + b, '\n', 0);
    let k = find_from(a, '\n', 0);
    let k2 = find_from(a + b, '\n', 0);
    assert((a + b)[a.len() - 1] == '\n');
    if k >= a.len() {
        assert(a[a.len() - 1] == '\n');
    }
    if k2 < k {
        assert((a + b)[k2] == a[k2]);
    }
    if k < k2 {
        assert((a + b)[k] == a[k]);
    }
}

/// Reading the lines of text that ends in a newline, followed by more text,
/// gives the lines of each part.
pub proof fn lemma_lines_append(a: Seq<char>, b: Seq<char>)
    requires
        a.len() == 0 || a.last() == '\n',
    ensures
        lines(a + b) == lines(a) + lines(b),
    decreases a.len(),
{
    if a.len() == 0 {
        assert(a + b =~= b);
        assert(lines(a) =~= Seq::<Seq<char>>::empty());
        assert(lines(a) + lines(b) =~= lines(b));
    } else {
        lemma_first_newline_in_prefix(a, b);
        lemma_find_from(a, '\n', 0);
        let k = find_from(a, '\n', 0);
        let rest = a.subrange(k + 1, a.len() as int);
        assert((a + b).subrange(0, k) =~= a.subrange(0, k));
        assert((a + b).subrange(k + 1, (a + b).len() as int) =~= rest + b);
        if rest.len() > 0 {
            assert(rest.last() == a.last());
        }
        lemma_lines_append(rest, b);
        assert(lines(a + b) =~= seq![strip_cr(a.subrange(0, k))] + (lines(rest) + lines(b)));
        assert(lines(a) =~= seq![strip_cr(a.subrange(0, k))] + lines(rest));
        assert(lines(a + b) =~= lines(a) + lines(b));
    }
}

/// The lines of any text hold no newline.
pub proof fn lemma_lines_have_no_newline(s: Seq<char>)
    ensures
        forall|i: int| 0 <= i < lines(s).len() ==> !(#[trigger] lines(s)[i]).contains('\n'),
    decreases s.len(),
{
    if s.len() > 0 {
        lemma_find_from(s, '\n', 0);
        let k = find_from(s, '\n', 0);
        if k < s.len() {
            let first = strip_cr(s.subrange(0, k));
            assert(!first.contains('\n')) by {
                if first.contains('\n') {
                    let j = choose|j: int| 0 <= j < first.len() && first[j] == '\n';
                    assert(s[j] == '\n');
                }
            }
            lemma_lines_have_no_newline(s.subrange(k + 1, s.len() as int));
            let tail = lines(s.subrange(k + 1, s.len() as int));
            assert forall|i: int| 0 <= i < lines(s).len() implies !(#[trigger] lines(s)[i]).contains('\n') by {
                if i > 0 {
                    assert(lines(s)[i] == tail[i - 1]);
                }
            }
        } else {
            assert(!s.contains('\n')) by {
                if s.contains('\n') {
                    let j = choose|j: int| 0 <= j < s.len() && s[j] == '\n';
                    assert(s[j] != '\n');
                }
            }
        }
    }
}

/// Writing lines without newlines one per line and reading them back gives
/// each line without a final carriage return.
pub proof fn lemma_lines_of_join_strip(ls: Seq<Seq<char>>)
    requires
        forall|i: int| 0 <= i < ls.len() ==> !(#[trigger] ls[i]).contains('\n'),
    ensures
        lines(join_lines(ls)).len() == ls.len(),
        forall|i: int| 0 <= i < ls.len() ==> #[trigger] lines(join_lines(ls))[i] == strip_cr(ls[i]),
    decreases ls.len(),
{
    if ls.len() == 0 {
        assert(join_lines(ls) =~= Seq::<char>::empty());
    } else {
        lemma_join_lines_front(ls);
        let x = ls[0];
        assert(!x.contains('\n'));
        let rest = join_lines(ls.drop_first());
        let s = join_lines(ls);
        assert(s[x.len() as int] == '\n');
        lemma_find_from(s, '\n', 0);
        let k = find_from(s, '\n', 0);
        if k < x.len() {
            assert(s[k] == x[k]);
            assert(x.contains('\n'));
        }
        assert(s.subrange(0, k) =~= x);
        assert(s.subrange(k + 1, s.len() as int) =~= rest);
        let tail = ls.drop_first();
        assert forall|i: int| 0 <= i < tail.len() implies !(#[trigger] tail[i]).contains('\n') by {
            assert(tail[i] == ls[i + 1]);
        }
        lemma_lines_of_join_strip(tail);
        assert(lines(s) == seq![strip_cr(x)] + lines(rest));
        assert forall|i: int| 0 <= i < ls.len() implies #[trigger] lines(join_lines(ls))[i] == strip_cr(ls[i]) by {
            if i > 0 {
                assert(lines(s)[i] == lines(rest)[i - 1]);
                assert(tail[i - 1] == ls[i]);
            }
        }
    }
}

proof fn lemma_skip_ws_drop_last(l: Seq<char>, i: int)
    requires
        l.len() > 0,
        is_ws(l.last()),
        0 <= i <= l.len() - 1,
    ensures
        skip_ws(l.drop_last(), i) == if skip_ws(l, i) < l.len() - 1 { skip_ws(l, i) } else { l.len() - 1 },
        skip_ws(l, i) != l.len() - 1,
    decreases l.len() - i,
{
    if i < l.len() - 1 {
        assert(l.drop_last()[i] == l[i]);
        if is_ws(l[i]) {
            lemma_skip_ws_drop_last(l, i + 1);
        }
    } else {
        assert(skip_ws(l, i + 1) == l.len());
    }
}

proof fn lemma_back_ws_agree(s: Seq<char>, t: Seq<char>, lo: int, j: int)
    requires
        0 <= lo <= j,
        j <= s.len(),
        j <= t.len(),
        forall|k: int| lo <= k < j ==> s[k] == t[k],
    ensures
        back_ws(s, lo, j) == back_ws(t, lo, j),
    decreases j - lo,
{
    if lo < j {
        lemma_back_ws_agree(s, t, lo, j - 1);
    }
}

/// A final white-space character makes no difference to the trimmed text.
pub proof fn lemma_trim_drop_ws_end(l: Seq<char>)
    requires
        l.len() > 0,
        is_ws(l.last()),
    ensures
        trim(l.drop_last()) == trim(l),
{
    let n = l.len() as int;
    let d = l.drop_last();
    lemma_skip_ws_drop_last(l, 0);
    lemma_skip_ws_bounds(l, 0);
    let a = skip_ws(l, 0);
    if a == n {
        assert(skip_ws(d, 0) == n - 1);
        assert(back_ws(d, n - 1, n - 1) == n - 1);
        assert(back_ws(l, n, n) == n);
        assert(trim(d) =~= trim(l));
    } else {
        assert(a < n - 1);
        assert(skip_ws(d, 0) == a);
        assert(back_ws(l, a, n) == back_ws(l, a, n - 1));
        lemma_back_ws_agree(d, l, a, n - 1);
        lemma_back_ws_bounds(l, a, n - 1);
        assert(d.subrange(a, back_ws(d, a, n - 1)) =~= l.subrange(a, back_ws(l, a, n)));
    }
}

/// Dropping the carriage return of a line does not change its trimmed text.
pub proof fn lemma_trim_strip_cr(l: Seq<char>)
    ensures
        trim(strip_cr(l)) == trim(l),
{
    if l.len() > 0 && l.last() == '\r' {
        lemma_trim_drop_ws_end(l);
    }
}

} // verus!



