//! Cloud platforms a stream can be synchronised with, and the pull requests
//! they hold.

use vstd::prelude::*;
use crate::text::{
    chars_of, decimal, decimal_exec, eq_ignore_ascii_case, eq_ignore_ascii_case_exec, lit, push_all,
    string_of, trim, trim_exec,
};

verus! {

/// A remote a stream is synchronised with.
pub trait CloudPlatform {
    /// Compares the remote state with the local stream: how many local seals
    /// are ahead, and how many remote changes are missing locally.
    fn check_diff(&self) -> Result<(usize, usize), String>;

    /// Pushes the latest local seals to the platform.
    fn push(&self) -> Result<(), String>;

    /// Pulls the latest remote changes into the local objects and seals.
    fn pull(&self) -> Result<(), String>;
}

/// Whether a platform name is one the tool knows (`github`, in any letter
/// case); any other name falls back to GitHub with a warning.
pub fn platform_recognized(name: &str) -> (r: bool)
    ensures
        r == eq_ignore_ascii_case(name@, "github"@),
{
    eq_ignore_ascii_case_exec(chars_of(name).as_slice(), lit("github").as_slice())
}

/// Whether a character is a decimal digit.
pub open spec fn is_digit(c: char) -> bool {
    '0' <= c && c <= '9'
}

/// The value of a decimal digit.
pub open spec fn digit_value(c: char) -> int {
    (c as u32) as int - 48
}

/// The value of a run of decimal digits.
pub open spec fn digits_value(s: Seq<char>) -> int
    decreases s.len(),
{
    if s.len() == 0 {
        0
    } else {
        digits_value(s.drop_last()) * 10 + digit_value(s.last())
    }
}

/// The text after an optional leading `+`.
pub open spec fn unsigned_digits(s: Seq<char>) -> Seq<char> {
    if s.len() > 0 && s[0] == '+' {
        s.drop_first()
    } else {
        s
    }
}

/// Whether every character is a decimal digit.
pub open spec fn all_digits(s: Seq<char>) -> bool {
    forall|i: int| 0 <= i < s.len() ==> is_digit(#[trigger] s[i])
}

/// The number `str::parse::<u64>` reads from text: an optional `+`, then one
/// or more decimal digits whose value fits in 64 bits.
pub open spec fn parse_u64_spec(s: Seq<char>) -> Option<int> {
    let ds = unsigned_digits(s);
    if ds.len() > 0 && all_digits(ds) && digits_value(ds) <= u64::MAX {
        Some(digits_value(ds))
    } else {
        None
    }
}

proof fn lemma_digits_grow(s: Seq<char>, i: int, j: int)
    requires
        0 <= i <= j <= s.len(),
        forall|k: int| 0 <= k < s.len() ==> is_digit(#[trigger] s[k]),
    ensures
        digits_value(s.subrange(0, i)) <= digits_value(s.subrange(0, j)),
        0 <= digits_value(s.subrange(0, i)),
    decreases j,
{
    if i < j {
        lemma_digits_grow(s, i, j - 1);
        assert(s.subrange(0, j).drop_last() =~= s.subrange(0, j - 1));
        assert(s.subrange(0, j).last() == s[j - 1]);
        assert(is_digit(s[j - 1]));
    } else if i > 0 {
        lemma_digits_grow(s, i - 1, i - 1);
        assert(s.subrange(0, i).drop_last() =~= s.subrange(0, i - 1));
        assert(s.subrange(0, i).last() == s[i - 1]);
        assert(is_digit(s[i - 1]));
    } else {
        assert(s.subrange(0, 0) =~= Seq::<char>::empty());
    }
}

fn parse_u64(t: &[char]) -> (r: Option<u64>)
    ensures
        match r {
            Some(n) => parse_u64_spec(t@) == Some(n as int),
            None => parse_u64_spec(t@) is None,
        },
{
    let start: usize = if t.len() > 0 && t[0] == '+' { 1 } else { 0 };
    let ghost ds = unsigned_digits(t@);
    assert(ds =~= t@.subrange(start as int, t@.len() as int));
    if start == t.len() {
        return None;
    }
    let mut acc: u64 = 0;
    let mut i: usize = start;
    assert(ds.subrange(0, 0) =~= Seq::<char>::empty());
    while i < t.len()
        invariant
            start <= i <= t@.len(),
            ds == t@.subrange(start as int, t@.len() as int),
            ds == unsigned_digits(t@),
            forall|k: int| 0 <= k < i - start ==> is_digit(#[trigger] ds[k]),
            acc == digits_value(ds.subrange(0, i - start)),
        decreases t@.len() - i,
    {
        let c = t[i];
        assert(ds[i - start] == c);
        if !('0' <= c && c <= '9') {
            proof {
                assert(!is_digit(ds[i - start]));
                assert(!all_digits(ds));
            }
            return None;
        }
        let d = (c as u32 - 48) as u64;
        let ghost pre = ds.subrange(0, i - start);
        assert(ds.subrange(0, i - start + 1).drop_last() =~= pre);
        assert(ds.subrange(0, i - start + 1).last() == c);
        if acc > (u64::MAX - d) / 10 {
            proof {
                assert(acc * 10 + d > u64::MAX) by (nonlinear_arith)
                    requires
                        acc > (u64::MAX - d) / 10,
                        d <= 9,
                ;
                if all_digits(ds) {
                    lemma_digits_grow(ds, i - start + 1, ds.len() as int);
                    assert(ds.subrange(0, ds.len() as int) =~= ds);
                }
            }
            return None;
        }
        proof {
            assert(acc * 10 + d <= u64::MAX) by (nonlinear_arith)
                requires
                    acc <= (u64::MAX - d) / 10,
                    d <= 9,
            ;
        }
        acc = acc * 10 + d;
        i += 1;
    }
    assert(ds.subrange(0, ds.len() as int) =~= ds);
    Some(acc)
}

/// What an answer to the pull request prompt asks for.
pub enum PrChoice {
    /// Nothing entered: the prompt is cancelled.
    Cancel,
    /// The pull request with this number.
    Number(u64),
    /// Text that is no number, trimmed.
    Invalid(String),
}

/// The choice an answer makes: blank cancels; otherwise the trimmed answer
/// read as a number as `str::parse::<u64>` reads it, or else invalid.
pub fn pr_choice(input: &str) -> (r: PrChoice)
    ensures
        trim(input@).len() == 0 ==> r is Cancel,
        trim(input@).len() > 0 ==> match parse_u64_spec(trim(input@)) {
            Some(n) => r matches PrChoice::Number(m) && m == n,
            None => r matches PrChoice::Invalid(t) && t@ == trim(input@),
        },
{
    let t = trim_exec(chars_of(input).as_slice());
    if t.len() == 0 {
        return PrChoice::Cancel;
    }
    match parse_u64(t.as_slice()) {
        Some(n) => PrChoice::Number(n),
        None => PrChoice::Invalid(string_of(t.as_slice())),
    }
}

/// Text padded with spaces on the right to at least `width` characters, as `{:<width}` formats it.
pub open spec fn pad_right(s: Seq<char>, width: nat) -> Seq<char> {
    if s.len() >= width {
        s
    } else {
        s + Seq::new((width - s.len()) as nat, |i: int| ' ')
    }
}

/// The line listing an open pull request.
pub open spec fn pr_line_text(number: nat, title: Seq<char>, author: Seq<char>, head_ref: Seq<char>) -> Seq<char> {
    "  #"@ + pad_right(decimal(number), 5) + " "@ + title + "  (by "@ + author + ", branch '"@ + head_ref
        + "')"@
}

/// The line listing an open pull request: its number, title, author and branch.
pub fn pr_list_line(number: u64, title: &str, author: &str, head_ref: &str) -> (r: String)
    ensures
        r@ == pr_line_text(number as nat, title@, author@, head_ref@),
{
    let mut v = lit("  #");
    let digits = decimal_exec(number);
    push_all(&mut v, digits.as_slice());
    let mut k = digits.len();
    let ghost before = v@;
    while k < 5
        invariant
            digits@.len() <= k <= 5 || (k == digits@.len() && k > 5),
            v@ == before + Seq::new((k - digits@.len()) as nat, |i: int| ' '),
        decreases 5 - k,
    {
        v.push(' ');
        k += 1;
        assert(v@ =~= before + Seq::new((k - digits@.len()) as nat, |i: int| ' '));
    }
    proof {
        if digits@.len() >= 5 {
            assert(v@ =~= before);
        }
        assert(v@ =~= "  #"@ + pad_right(decimal(number as nat), 5));
    }
    push_all(&mut v, lit(" ").as_slice());
    push_all(&mut v, chars_of(title).as_slice());
    push_all(&mut v, lit("  (by ").as_slice());
    push_all(&mut v, chars_of(author).as_slice());
    push_all(&mut v, lit(", branch '").as_slice());
    push_all(&mut v, chars_of(head_ref).as_slice());
    push_all(&mut v, lit("')").as_slice());
    string_of(v.as_slice())
}

/// The message of the seal made before a pull request is checked out.
pub fn pr_safety_message(number: u64) -> (r: String)
    ensures
        r@ == "Safety seal before checking out PR #"@ + decimal(number as nat),
{
    let mut v = lit("Safety seal before checking out PR #");
    push_all(&mut v, decimal_exec(number).as_slice());
    string_of(v.as_slice())
}

} // verus!


