//! Answers typed at the tool's prompts, and what they are taken to mean.

use vstd::prelude::*;
use crate::text::{chars_of, chars_eq, eq_ignore_ascii_case, eq_ignore_ascii_case_exec, lit, string_of, trim, trim_exec};

verus! {

/// Whether an answer to a yes/no question is yes: `y` in either case, spaces
/// around it ignored.
pub open spec fn is_yes_spec(input: Seq<char>) -> bool {
    eq_ignore_ascii_case(trim(input), "y"@)
}

/// Whether an answer to a yes/no question is yes.
pub fn is_yes(input: &str) -> (r: bool)
    ensures
        r == is_yes_spec(input@),
{
    let t = trim_exec(chars_of(input).as_slice());
    let y = lit("y");
    eq_ignore_ascii_case_exec(t.as_slice(), y.as_slice())
}

/// Whether an answer declines an offer made with a default of yes: `n` in
/// either case, spaces around it ignored.
pub fn declines(input: &str) -> (r: bool)
    ensures
        r == eq_ignore_ascii_case(trim(input@), "n"@),
{
    let t = trim_exec(chars_of(input).as_slice());
    eq_ignore_ascii_case_exec(t.as_slice(), lit("n").as_slice())
}

/// Whether an answer accepts an offer made with a default of yes: `y` in
/// either case or nothing at all, spaces around it ignored.
pub fn is_yes_or_blank(input: &str) -> (r: bool)
    ensures
        r == (is_yes_spec(input@) || trim(input@).len() == 0),
{
    let t = trim_exec(chars_of(input).as_slice());
    t.len() == 0 || eq_ignore_ascii_case_exec(t.as_slice(), lit("y").as_slice())
}

/// An answer to a prompt that offers a default: the trimmed input, or the
/// default when the input is blank.
pub fn answer_or_default(input: &str, default: &str) -> (r: String)
    ensures
        r@ == if trim(input@).len() == 0 { default@ } else { trim(input@) },
{
    let t = trim_exec(chars_of(input).as_slice());
    if t.len() == 0 {
        string_of(chars_of(default).as_slice())
    } else {
        string_of(t.as_slice())
    }
}

/// Whether an answer to an irreversible step is `yes` in any letter case,
/// spaces around it ignored.
pub fn confirms_yes(input: &str) -> (r: bool)
    ensures
        r == eq_ignore_ascii_case(trim(input@), "yes"@),
{
    let t = trim_exec(chars_of(input).as_slice());
    eq_ignore_ascii_case_exec(t.as_slice(), lit("yes").as_slice())
}

/// Whether a typed confirmation is exactly the word asked for, spaces around it ignored.
pub fn confirmation_matches(input: &str, word: &str) -> (r: bool)
    ensures
        r == (trim(input@) == word@),
{
    let t = trim_exec(chars_of(input).as_slice());
    chars_eq(t.as_slice(), chars_of(word).as_slice())
}

} // verus!

