//! Targets of the `drain` command.

use vstd::prelude::*;
use crate::text::{chars_of, eq_ignore_ascii_case, eq_ignore_ascii_case_exec, lit};

verus! {

/// All the things `drain` knows how to clear.
#[derive(PartialEq, Eq, Structural, Debug, Clone, Copy)]
pub enum DrainTarget {
    /// Wipe the staging area back to an empty array.
    Collection,
}

impl DrainTarget {
    /// Parses a drain target name. The name is lower-cased first, so letter case
    /// does not matter: the only names that lower-case to `collection` are its
    /// ASCII case variants.
    pub fn from_str(s: &str) -> (r: Option<DrainTarget>)
        ensures
            r is Some <==> eq_ignore_ascii_case(s@, "collection"@),
            r matches Some(t) ==> t == DrainTarget::Collection,
    {
        let cs = chars_of(s);
        let word = lit("collection");
        if eq_ignore_ascii_case_exec(cs.as_slice(), word.as_slice()) {
            Some(DrainTarget::Collection)
        } else {
            None
        }
    }
}

} // verus!
