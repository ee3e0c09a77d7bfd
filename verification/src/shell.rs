//! Shell-style word splitting of logged compiler commands.
use vstd::prelude::*;

use crate::text::string_views;

verus! {

/// The words that `shlex::split` finds in a string, or `None` where it reports
/// an error (an unterminated quote or a trailing backslash).
pub uninterp spec fn shlex_words(s: Seq<char>) -> Option<Seq<Seq<char>>>;

/// The view of an optional list of words.
pub open spec fn words_view(w: Option<Vec<String>>) -> Option<Seq<Seq<char>>> {
    match w {
        Some(v) => Some(string_views(v@)),
        None => None,
    }
}

/// Wraps `shlex::split`, which splits a string into words with POSIX shell
/// quoting rules. The contract names the result: it is `shlex_words` of the input.
#[verifier::external_body]
pub(crate) fn shell_split(s: &str) -> (out: Option<Vec<String>>)
    ensures
        words_view(out) == shlex_words(s@),
{
    shlex::split(s)
}

} // verus!
