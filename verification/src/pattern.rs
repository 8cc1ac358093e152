//! The one place where the `regex` crate is called.

use regex::Regex;
use vstd::prelude::*;

verus! {

/// What the `regex` crate finds when `pattern` is searched for in `haystack`:
/// `None` where it refuses the pattern; otherwise one entry for each match,
/// from left to right, and in it one entry for each capture group, the whole
/// match first: the byte offsets in `haystack` where the group starts and
/// ends, or `None` where the group took no part in the match.
pub uninterp spec fn regex_captures(pattern: Seq<char>, haystack: Seq<char>) -> Option<
    Seq<Seq<Option<(usize, usize)>>>,
>;

/// Compiles `pattern` with `Regex::new` and walks `haystack` with
/// `Regex::captures_iter`, handing out what `Captures::iter` yields for each
/// match as the pair of `Match::start` and `Match::end`. The contract only
/// gives that outcome its name: nothing is claimed of what the offsets are.
#[verifier::external_body]
pub(crate) fn find_captures(pattern: &str, haystack: &str) -> (found: Option<
    Vec<Vec<Option<(usize, usize)>>>,
>)
    ensures
        found.deep_view() == regex_captures(pattern@, haystack@),
{
    match Regex::new(pattern) {
        Ok(re) => Some(
            re.captures_iter(haystack).map(
                |caps| caps.iter().map(|group| group.map(|m| (m.start(), m.end()))).collect(),
            ).collect(),
        ),
        Err(_) => None,
    }
}

} // verus!
