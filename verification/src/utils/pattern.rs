//! Matching a line of text against a pattern.

use vstd::prelude::*;

verus! {

/// What the regex crate finds when it matches `text` against `pattern`:
/// the text of each capture group, the whole match first, `None` for a group
/// that took no part. `None` where the pattern is refused or nothing matches.
pub uninterp spec fn regex_groups(pattern: Seq<char>, text: Seq<char>) -> Option<
    Seq<Option<Seq<char>>>,
>;

/// What each captured group holds.
pub open spec fn group_views(groups: Seq<Option<String>>) -> Seq<Option<Seq<char>>> {
    Seq::new(
        groups.len(),
        |i: int|
            match groups[i] {
                Some(text) => Some(text@),
                None => None,
            },
    )
}

/// Calls the regex crate's `Regex::new` and `Regex::captures` and copies
/// the text of each group out of what `Captures::iter` gives. Trusted: the
/// result is the one named [`regex_groups`].
#[verifier::external_body]
pub(crate) fn captures(pattern: &str, text: &str) -> (groups: Option<Vec<Option<String>>>)
    ensures
        match groups {
            Some(groups) => regex_groups(pattern@, text@) == Some(group_views(groups@)),
            None => regex_groups(pattern@, text@) is None,
        },
{
    match regex::Regex::new(pattern) {
        Ok(compiled) => match compiled.captures(text) {
            Some(found) => Some(
                found.iter().map(|group| group.map(|part| part.as_str().to_string())).collect(),
            ),
            None => None,
        },
        Err(_) => None,
    }
}

} // verus!
