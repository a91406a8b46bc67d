//! The scorer that tells how well a query matches a name.

use fuzzy_matcher::skim::SkimMatcherV2;
use fuzzy_matcher::FuzzyMatcher;
use vstd::prelude::*;

verus! {

/// The longest name and the longest query, in characters, that the scorer is
/// asked about. No filesystem in use holds a name of this length.
pub const MATCH_LIMIT: usize = 65_536;

/// The score that a skim matcher with its default settings and no memory of
/// earlier calls gives the name `choice` for the query `pattern`, or `None`
/// where the characters of `pattern` do not occur in `choice` in their order.
pub uninterp spec fn skim_score(choice: Seq<char>, pattern: Seq<char>) -> Option<i64>;

/// Calls `SkimMatcherV2::fuzzy_match` of the crate `fuzzy-matcher` on a
/// matcher that `SkimMatcherV2::default` has just made.
///
/// Trusted, not proved: the result is [`skim_score`] of the two strings. A
/// matcher that is used again keeps its score matrix between calls and does
/// not clear all of it, so the call is made on a new one each time: the score
/// then depends on the two strings alone. The matcher counts in 32 bits; the
/// bound on the two lengths keeps its sums far from the ends of that range.
#[verifier::external_body]
pub(crate) fn fuzzy_score(choice: &str, pattern: &str) -> (score: Option<i64>)
    requires
        choice@.len() <= MATCH_LIMIT,
        pattern@.len() <= MATCH_LIMIT,
    ensures
        score == skim_score(choice@, pattern@),
{
    SkimMatcherV2::default().fuzzy_match(choice, pattern)
}

} // verus!
