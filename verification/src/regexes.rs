//! Regular expressions, which the `regex` crate compiles and runs.

use vstd::prelude::*;

verus! {

#[verifier::external_type_specification]
#[verifier::external_body]
pub struct ExRegex(regex::Regex);

#[verifier::external_type_specification]
#[verifier::external_body]
pub struct ExRegexError(regex::Error);

/// Where `regex::Regex::find` finds the leftmost match of the expression
/// in the text, as the byte offsets of its two ends, if it finds one.
pub uninterp spec fn regex_find(re: regex::Regex, haystack: Seq<char>) -> Option<(int, int)>;

/// What `regex::Regex::new` makes of the pattern: the compiled
/// expression, or nothing where it refuses the pattern.
pub uninterp spec fn regex_compiled(pattern: Seq<char>) -> Option<regex::Regex>;

/// `regex::Regex::new`: the compiled expression, or why the pattern was
/// refused. Which of the two comes back, and which expression, depends on
/// the pattern alone.
#[verifier::external_body]
pub(crate) fn regex_new(pattern: &str) -> (r: Result<regex::Regex, regex::Error>)
    ensures
        match r {
            Ok(re) => regex_compiled(pattern@) == Some(re),
            Err(_) => regex_compiled(pattern@) is None,
        },
{
    regex::Regex::new(pattern)
}

/// `regex::Regex::find`, with the ends of the match it hands back.
#[verifier::external_body]
pub(crate) fn regex_find_range(re: &regex::Regex, haystack: &str) -> (r: Option<(usize, usize)>)
    ensures
        match r {
            Some((a, b)) => regex_find(*re, haystack@) == Some((a as int, b as int)),
            None => regex_find(*re, haystack@) is None,
        },
{
    re.find(haystack).map(|m| (m.start(), m.end()))
}

/// `regex::Regex::clone`: another handle on the same expression.
#[verifier::external_body]
pub(crate) fn regex_copy(re: &regex::Regex) -> (r: regex::Regex)
    ensures
        r == *re,
{
    re.clone()
}

} // verus!
