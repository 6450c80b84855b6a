//! Regular-expression matching, delegated to the `regex` crate.

use vstd::prelude::*;

verus! {

/// Whether `regex::Regex::new` accepts `pattern`.
pub uninterp spec fn regex_compiles(pattern: Seq<char>) -> bool;

/// What `regex::Regex::is_match` answers for the expression compiled from
/// `pattern` on `haystack`.
pub uninterp spec fn regex_is_match(pattern: Seq<char>, haystack: Seq<char>) -> bool;

/// Compiles `pattern` with `regex::Regex::new` and asks `Regex::is_match`
/// whether it matches somewhere in `haystack`. The claim: the answer is
/// `None` exactly when the pattern does not compile, and otherwise is the
/// match result, both functions of the pattern and haystack alone.
#[verifier::external_body]
fn regex_search(pattern: &str, haystack: &str) -> (r: Option<bool>)
    ensures
        r is Some <==> regex_compiles(pattern@),
        r matches Some(b) ==> b == regex_is_match(pattern@, haystack@),
{
    match regex::Regex::new(pattern) {
        Ok(re) => Some(re.is_match(haystack)),
        Err(_) => None,
    }
}

/// A pattern that compiles and matches somewhere in `haystack`; a pattern
/// that does not compile matches nothing.
pub open spec fn pattern_hit(pattern: Seq<char>, haystack: Seq<char>) -> bool {
    regex_compiles(pattern) && regex_is_match(pattern, haystack)
}

/// True when `pattern` compiles and matches somewhere in `haystack`.
pub fn pattern_matches(pattern: &str, haystack: &str) -> (r: bool)
    ensures
        r == pattern_hit(pattern@, haystack@),
{
    match regex_search(pattern, haystack) {
        Some(b) => b,
        None => false,
    }
}

} // verus!
