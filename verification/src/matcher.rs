//! Regular-expression matching, delegated to the `regex` crate.
//!
//! The regular-expression engine is not verified.  What it decides is named
//! by two specification functions, and everything else in the library is
//! proved relative to them.

use vstd::prelude::*;

verus! {

/// The error of `regex::Regex::new`, declared so that values of it can be
/// passed on.  Nothing inside it is looked at.
#[verifier::external_type_specification]
#[verifier::external_body]
pub struct ExRegexError(regex::Error);

/// Whether `regex::Regex::new` accepts `source`: the text is a well-formed
/// regular expression and its compiled form stays within the engine's
/// default size limit.
pub uninterp spec fn regex_valid(source: Seq<char>) -> bool;

/// Whether the regular expression compiled from `source` has a match
/// somewhere in `text`, as `regex::Regex::is_match` reports it.
pub uninterp spec fn regex_matches(source: Seq<char>, text: Seq<char>) -> bool;

/// Compiles `source` with `regex::Regex::new` and, if that succeeds, calls
/// `regex::Regex::is_match` on `text`.  Trusted: the result is an error
/// exactly when `source` does not compile, and otherwise holds what
/// `regex_matches` names.
#[verifier::external_body]
pub(crate) fn regex_search(source: &str, text: &str) -> (r: Result<bool, regex::Error>)
    ensures
        r.is_ok() == regex_valid(source@),
        r.is_ok() ==> r.unwrap() == regex_matches(source@, text@),
{
    match regex::Regex::new(source) {
        Ok(re) => Ok(re.is_match(text)),
        Err(e) => Err(e),
    }
}

/// What the regular expression `source` says of `text`: whether it matches,
/// or nothing if `source` does not compile.
pub fn regex_verdict_on(source: &str, text: &str) -> (r: Option<bool>)
    ensures
        r is Some == regex_valid(source@),
        r is Some ==> r->0 == regex_matches(source@, text@),
{
    match regex_search(source, text) {
        Ok(found) => Some(found),
        Err(_) => None,
    }
}

/// Whether `source` is a regular expression that the engine accepts.
pub fn is_valid_regex(source: &str) -> (ok: bool)
    ensures
        ok == regex_valid(source@),
{
    regex_verdict_on(source, "").is_some()
}

/// Whether `source` compiles and matches somewhere in `text`.  A source
/// that does not compile matches nothing.
pub fn regex_is_match(source: &str, text: &str) -> (m: bool)
    ensures
        m == (regex_valid(source@) && regex_matches(source@, text@)),
{
    match regex_verdict_on(source, text) {
        Some(found) => found,
        None => false,
    }
}

} // verus!
