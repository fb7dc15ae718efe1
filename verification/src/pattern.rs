//! Regular expressions: compiled and matched by the `regex` crate, which this
//! library takes on trust.

use vstd::prelude::*;

verus! {

/// A compiled regular expression of the `regex` crate.
#[verifier::external_type_specification]
#[verifier::external_body]
pub struct ExRegex(regex::Regex);

/// Why the `regex` crate did not compile a pattern.
#[verifier::external_type_specification]
#[verifier::external_body]
pub struct ExRegexError(regex::Error);

/// Whether `pattern` is a regular expression that can be compiled, with or
/// without regard to case.
pub uninterp spec fn compiles(pattern: Seq<char>, insensitive: bool) -> bool;

/// The pattern that `regex` was compiled from, which it hands out as its
/// text.
pub uninterp spec fn regex_source(regex: regex::Regex) -> Seq<char>;

/// Whether `regex` finds a match somewhere in `text`.
pub uninterp spec fn regex_matches(regex: regex::Regex, text: Seq<char>) -> bool;

/// `Regex::new` compiles a pattern with the default settings, so with regard
/// to case; whether it succeeds depends on the pattern alone, and the
/// expression keeps the pattern as its text.
pub assume_specification[ regex::Regex::new ](re: &str) -> (result: Result<
    regex::Regex,
    regex::Error,
>)
    ensures
        result is Ok <==> compiles(re@, false),
        result matches Ok(regex) ==> regex_source(regex) == re@,
;

/// `RegexBuilder::build` after `case_insensitive`: whether it succeeds
/// depends on the pattern and the setting alone, and the expression keeps
/// the pattern as its text.
#[verifier::external_body]
pub(crate) fn build_regex(pattern: &str, insensitive: bool) -> (result: Result<
    regex::Regex,
    regex::Error,
>)
    ensures
        result is Ok <==> compiles(pattern@, insensitive),
        result matches Ok(regex) ==> regex_source(regex) == pattern@,
{
    regex::RegexBuilder::new(pattern).case_insensitive(insensitive).build()
}

/// `Regex::is_match` depends on the expression and the text alone.
pub assume_specification[ regex::Regex::is_match ](regex: &regex::Regex, haystack: &str) -> (found:
    bool)
    ensures
        found == regex_matches(*regex, haystack@),
;

} // verus!
