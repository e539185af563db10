//! Regular expressions that select tests.
use regex::Regex;
use vstd::prelude::*;

verus! {

#[verifier::external_type_specification]
#[verifier::external_body]
pub struct ExRegex(regex::Regex);

/// The text that a regular expression was made from.
pub uninterp spec fn regex_text(regex: Regex) -> Seq<char>;

/// What `regex::Regex::new` finds wrong with a text; none where it accepts it.
pub uninterp spec fn regex_problem(text: Seq<char>) -> Option<Seq<char>>;

/// `regex::Regex::new`: whether a text is accepted depends on it alone, and so does the error's
/// wording. What is accepted keeps its text.
#[verifier::external_body]
pub(crate) fn compile(text: &str) -> (r: Result<Regex, String>)
    ensures
        match r {
            Ok(regex) => regex_problem(text@) is None && regex_text(regex) == text@,
            Err(e) => regex_problem(text@) == Some(e@),
        },
{
    Regex::new(text).map_err(|e| e.to_string())
}

/// `Clone` of `regex::Regex`: the copy has the same text.
#[verifier::external_body]
pub(crate) fn copy(regex: &Regex) -> (r: Regex)
    ensures
        regex_text(r) == regex_text(*regex),
{
    regex.clone()
}

/// The text of a pattern that may be missing.
pub open spec fn pattern_text(pattern: Option<Regex>) -> Option<Seq<char>> {
    match pattern {
        Some(regex) => Some(regex_text(regex)),
        None => None,
    }
}

/// Copies a pattern that may be missing.
pub fn copy_pattern(pattern: &Option<Regex>) -> (r: Option<Regex>)
    ensures
        pattern_text(r) == pattern_text(*pattern),
{
    match pattern {
        Some(regex) => Some(copy(regex)),
        None => None,
    }
}

} // verus!
