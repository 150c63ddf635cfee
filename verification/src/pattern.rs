//! Regular expressions, matched with `regex`.

use vstd::prelude::*;

verus! {

/// A compiled regular expression.
#[verifier::external_type_specification]
#[verifier::external_body]
pub struct ExRegex(regex::Regex);

/// The pattern that a `regex::Regex` was compiled from.
pub uninterp spec fn source_of(rx: regex::Regex) -> Seq<char>;

/// Whether `regex::Regex::new` accepts a pattern.
pub uninterp spec fn is_pattern(pattern: Seq<char>) -> bool;

/// Whether an accepted pattern matches anywhere in a text, as `Regex::is_match` tells.
pub uninterp spec fn has_match(pattern: Seq<char>, text: Seq<char>) -> bool;

/// `Regex::new`: whether a pattern is accepted is a function of the pattern alone; the
/// compiled expression stands for it.
#[verifier::external_body]
pub(crate) fn compile(pattern: &str) -> (r: Option<regex::Regex>)
    ensures
        r is Some == is_pattern(pattern@),
        r matches Some(rx) ==> source_of(rx) == pattern@,
{
    match regex::Regex::new(pattern) {
        Ok(rx) => Some(rx),
        Err(_) => None,
    }
}

/// `Regex::is_match`: whether there is a match is a function of the pattern and the text
/// alone.
#[verifier::external_body]
pub(crate) fn is_match(rx: &regex::Regex, text: &str) -> (r: bool)
    ensures
        r == has_match(source_of(*rx), text@),
{
    rx.is_match(text)
}

/// Whether a pattern is accepted and matches anywhere in a text.
pub fn found_in(pattern: &str, text: &str) -> (r: bool)
    ensures
        r == (is_pattern(pattern@) && has_match(pattern@, text@)),
{
    match compile(pattern) {
        Some(rx) => is_match(&rx, text),
        None => false,
    }
}

} // verus!
