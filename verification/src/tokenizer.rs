//! Tokenisation: the regular expression that cuts text into tokens.

use vstd::prelude::*;

verus! {

/// `regex::Regex`, a compiled pattern; what it matches is known through
/// `regex_tokens` alone.
#[verifier::external_type_specification]
#[verifier::external_body]
pub struct ExRegex(regex::Regex);

/// The pattern recommended for general use: a letter or digit, then letters,
/// digits, apostrophes and hyphens, then at most one of `.`, `!` and `?`.
pub const WORD_REGEX: &'static str = "(\\p{Alphabetic}|\\d)(\\p{Alphabetic}|\\d|'|-)*(\\.|!|\\?)?";

/// The same pattern without the closing punctuation mark.
pub const BARE_WORD_REGEX: &'static str = "(\\p{Alphabetic}|\\d)(\\p{Alphabetic}|\\d|'|-)*";

/// The texts of the successive non-overlapping matches of `regex` in `text`.
pub uninterp spec fn regex_tokens(regex: regex::Regex, text: Seq<char>) -> Seq<Seq<char>>;

/// The texts that a sequence of string slices stands for.
pub open spec fn texts_of(tokens: Seq<&str>) -> Seq<Seq<char>> {
    Seq::new(tokens.len(), |i: int| tokens[i]@)
}

/// Calls `regex::Regex::find_iter` and takes `Match::as_str` of every match,
/// in the order in which the matches are found.
#[verifier::external_body]
pub(crate) fn find_tokens<'t>(regex: &regex::Regex, text: &'t str) -> (tokens: Vec<&'t str>)
    ensures
        texts_of(tokens@) == regex_tokens(*regex, text@),
{
    regex.find_iter(text).map(|m| m.as_str()).collect()
}

/// Calls `Clone::clone` of `regex::Regex`: the copy is the same pattern and
/// matches the same.
#[verifier::external_body]
pub(crate) fn regex_clone(regex: &regex::Regex) -> (copy: regex::Regex)
    ensures
        copy == *regex,
{
    regex.clone()
}

} // verus!
