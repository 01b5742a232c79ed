//! Regular expressions, compiled and matched by the `regex` crate.

use regex::Regex;
use vstd::prelude::*;

verus! {

#[verifier::external_type_specification]
#[verifier::external_body]
pub struct ExRegex(Regex);

/// Whether the `regex` crate finds a match of the expression written
/// `pattern` somewhere in `text`.
pub uninterp spec fn regex_matches(pattern: Seq<char>, text: Seq<char>) -> bool;

/// The message of the error with which the `regex` crate refuses to compile
/// the expression written `pattern`, or nothing when it compiles it.
pub uninterp spec fn regex_error(pattern: Seq<char>) -> Option<Seq<char>>;

/// A compiled regular expression, with the text it was compiled from.
pub struct Pattern {
    regex: Regex,
    source: String,
}

impl View for Pattern {
    /// The text the expression was compiled from.
    type V = Seq<char>;

    closed spec fn view(&self) -> Seq<char> {
        self.source@
    }
}

/// `regex::Regex::new` on `source`: the compiled expression, or the text of
/// the error (`regex::Error` through `Display`) when the crate refuses the
/// pattern, which it does for bad syntax and for an expression over its size
/// limit. Which patterns it refuses, and with what message, is named and not
/// stated.
#[verifier::external_body]
pub(crate) fn compile_pattern(source: String) -> (r: Result<Pattern, String>)
    ensures
        match r {
            Ok(p) => regex_error(source@) is None && p@ == source@,
            Err(m) => regex_error(source@) == Some(m@),
        },
{
    match Regex::new(&source) {
        Ok(regex) => Ok(Pattern { regex, source }),
        Err(error) => Err(error.to_string()),
    }
}

/// `regex::Regex::is_match`: whether the compiled expression matches
/// somewhere in `text`. The answer is named and not stated.
#[verifier::external_body]
pub(crate) fn pattern_matches(pattern: &Pattern, text: &str) -> (r: bool)
    ensures
        r == regex_matches(pattern@, text@),
{
    pattern.regex.is_match(text)
}

} // verus!
