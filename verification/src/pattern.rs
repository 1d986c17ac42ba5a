//! Regular expressions, as the regex crate compiles and runs them.
use vstd::prelude::*;
use regex::Regex;

verus! {
/// `Regex` of the regex crate: a compiled regular expression. What is read
/// of it goes by `regex_pattern`.
#[verifier::external_type_specification]
#[verifier::external_body]
pub struct ExRegex(regex::Regex);

/// `Error` of the regex crate. Nothing is read of it.
#[verifier::external_type_specification]
#[verifier::external_body]
pub struct ExRegexError(regex::Error);

/// Whether the text is a regular expression that compiles.
pub uninterp spec fn regex_accepts(pattern: Seq<char>) -> bool;

/// The text that a regular expression was compiled from.
pub uninterp spec fn regex_pattern(re: Regex) -> Seq<char>;

/// `text` with every match of `pattern`, taken from the left and without
/// overlap, replaced by the expansion of `replacement`.
pub uninterp spec fn regex_replace_all(
    pattern: Seq<char>,
    text: Seq<char>,
    replacement: Seq<char>,
) -> Seq<char>;

/// `Regex::new` of the regex crate: compiles the text, or refuses it as
/// invalid or too large. The same text always fares the same way.
pub assume_specification[ Regex::new ](re: &str) -> (r: Result<Regex, regex::Error>)
    ensures
        r is Ok <==> regex_accepts(re@),
        r matches Ok(compiled) ==> regex_pattern(compiled) == re@,
;

/// `Regex::replace_all` of the regex crate with a replacement string.
#[verifier::external_body]
pub(crate) fn replace_all(re: &Regex, text: &str, replacement: &str) -> (r: String)
    ensures
        r@ == regex_replace_all(regex_pattern(*re), text@, replacement@),
{
    re.replace_all(text, replacement).into_owned()
}

/// `text` after `pattern` was replaced throughout, where it compiles;
/// `text` itself where it does not.
pub open spec fn replaced(pattern: Seq<char>, text: Seq<char>, replacement: Seq<char>) -> Seq<
    char,
> {
    if regex_accepts(pattern) {
        regex_replace_all(pattern, text, replacement)
    } else {
        text
    }
}

/// Replaces every match of `pattern` in `text`; a pattern that does not
/// compile replaces nothing.
pub fn replace_pattern(pattern: &str, text: &str, replacement: &str) -> (r: String)
    ensures
        r@ == replaced(pattern@, text@, replacement@),
{
    match Regex::new(pattern) {
        Ok(re) => replace_all(&re, text, replacement),
        Err(_) => text.to_owned(),
    }
}

} // verus!
