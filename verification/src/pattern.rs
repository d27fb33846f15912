//! The patterns of the built-in kinds, and the pattern engine that compiles
//! and runs them.
//!
//! The engine is the `regex` crate. What it does is not proved here: the
//! items marked `external_body` state what this library relies on.

use crate::entity::Kind;
use vstd::prelude::*;

verus! {

/// `regex::Regex`, a compiled pattern. Nothing is known of what is inside.
#[verifier::external_type_specification]
#[verifier::external_body]
pub struct ExRegex(regex::Regex);

/// `regex::Error`, the engine's refusal of a pattern. Nothing is known of
/// what is inside.
#[verifier::external_type_specification]
#[verifier::external_body]
pub struct ExRegexError(regex::Error);

/// The compiled pattern that `regex::Regex::new` returns for a pattern
/// text, where it returns one.
pub uninterp spec fn compiled_pattern(pattern: Seq<char>) -> Option<regex::Regex>;

/// The byte spans (start, end) of the successive matches of a compiled
/// pattern in a text, in the order in which `regex::Regex::find_iter`
/// yields them.
pub uninterp spec fn regex_spans(compiled: regex::Regex, text: Seq<char>) -> Seq<(usize, usize)>;

/// Whether the engine takes a pattern text.
pub open spec fn pattern_compiles(pattern: Seq<char>) -> bool {
    compiled_pattern(pattern) is Some
}

/// The byte spans (start, end) of the successive matches of a pattern in a
/// text; none where the engine does not take the pattern.
pub open spec fn pattern_spans(pattern: Seq<char>, text: Seq<char>) -> Seq<(usize, usize)> {
    match compiled_pattern(pattern) {
        Some(compiled) => regex_spans(compiled, text),
        None => Seq::empty(),
    }
}

/// What the engine says of a pattern that it did not take (the `Display`
/// form of `regex::Error`).
pub uninterp spec fn regex_error_text(error: regex::Error) -> Seq<char>;

/// The pattern of a built-in kind. A custom kind has none: the empty text
/// stands in its place.
pub open spec fn builtin_pattern(kind: Kind) -> Seq<char> {
    match kind {
        Kind::Email => r"\b[A-Za-z0-9._%+-]+@[A-Za-z0-9.-]+\.[A-Z|a-z]{2,}\b"@,
        Kind::Phone => r"\b(?:\+?1[-.\s]?)?\(?([0-9]{3})\)?[-.\s]?([0-9]{3})(?:[-.\s]?([0-9]{4}))?\b"@,
        Kind::Ssn => r"\b\d{3}[-]?\d{2}[-]?\d{4}\b"@,
        Kind::CreditCard => r"\b\d{4}[- ]?\d{4}[- ]?\d{4}[- ]?\d{4}\b"@,
        Kind::IpAddress => r"\b(?:(?:25[0-5]|2[0-4][0-9]|[01]?[0-9][0-9]?)\.){3}(?:25[0-5]|2[0-4][0-9]|[01]?[0-9][0-9]?)\b"@,
        Kind::Url => r"\bhttps?://(?:[a-zA-Z0-9-._~:/?#\[\]@!$&'()*+,;=]|%[0-9A-Fa-f]{2})+"@,
        Kind::Custom(_) => Seq::empty(),
    }
}

/// Compiles a pattern text with `regex::Regex::new`. The same text gives
/// the same outcome each time: the compiled pattern, or a refusal.
#[verifier::external_body]
pub(crate) fn compile(pattern: &str) -> (compiled: Result<regex::Regex, regex::Error>)
    ensures
        match compiled {
            Ok(regex) => compiled_pattern(pattern@) == Some(regex),
            Err(_) => compiled_pattern(pattern@) is None,
        },
{
    regex::Regex::new(pattern)
}

/// Runs `regex::Regex::find_iter` over the text and gives the start and end
/// offset of each match, in the order in which the engine yields them.
#[verifier::external_body]
pub(crate) fn find_spans(compiled: &regex::Regex, text: &str) -> (spans: Vec<(usize, usize)>)
    ensures
        spans@ == regex_spans(*compiled, text@),
{
    compiled.find_iter(text).map(|found| (found.start(), found.end())).collect()
}

/// What the engine says of a pattern that it did not take, by the `Display`
/// form of `regex::Error`.
#[verifier::external_body]
pub(crate) fn describe_regex_error(error: &regex::Error) -> (text: String)
    ensures
        text@ == regex_error_text(*error),
{
    error.to_string()
}

} // verus!
