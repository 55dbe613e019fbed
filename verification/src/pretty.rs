//! Presentation of a redacted document.
//!
//! A redacted text is parsed again and printed with indentation. Both are
//! the work of `serde_json`: what it reads from a text and what it prints
//! for a value are named here and taken on trust, and `pretty_print` is
//! proved to hand on exactly that.

use vstd::prelude::*;

verus! {

/// `serde_json::Value`, a parsed JSON value: carried from the parser to the
/// printer and never looked into.
#[verifier::external_type_specification]
#[verifier::external_body]
pub struct ExValue(serde_json::Value);

/// `serde_json::Error`, what the parser and the printer fail with: never
/// looked into.
#[verifier::external_type_specification]
#[verifier::external_body]
pub struct ExJsonError(serde_json::Error);

/// Why a text could not be presented.
#[derive(Debug, Clone, Copy, PartialEq, Eq, Structural)]
pub enum FormatError {
    /// The text is not one JSON document.
    Parse,
    /// The parsed document could not be printed.
    Print,
}

/// What `serde_json::from_str` makes of `text` at the type
/// `serde_json::Value`: the value that the text denotes, `None` where the
/// parser refuses the text.
pub uninterp spec fn parsed_as(text: Seq<char>) -> Option<serde_json::Value>;

/// What `serde_json::to_string_pretty` makes of `value`: the value as
/// indented JSON text, `None` where the serializer fails.
pub uninterp spec fn printed_as(value: serde_json::Value) -> Option<Seq<char>>;

/// `serde_json` reads `text` as one JSON value.
pub open spec fn parses(text: Seq<char>) -> bool {
    parsed_as(text) is Some
}

/// The indented text of the value that `text` denotes; `None` where the text
/// does not parse or the value cannot be printed.
pub open spec fn pretty_text(text: Seq<char>) -> Option<Seq<char>> {
    match parsed_as(text) {
        Some(value) => printed_as(value),
        None => None,
    }
}

/// `serde_json::from_str` at the type `serde_json::Value`: the value that
/// `text` denotes, or the parser's error. The outcome depends on the text
/// alone; what the value is stays opaque.
#[verifier::external_body]
fn parse_value(text: &str) -> (parsed: Result<serde_json::Value, serde_json::Error>)
    ensures
        match parsed {
            Ok(value) => parsed_as(text@) == Some(value),
            Err(_) => parsed_as(text@) is None,
        },
{
    serde_json::from_str::<serde_json::Value>(text)
}

/// `serde_json::to_string_pretty` on a `serde_json::Value`: the value as
/// indented JSON text, or the serializer's error. The outcome depends on the
/// value alone; what the text is stays opaque.
#[verifier::external_body]
fn print_value(value: &serde_json::Value) -> (printed: Result<String, serde_json::Error>)
    ensures
        match printed {
            Ok(s) => printed_as(*value) == Some(s@),
            Err(_) => printed_as(*value) is None,
        },
{
    serde_json::to_string_pretty(value)
}

/// What presenting makes of the two outcomes: the printed text where both
/// steps succeeded, and otherwise the error of the first step that failed.
pub fn presented(parsed: bool, printed: Option<String>) -> (out: Result<String, FormatError>)
    ensures
        out == (if !parsed {
            Err::<String, FormatError>(FormatError::Parse)
        } else {
            match printed {
                Some(s) => Ok(s),
                None => Err(FormatError::Print),
            }
        }),
{
    if !parsed {
        Err(FormatError::Parse)
    } else {
        match printed {
            Some(s) => Ok(s),
            None => Err(FormatError::Print),
        }
    }
}

/// Parses `json` and prints it again with indentation: the text that
/// `serde_json` prints for the value that it reads from `json`. A text that
/// does not parse gives `FormatError::Parse`, a value that cannot be printed
/// `FormatError::Print`.
pub fn pretty_print(json: &str) -> (out: Result<String, FormatError>)
    ensures
        match parsed_as(json@) {
            None => out == Err::<String, FormatError>(FormatError::Parse),
            Some(value) => match printed_as(value) {
                Some(text) => out matches Ok(s) && s@ == text,
                None => out == Err::<String, FormatError>(FormatError::Print),
            },
        },
        out matches Ok(s) ==> pretty_text(json@) == Some(s@),
        out is Err ==> pretty_text(json@) is None,
{
    match parse_value(json) {
        Ok(value) => {
            let printed = match print_value(&value) {
                Ok(s) => Some(s),
                Err(_) => None,
            };
            presented(true, printed)
        },
        Err(_) => presented(false, None),
    }
}

} // verus!
