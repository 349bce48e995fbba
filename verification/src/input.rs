//! Reading the list of input strings from JSON text.

use crate::strings::texts;
use vstd::prelude::*;

verus! {

/// The error type of `serde_json`, carried through unopened.
#[verifier::external_type_specification]
#[verifier::external_body]
pub struct ExJsonError(serde_json::Error);

/// What `serde_json` makes of a text that is read as an array of strings: the
/// strings in their order, or nothing where the text is not valid JSON or is
/// JSON of another shape.
pub uninterp spec fn json_string_array(text: Seq<char>) -> Option<Seq<Seq<char>>>;

/// Why a text was refused as a list of input strings.
#[derive(Clone, Copy, Debug, PartialEq, Eq, Structural)]
pub enum InputError {
    /// The text is not a JSON array of strings.
    Malformed,
}

/// `serde_json::from_str` at the type `Vec<String>`. Trusted: the outcome is
/// a function of the text alone; it is named `json_string_array`.
#[verifier::external_body]
fn parse_string_array(text: &str) -> (parsed: Result<Vec<String>, serde_json::Error>)
    ensures
        match parsed {
            Ok(strings) => json_string_array(text@) == Some(texts(strings@)),
            Err(_) => json_string_array(text@).is_none(),
        },
{
    serde_json::from_str::<Vec<String>>(text)
}

/// Turns the outcome of the parser into the library's own: the strings as
/// they are, and any failure into `InputError::Malformed`.
pub fn accept_parsed(parsed: Result<Vec<String>, serde_json::Error>) -> (accepted: Result<
    Vec<String>,
    InputError,
>)
    ensures
        match parsed {
            Ok(strings) => accepted == Ok::<Vec<String>, InputError>(strings),
            Err(_) => accepted == Err::<Vec<String>, InputError>(InputError::Malformed),
        },
{
    match parsed {
        Ok(strings) => Ok(strings),
        Err(_) => Err(InputError::Malformed),
    }
}

/// Reads the input strings from the text of a JSON file. The text must hold
/// one JSON array whose members are all strings.
pub fn parse_input_strings(text: &str) -> (parsed: Result<Vec<String>, InputError>)
    ensures
        match parsed {
            Ok(strings) => json_string_array(text@) == Some(texts(strings@)),
            Err(e) => e == InputError::Malformed && json_string_array(text@).is_none(),
        },
{
    accept_parsed(parse_string_array(text))
}

} // verus!
