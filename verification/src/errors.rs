//! Structured recorder errors.
//!
//! Recorders fail with an error naming the offending field; the registry
//! fails when the dispatch-level `Machine` field is missing. `message`
//! renders the error text; the library's own types carry the structure.

use vstd::prelude::*;

verus! {

#[derive(Debug, Clone)]
pub enum RecordError {
    /// A required field is absent or not a string.
    MissingField(String),
    /// A field is present but its text has the wrong form.
    InvalidField(String),
    /// A field's text did not parse as a decimal number.
    InvalidNumber(String),
    /// A counter field did not hold enough space-separated parts.
    MalformedCounter(String),
    /// A histogram bucket field's value is not a string.
    NonStringValue,
    /// The dispatch-level `Machine` field is absent or not a string.
    MissingMachine,
    /// Arithmetic on a field's value left the representable range.
    ValueOutOfRange(String),
}

pub open spec fn message_view(e: RecordError) -> Seq<char> {
    match e {
        RecordError::MissingField(f) => "Missing "@ + f@ + " field"@,
        RecordError::InvalidField(f) => "Invalid "@ + f@ + " field"@,
        RecordError::InvalidNumber(f) => "Invalid number in "@ + f@ + " field"@,
        RecordError::MalformedCounter(f) => "Malformed "@ + f@ + " counter"@,
        RecordError::NonStringValue => "Trace event values should be strings"@,
        RecordError::MissingMachine => "Missing or invalid Machine field"@,
        RecordError::ValueOutOfRange(f) => "Value out of range in "@ + f@ + " field"@,
    }
}

impl RecordError {
    /// The error's display text.
    pub fn message(&self) -> (r: String)
        ensures
            r@ == message_view(*self),
    {
        match self {
            RecordError::MissingField(f) => String::from_str("Missing ").concat(f.as_str()).concat(
                " field",
            ),
            RecordError::InvalidField(f) => String::from_str("Invalid ").concat(f.as_str()).concat(
                " field",
            ),
            RecordError::InvalidNumber(f) => String::from_str("Invalid number in ").concat(
                f.as_str(),
            ).concat(" field"),
            RecordError::MalformedCounter(f) => String::from_str("Malformed ").concat(
                f.as_str(),
            ).concat(" counter"),
            RecordError::NonStringValue => String::from_str("Trace event values should be strings"),
            RecordError::MissingMachine => String::from_str("Missing or invalid Machine field"),
            RecordError::ValueOutOfRange(f) => String::from_str("Value out of range in ").concat(
                f.as_str(),
            ).concat(" field"),
        }
    }
}

} // verus!
