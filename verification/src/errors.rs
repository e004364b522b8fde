//! The error taxonomy of the invoicing pipeline.
use vstd::prelude::*;

verus! {

/// Every failure the pipeline can surface. The payload carries a
/// human-readable detail string (a field name, a list id, or the text
/// of an underlying error).
#[derive(Debug)]
pub enum InternalError {
    /// A field of a fetched time entry was missing or malformed.
    TimeEntryParsing(String),
    /// A date string could not be parsed, or a date was out of range.
    DateParsing(String),
    /// An HTTP request failed.
    NetworkRequest(String),
    /// A JSON document did not have the expected shape.
    JsonParsing(String),
    /// A filesystem operation failed.
    File(String),
    /// A time entry referenced a task list no client owns.
    ClientNotFound(String),
}

} // verus!
