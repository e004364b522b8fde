//! Trusted access to JSON documents parsed by serde_json. A JSON value
//! is opaque here: what the pipeline reads out of one is handed on as
//! plain strings, and all further checking is done in verified code.
use vstd::prelude::*;

verus! {

#[verifier::external_type_specification]
#[verifier::external_body]
pub struct ExValue(serde_json::Value);

/// Relies on serde_json::Value::get: the member of a JSON object under
/// the key, or nothing when the value is no object or lacks the key.
#[verifier::external_body]
pub(crate) fn json_get<'a>(v: &'a serde_json::Value, key: &str) -> Option<&'a serde_json::Value> {
    v.get(key)
}

/// Relies on serde_json::Value::as_str: the text of a JSON string, or
/// nothing when the value is no string.
#[verifier::external_body]
pub(crate) fn json_as_str(v: &serde_json::Value) -> Option<String> {
    match v.as_str() {
        Some(s) => Some(s.to_owned()),
        None => None,
    }
}

/// Relies on serde_json::Value::as_array: the elements of a JSON
/// array, or nothing when the value is no array.
#[verifier::external_body]
pub(crate) fn json_as_array<'a>(v: &'a serde_json::Value) -> Option<&'a Vec<serde_json::Value>> {
    v.as_array()
}

/// The string member of a JSON object under `key`, when there is one.
pub(crate) fn json_get_str(v: &serde_json::Value, key: &str) -> Option<String> {
    match json_get(v, key) {
        Some(x) => json_as_str(x),
        None => None,
    }
}

} // verus!
