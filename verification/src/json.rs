//! Trusted declarations for reading JSON log lines through serde_json.
//!
//! A decoded JSON value is opaque here: the normalizers walk it with the
//! accessors below and build plain events from what they find.

use vstd::prelude::*;

verus! {

#[verifier::external_type_specification]
#[verifier::external_body]
pub struct ExValue(serde_json::Value);

/// Relies on serde_json's `from_slice`: decodes one JSON value from the
/// given bytes, or fails on malformed input.  The decoded value is opaque;
/// nothing is assumed about it.
#[verifier::external_body]
pub fn parse_json(line: &[u8]) -> Option<serde_json::Value> {
    serde_json::from_slice::<serde_json::Value>(line).ok()
}

/// Relies on serde_json's `Value::get`: looks a key up in an object,
/// yielding the held value if present.  The value is opaque; nothing is
/// assumed about it.
#[verifier::external_body]
pub fn json_get<'a>(v: &'a serde_json::Value, key: &str) -> Option<&'a serde_json::Value> {
    v.get(key)
}

/// Relies on serde_json's `Value::as_i64`: the value as a signed integer,
/// if it is one.
pub assume_specification[ serde_json::Value::as_i64 ](v: &serde_json::Value) -> Option<i64>;

/// Relies on serde_json's `Value::as_str`: the value as a string slice, if
/// it is a string.
pub assume_specification[ serde_json::Value::as_str ](v: &serde_json::Value) -> Option<&str>;

/// Relies on serde_json's `Value::as_array`: the value's elements, if it
/// is an array.
pub assume_specification[ serde_json::Value::as_array ](v: &serde_json::Value) -> Option<
    &Vec<serde_json::Value>,
>;

} // verus!
