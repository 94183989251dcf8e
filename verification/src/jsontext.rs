//! Trusted access to the JSON parser.
//!
//! Log lines are JSON objects; parsing and serialization are done by the
//! `serde_json` crate. A parsed value is opaque here: the verified record
//! builder in `parse` reads it only through these wrappers and decides
//! everything else itself.

use vstd::prelude::*;

verus! {

#[verifier::external_type_specification]
#[verifier::external_body]
pub struct ExValue(serde_json::Value);

/// Relies on `serde_json::from_str::<Value>`: parses one line of JSON, or
/// fails on malformed input.
#[verifier::external_body]
pub fn parse_json(s: &str) -> (r: Option<serde_json::Value>)
{
    serde_json::from_str::<serde_json::Value>(s).ok()
}

/// Relies on `serde_json::Value::get`: the value of this key if the value is
/// an object holding it, else `None`.
#[verifier::external_body]
pub fn json_get<'a>(v: &'a serde_json::Value, key: &str) -> (r: Option<&'a serde_json::Value>)
{
    v.get(key)
}

/// Relies on `serde_json::Value::as_str`: the string payload if the value is
/// a JSON string, else `None`.
#[verifier::external_body]
pub fn json_as_str<'a>(v: &'a serde_json::Value) -> (r: Option<&'a str>)
{
    v.as_str()
}

/// Relies on `serde_json::Value::as_array`: the elements if the value is a
/// JSON array, else `None`.
#[verifier::external_body]
pub fn json_as_array<'a>(v: &'a serde_json::Value) -> (r: Option<&'a Vec<serde_json::Value>>)
{
    v.as_array()
}

/// Relies on `serde_json::Value::is_null`: whether the value is JSON `null`.
#[verifier::external_body]
pub fn json_is_null(v: &serde_json::Value) -> (r: bool)
{
    v.is_null()
}

/// Relies on `serde_json`'s `Display` for `Value`: the compact JSON text of
/// the value.
#[verifier::external_body]
pub fn json_to_text(v: &serde_json::Value) -> (r: String)
{
    v.to_string()
}

} // verus!
