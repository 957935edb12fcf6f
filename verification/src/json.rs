//! Trusted boundary to the JSON parser.
//!
//! Documents reach the library as text and are turned into a value tree by
//! `serde_json`. The tree is opaque to verification: the declarations and
//! wrappers here only carry values and plain results across the boundary.
//! Everything the library reads out of the tree — names, numbers, nested
//! records — comes back as plain text or plain options and is examined
//! further by verified code.

use vstd::prelude::*;

verus! {

#[verifier::external_type_specification]
#[verifier::external_body]
pub struct ExValue(serde_json::Value);

#[verifier::external_type_specification]
#[verifier::external_body]
pub struct ExNumber(serde_json::Number);

#[verifier::external_type_specification]
#[verifier::external_body]
pub struct ExJsonError(serde_json::Error);

/// Whether `serde_json` accepts this text as JSON: the parse is a pure
/// function of the text, so acceptance depends on the characters alone.
pub uninterp spec fn json_parses(s: Seq<char>) -> bool;

/// Relies on `serde_json::from_str::<Value>`: parses JSON text into a
/// value tree, failing exactly on text it does not accept — malformed, or
/// nested beyond its depth limit — and deterministically, so success is
/// `json_parses` of the text.
#[verifier::external_body]
pub(crate) fn json_from_text(s: &str) -> (r: Result<serde_json::Value, serde_json::Error>)
    ensures
        (r is Ok) == json_parses(s@),
{
    serde_json::from_str(s)
}

/// Relies on `serde_json::Value::get` with a string key: member lookup,
/// `None` on absent keys and on values that are not objects.
#[verifier::external_body]
pub(crate) fn json_member<'a>(v: &'a serde_json::Value, key: &str) -> Option<
    &'a serde_json::Value,
> {
    v.get(key)
}

/// Relies on `serde_json::Value::get` with an index: element lookup, `None`
/// out of range and on values that are not arrays.
#[verifier::external_body]
pub(crate) fn json_element(v: &serde_json::Value, i: usize) -> Option<&serde_json::Value> {
    v.get(i)
}

/// Relies on `serde_json::Value::as_array`: the elements when the value is
/// an array, `None` otherwise.
#[verifier::external_body]
pub(crate) fn json_array(v: &serde_json::Value) -> Option<&Vec<serde_json::Value>> {
    v.as_array()
}

/// Relies on `serde_json::Value::as_str`: the text when the value is a
/// string, `None` otherwise.
#[verifier::external_body]
pub(crate) fn json_string(v: &serde_json::Value) -> Option<&str> {
    v.as_str()
}

/// Relies on `serde_json::Value::as_number`: the number when the value is
/// one, `None` otherwise.
#[verifier::external_body]
pub(crate) fn json_number(v: &serde_json::Value) -> Option<&serde_json::Number> {
    v.as_number()
}

/// Relies on the `Display` form of `serde_json::Number`: the number's JSON
/// text.
#[verifier::external_body]
pub(crate) fn number_text(n: &serde_json::Number) -> String {
    n.to_string()
}

} // verus!
