//! Field readers over the parsed JSON tree.
//!
//! Each reader walks one member of an opaque JSON value through the
//! trusted boundary and turns it into a plain value; anything absent or of
//! the wrong shape is a `ParseError` carrying the field's context. The
//! numeric readers pin the range of what they return, which the animation
//! compiler's overflow-freedom rests on.

use vstd::prelude::*;
use crate::LoadError;
use crate::fixed::{fixed_from_text, int_from_text, FIXED_RAW_MAX};
use crate::json::{json_member, json_number, json_string, number_text};

verus! {

/// Read a required string member.
pub(crate) fn req_string_member(v: &serde_json::Value, key: &str, ctx: &str) -> (r: Result<
    String,
    LoadError,
>)
    ensures
        r matches Err(e) ==> e@ is ParseError,
{
    match json_member(v, key) {
        Some(m) => match json_string(m) {
            Some(s) => Ok(s.to_owned()),
            None => Err(LoadError::ParseError(ctx.to_owned())),
        },
        None => Err(LoadError::ParseError(ctx.to_owned())),
    }
}

/// Read an optional string member: absent is `None`, present but not a
/// string is malformed.
pub(crate) fn opt_string_member(v: &serde_json::Value, key: &str, ctx: &str) -> (r: Result<
    Option<String>,
    LoadError,
>)
    ensures
        r matches Err(e) ==> e@ is ParseError,
{
    match json_member(v, key) {
        Some(m) => match json_string(m) {
            Some(s) => Ok(Some(s.to_owned())),
            None => Err(LoadError::ParseError(ctx.to_owned())),
        },
        None => Ok(None),
    }
}

/// Read a required integer member that must fit an `i32`.
pub(crate) fn req_i32_member(v: &serde_json::Value, key: &str, ctx: &str) -> (r: Result<
    i32,
    LoadError,
>)
    ensures
        r matches Err(e) ==> e@ is ParseError,
{
    let m = match json_member(v, key) {
        Some(m) => m,
        None => {
            return Err(LoadError::ParseError(ctx.to_owned()));
        },
    };
    let n = match json_number(m) {
        Some(n) => n,
        None => {
            return Err(LoadError::ParseError(ctx.to_owned()));
        },
    };
    let t = number_text(n);
    match int_from_text(t.as_str()) {
        Some(x) => {
            if x < -0x8000_0000i64 || x > 0x7fff_ffffi64 {
                Err(LoadError::ParseError(ctx.to_owned()))
            } else {
                Ok(x as i32)
            }
        },
        None => Err(LoadError::ParseError(ctx.to_owned())),
    }
}

/// Read a required fixed-point member.
pub(crate) fn req_fixed_member(v: &serde_json::Value, key: &str, ctx: &str) -> (r: Result<
    i64,
    LoadError,
>)
    ensures
        r matches Ok(x) ==> -FIXED_RAW_MAX <= x <= FIXED_RAW_MAX,
        r matches Err(e) ==> e@ is ParseError,
{
    let m = match json_member(v, key) {
        Some(m) => m,
        None => {
            return Err(LoadError::ParseError(ctx.to_owned()));
        },
    };
    let n = match json_number(m) {
        Some(n) => n,
        None => {
            return Err(LoadError::ParseError(ctx.to_owned()));
        },
    };
    let t = number_text(n);
    match fixed_from_text(t.as_str()) {
        Some(x) => Ok(x),
        None => Err(LoadError::ParseError(ctx.to_owned())),
    }
}

/// Read an optional fixed-point member, with a default for an absent one.
pub(crate) fn opt_fixed_member(v: &serde_json::Value, key: &str, default: i64, ctx: &str) -> (r:
    Result<i64, LoadError>)
    requires
        -FIXED_RAW_MAX <= default <= FIXED_RAW_MAX,
    ensures
        r matches Ok(x) ==> -FIXED_RAW_MAX <= x <= FIXED_RAW_MAX,
        r matches Err(e) ==> e@ is ParseError,
{
    let m = match json_member(v, key) {
        Some(m) => m,
        None => {
            return Ok(default);
        },
    };
    let n = match json_number(m) {
        Some(n) => n,
        None => {
            return Err(LoadError::ParseError(ctx.to_owned()));
        },
    };
    let t = number_text(n);
    match fixed_from_text(t.as_str()) {
        Some(x) => Ok(x),
        None => Err(LoadError::ParseError(ctx.to_owned())),
    }
}

} // verus!
