//! JSON text read and written by `serde_json`, as documents of the library's
//! [`JsonValue`] type.
//!
//! What `serde_json` makes of a text is named, not restated: objects come
//! back with their keys sorted and a repeated key keeping its last value,
//! and numbers keep the text `serde_json` prints for them.

use vstd::prelude::*;

use crate::json::{Json, JsonValue};
use crate::text::decimal;

verus! {

/// Declares `serde_json::Value`, which the conversions below take and give;
/// nothing inside it is visible to proofs.
#[verifier::external_type_specification]
#[verifier::external_body]
pub struct ExSerdeJsonValue(serde_json::Value);

/// The document `serde_json::from_slice` reads from the bytes `b`, or `None`
/// when they are not one JSON value.
pub uninterp spec fn json_of_bytes(b: Seq<u8>) -> Option<Json>;

/// The document `serde_json::from_str` reads from the text `t`, or `None`
/// when it is not one JSON value.
pub uninterp spec fn json_of_text(t: Seq<char>) -> Option<Json>;

/// The bytes `serde_json::to_vec` writes for the document `d`, when it
/// writes any.
pub uninterp spec fn json_bytes_of(d: Json) -> Seq<u8>;

/// `t` is the decimal rendering, without leading zeros, of an integer that
/// fits in `u64`.
pub open spec fn u64_literal(t: Seq<char>) -> bool {
    exists|n: nat| n <= u64::MAX && t == #[trigger] decimal(n)
}

/// Every number in `d` is written as a `u64` decimal literal.
pub open spec fn u64_numbers(d: Json) -> bool
    decreases d, 1nat,
{
    match d {
        Json::Number(t) => u64_literal(t),
        Json::Array(a) => u64_numbers_all(a),
        Json::Object(m) => u64_numbers_members(m),
        _ => true,
    }
}

/// Every number in the documents `a` is a `u64` decimal literal.
pub open spec fn u64_numbers_all(a: Seq<Json>) -> bool
    decreases a, 0nat,
{
    if a.len() == 0 {
        true
    } else {
        proof {
            assert(decreases_to!(a => a.last()));
        }
        u64_numbers_all(a.drop_last()) && u64_numbers(a.last())
    }
}

/// Every number in the values of the members `m` is a `u64` decimal literal.
pub open spec fn u64_numbers_members(m: Seq<(Seq<char>, Json)>) -> bool
    decreases m, 0nat,
{
    if m.len() == 0 {
        true
    } else {
        proof {
            assert(decreases_to!(m => m.last()));
            assert(decreases_to!(m.last() => m.last().1));
        }
        u64_numbers_members(m.drop_last()) && u64_numbers(m.last().1)
    }
}

/// A `serde_json::Value` as a library document, node for node; a number
/// keeps the text `serde_json` prints for it.
#[verifier::external_body]
fn from_serde(v: &serde_json::Value) -> JsonValue {
    match v {
        serde_json::Value::Null => JsonValue::Null,
        serde_json::Value::Bool(b) => JsonValue::Bool(*b),
        serde_json::Value::Number(n) => JsonValue::Number(n.to_string()),
        serde_json::Value::String(s) => JsonValue::String(s.clone()),
        serde_json::Value::Array(a) => JsonValue::Array(a.iter().map(from_serde).collect()),
        serde_json::Value::Object(m) => JsonValue::Object(m.iter().map(|(k, x)| (k.clone(), from_serde(x))).collect()),
    }
}

/// A library document as a `serde_json::Value`, node for node; a number's
/// text is read by `serde_json`, whose error message is passed on.
#[verifier::external_body]
fn to_serde(v: &JsonValue) -> Result<serde_json::Value, String> {
    Ok(match v {
        JsonValue::Null => serde_json::Value::Null,
        JsonValue::Bool(b) => serde_json::Value::Bool(*b),
        JsonValue::Number(t) => serde_json::Value::Number(serde_json::from_str(t).map_err(|e| e.to_string())?),
        JsonValue::String(s) => serde_json::Value::String(s.clone()),
        JsonValue::Array(a) => serde_json::Value::Array(a.iter().map(to_serde).collect::<Result<_, _>>()?),
        JsonValue::Object(m) => serde_json::Value::Object(m.iter().map(|(k, x)| Ok((k.clone(), to_serde(x)?))).collect::<Result<_, String>>()?),
    })
}

/// Calls `serde_json::from_slice` for a `serde_json::Value` and converts the
/// result node for node: it fails exactly when `b` is not one JSON value,
/// and otherwise gives the document named by `json_of_bytes`. The error
/// text is `serde_json`'s message, not stated here.
#[verifier::external_body]
pub fn json_from_slice(b: &[u8]) -> (r: Result<JsonValue, String>)
    ensures
        r is Err <==> json_of_bytes(b@) is None,
        r matches Ok(v) ==> json_of_bytes(b@) == Some(v@),
{
    match serde_json::from_slice::<serde_json::Value>(b) {
        Ok(v) => Ok(from_serde(&v)),
        Err(e) => Err(e.to_string()),
    }
}

/// Calls `serde_json::from_str` for a `serde_json::Value` and converts the
/// result node for node: it fails exactly when `t` is not one JSON value,
/// and otherwise gives the document named by `json_of_text`. The error text
/// is `serde_json`'s message, not stated here.
#[verifier::external_body]
pub fn json_from_str(t: &str) -> (r: Result<JsonValue, String>)
    ensures
        r is Err <==> json_of_text(t@) is None,
        r matches Ok(v) ==> json_of_text(t@) == Some(v@),
{
    match serde_json::from_str::<serde_json::Value>(t) {
        Ok(v) => Ok(from_serde(&v)),
        Err(e) => Err(e.to_string()),
    }
}

/// Calls `serde_json::to_vec` on `d` converted to a `serde_json::Value`:
/// what it writes is the text named by `json_bytes_of`. Writing a `Value`
/// into a vector never fails, and `serde_json` reads every `u64` decimal
/// literal as a `Number`, so a document whose numbers are all such literals
/// is always written; otherwise a number text `serde_json` refuses is the
/// only way to fail.
#[verifier::external_body]
pub fn json_to_vec(d: &JsonValue) -> (r: Result<Vec<u8>, String>)
    ensures
        r matches Ok(b) ==> b@ == json_bytes_of(d@),
        u64_numbers(d@) ==> r is Ok,
{
    serde_json::to_vec(&to_serde(d)?).map_err(|e| e.to_string())
}

} // verus!
