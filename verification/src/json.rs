//! The calls into `serde_json` that the library makes: parsing JSON text into
//! a `serde_json::Value`, and reading fields out of a parsed value.
//!
//! A `Value` is opaque here; what serde_json parses and finds in one is named
//! by the functions below, and the library's decisions are stated over those
//! names.

use vstd::prelude::*;

verus! {

/// `serde_json::Value`, carried through the library as it is.
#[verifier::external_type_specification]
#[verifier::external_body]
pub struct ExJsonValue(serde_json::Value);

/// `serde_json::Error`, the error of a failed parse.
#[verifier::external_type_specification]
#[verifier::external_body]
pub struct ExJsonError(serde_json::Error);

/// Whether `serde_json::from_str` accepts `text` as one JSON value.
pub uninterp spec fn json_accepts_text(text: Seq<char>) -> bool;

/// Whether `serde_json::from_slice` accepts `bytes` as one JSON value.
pub uninterp spec fn json_accepts_bytes(bytes: Seq<u8>) -> bool;

/// The value that `serde_json::from_str` parses out of `text` it accepts.
pub uninterp spec fn json_value_of_text(text: Seq<char>) -> serde_json::Value;

/// The value that `serde_json::from_slice` parses out of `bytes` it accepts.
pub uninterp spec fn json_value_of_bytes(bytes: Seq<u8>) -> serde_json::Value;

/// What `Value::pointer` finds in `v` at the JSON Pointer `pointer`.
pub uninterp spec fn json_pointer_target(v: serde_json::Value, pointer: Seq<char>) -> Option<
    serde_json::Value,
>;

/// What `Value::get` finds in `v` under the string key `key`: the member of
/// an object with that key.
pub uninterp spec fn json_member(v: serde_json::Value, key: Seq<char>) -> Option<serde_json::Value>;

/// What `Value::as_str` gives for `v`: the text of a JSON string value.
pub uninterp spec fn json_text_of(v: serde_json::Value) -> Option<Seq<char>>;

/// What `Value::as_array` gives for `v`: the elements of a JSON array value.
pub uninterp spec fn json_items_of(v: serde_json::Value) -> Option<Seq<serde_json::Value>>;

/// Whether `v` is an object with a member named `key`.
pub open spec fn has_member(v: serde_json::Value, key: Seq<char>) -> bool {
    json_member(v, key) is Some
}

/// A JSON parse error, as the library reports it: serde_json's own message.
#[derive(Clone, Debug, PartialEq, Eq)]
pub struct JsonParseError {
    /// serde_json's description of what went wrong, with line and column.
    pub message: String,
}

/// `serde_json::from_str::<Value>`. Whether it succeeds, and the value it
/// parses, depend on the text alone (named `json_accepts_text` and
/// `json_value_of_text`).
#[verifier::external_body]
pub(crate) fn json_from_str(text: &str) -> (r: Result<serde_json::Value, serde_json::Error>)
    ensures
        r is Ok <==> json_accepts_text(text@),
        r matches Ok(v) ==> v == json_value_of_text(text@),
{
    serde_json::from_str(text)
}

/// `serde_json::from_slice::<Value>`. Whether it succeeds, and the value it
/// parses, depend on the bytes alone (named `json_accepts_bytes` and
/// `json_value_of_bytes`).
#[verifier::external_body]
pub(crate) fn json_from_slice(bytes: &[u8]) -> (r: Result<serde_json::Value, serde_json::Error>)
    ensures
        r is Ok <==> json_accepts_bytes(bytes@),
        r matches Ok(v) ==> v == json_value_of_bytes(bytes@),
{
    serde_json::from_slice(bytes)
}

/// `serde_json::Error`'s `Display` text. Nothing is stated of it.
#[verifier::external_body]
pub(crate) fn json_error_message(e: &serde_json::Error) -> String {
    e.to_string()
}

/// Maps serde_json's error into the library's own error type.
pub(crate) fn parse_error_of(e: &serde_json::Error) -> (r: JsonParseError) {
    JsonParseError { message: json_error_message(e) }
}

/// `Value::pointer`: the value that an RFC 6901 JSON Pointer addresses,
/// named `json_pointer_target`. Its source returns the value itself for the
/// empty pointer and nothing for a non-empty pointer that does not start
/// with `/`; the rest of the lookup is named, not stated.
#[verifier::external_body]
pub(crate) fn json_pointer<'a>(v: &'a serde_json::Value, pointer: &str) -> (r: Option<
    &'a serde_json::Value,
>)
    ensures
        r is None <==> json_pointer_target(*v, pointer@) is None,
        r matches Some(t) ==> json_pointer_target(*v, pointer@) == Some(*t),
        pointer@.len() == 0 ==> r == Some(v),
        pointer@.len() > 0 && pointer@[0] != '/' ==> r is None,
{
    v.pointer(pointer)
}

/// `Value::get` with a string key: the member of an object with that key,
/// if the value is an object that has one (named `json_member`).
#[verifier::external_body]
pub(crate) fn json_get<'a>(v: &'a serde_json::Value, key: &str) -> (r: Option<
    &'a serde_json::Value,
>)
    ensures
        r is None <==> json_member(*v, key@) is None,
        r matches Some(m) ==> json_member(*v, key@) == Some(*m),
{
    v.get(key)
}

/// `Value::as_str`: the text of a JSON string value, `None` for any other
/// kind of value (named `json_text_of`).
#[verifier::external_body]
pub(crate) fn json_as_str(v: &serde_json::Value) -> (r: Option<&str>)
    ensures
        r is None <==> json_text_of(*v) is None,
        r matches Some(t) ==> json_text_of(*v) == Some(t@),
{
    v.as_str()
}

/// `Value::as_array`: the elements of a JSON array value, `None` for any
/// other kind of value (named `json_items_of`).
#[verifier::external_body]
pub(crate) fn json_as_array(v: &serde_json::Value) -> (r: Option<&Vec<serde_json::Value>>)
    ensures
        r is None <==> json_items_of(*v) is None,
        r matches Some(items) ==> json_items_of(*v) == Some(items@),
{
    v.as_array()
}

} // verus!
