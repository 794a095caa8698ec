//! JSON documents: the types and functions of the `serde_json` crate that
//! the library uses, with what is taken on trust about each of them.
//!
//! Nothing in this file is proved. A document of `serde_json` is told apart
//! by the document that it holds.

use serde_json::{Error, Value};
use vstd::prelude::*;

verus! {

#[verifier::external_type_specification]
#[verifier::external_body]
pub struct ExValue(Value);

#[verifier::external_type_specification]
#[verifier::external_body]
#[verifier::reject_recursive_types(K)]
#[verifier::reject_recursive_types(V)]
pub struct ExMap<K, V>(serde_json::Map<K, V>);

#[verifier::external_type_specification]
#[verifier::external_body]
pub struct ExError(Error);

/// A JSON document.
pub enum Json {
    Null,
    Bool(bool),
    /// A number, with its value where it is an integer that fits 64 bits
    /// with a sign.
    Number(Option<i64>),
    Text(Seq<char>),
    Array(Seq<Json>),
    Object(Map<Seq<char>, Json>),
}

/// The document that `v` holds.
pub uninterp spec fn json_of(v: Value) -> Json;

/// The fields that `m` holds.
pub uninterp spec fn fields_of(m: serde_json::Map<String, Value>) -> Map<Seq<char>, Json>;

/// The document that `text` is in JSON, if it is one.
pub uninterp spec fn parsed(text: Seq<char>) -> Option<Json>;

/// The documents that `vs` hold.
pub open spec fn jsons(vs: Seq<Value>) -> Seq<Json> {
    Seq::new(vs.len(), |i: int| json_of(vs[i]))
}

/// `serde_json::from_str` at `serde_json::Value`: the document that the
/// text is, or why it is none.
#[verifier::external_body]
pub(crate) fn parse_json(text: &str) -> (r: Result<Value, Error>)
    ensures
        match r {
            Ok(v) => parsed(text@) == Some(json_of(v)),
            Err(_) => parsed(text@) is None,
        },
{
    serde_json::from_str::<Value>(text)
}

/// `serde_json::Value::as_array`: the elements, where the document is an
/// array.
#[verifier::external_body]
pub(crate) fn value_as_array(v: &Value) -> (r: Option<&Vec<Value>>)
    ensures
        match json_of(*v) {
            Json::Array(items) => r matches Some(a) && jsons(a@) == items,
            _ => r is None,
        },
{
    v.as_array()
}

/// `serde_json::Value::as_object`: the fields, where the document is an
/// object.
#[verifier::external_body]
pub(crate) fn value_as_object(v: &Value) -> (r: Option<&serde_json::Map<String, Value>>)
    ensures
        match json_of(*v) {
            Json::Object(fields) => r matches Some(m) && fields_of(*m) == fields,
            _ => r is None,
        },
{
    v.as_object()
}

/// `serde_json::Map::get`: the field of that name, where there is one.
#[verifier::external_body]
pub(crate) fn map_get<'a>(m: &'a serde_json::Map<String, Value>, key: &str) -> (r: Option<
    &'a Value,
>)
    ensures
        match r {
            Some(v) => fields_of(*m).dom().contains(key@) && fields_of(*m)[key@] == json_of(*v),
            None => !fields_of(*m).dom().contains(key@),
        },
{
    m.get(key)
}

/// `serde_json::Value::as_i64`: the number, where the document is an
/// integer that fits 64 bits with a sign.
#[verifier::external_body]
pub(crate) fn value_as_i64(v: &Value) -> (r: Option<i64>)
    ensures
        r == match json_of(*v) {
            Json::Number(n) => n,
            _ => None,
        },
{
    v.as_i64()
}

/// `serde_json::Value::as_str`: the text, where the document is a string.
#[verifier::external_body]
pub(crate) fn value_as_str(v: &Value) -> (r: Option<&str>)
    ensures
        match json_of(*v) {
            Json::Text(s) => r matches Some(t) && t@ == s,
            _ => r is None,
        },
{
    v.as_str()
}

/// `serde_json::Value::as_bool`: the truth value, where the document is
/// one.
#[verifier::external_body]
pub(crate) fn value_as_bool(v: &Value) -> (r: Option<bool>)
    ensures
        r == match json_of(*v) {
            Json::Bool(b) => Some(b),
            _ => None,
        },
{
    v.as_bool()
}

} // verus!
