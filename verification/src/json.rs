use serde_json::Value;
use vstd::prelude::*;

verus! {

#[verifier::external_type_specification]
#[verifier::external_body]
pub struct ExValue(Value);

/// What a JSON value holds.
pub enum JsonModel {
    Null,
    Bool(bool),
    /// A number, by a code that two numbers share exactly when they are equal as JSON
    /// values.
    Number(int),
    Text(Seq<char>),
    Array(Seq<JsonModel>),
    Object(Map<Seq<char>, JsonModel>),
}

/// What the JSON value `v` holds.
pub uninterp spec fn json_model(v: Value) -> JsonModel;

/// What the JSON text `text` denotes; `None` where it is no JSON.
pub uninterp spec fn parsed_json(text: Seq<char>) -> Option<JsonModel>;

/// The member `key` of an object; `None` for what is no object or has no such member.
pub open spec fn member_of(m: JsonModel, key: Seq<char>) -> Option<JsonModel> {
    match m {
        JsonModel::Object(members) => if members.contains_key(key) {
            Some(members[key])
        } else {
            None
        },
        _ => None,
    }
}

/// The element at `index` of an array; `None` for what is no array or is shorter.
pub open spec fn element_of(m: JsonModel, index: usize) -> Option<JsonModel> {
    match m {
        JsonModel::Array(elements) => if index < elements.len() {
            Some(elements[index as int])
        } else {
            None
        },
        _ => None,
    }
}

/// Calls `serde_json::from_str` for a `Value`. Trusted: the value holds what the text
/// denotes, and there is none where the text is no JSON.
#[verifier::external_body]
pub(crate) fn json_parse(text: &str) -> (r: Option<Value>)
    ensures
        match r {
            Some(v) => parsed_json(text@) == Some(json_model(v)),
            None => parsed_json(text@) is None,
        },
{
    serde_json::from_str::<Value>(text).ok()
}

/// Calls `Value::get` with a string. Trusted: it gives the member of that name of an
/// object, and nothing for any other value or a missing member.
#[verifier::external_body]
pub(crate) fn json_member<'a>(v: &'a Value, key: &str) -> (r: Option<&'a Value>)
    ensures
        match r {
            Some(c) => member_of(json_model(*v), key@) == Some(json_model(*c)),
            None => member_of(json_model(*v), key@) is None,
        },
{
    v.get(key)
}

/// Calls `Value::get` with an index. Trusted: it gives the element at that index of an
/// array, and nothing for any other value or an index past the end.
#[verifier::external_body]
pub(crate) fn json_element<'a>(v: &'a Value, index: usize) -> (r: Option<&'a Value>)
    ensures
        match r {
            Some(c) => element_of(json_model(*v), index) == Some(json_model(*c)),
            None => element_of(json_model(*v), index) is None,
        },
{
    v.get(index)
}

/// Calls `Value::eq`. Trusted: two values are equal exactly when they hold the same.
#[verifier::external_body]
pub(crate) fn json_equal(a: &Value, b: &Value) -> (r: bool)
    ensures
        r == (json_model(*a) == json_model(*b)),
{
    a == b
}

/// Builds `Value::String`. Trusted: the value holds the text.
#[verifier::external_body]
pub(crate) fn json_text(s: &str) -> (r: Value)
    ensures
        json_model(r) == JsonModel::Text(s@),
{
    Value::String(s.to_string())
}

/// Builds `Value::Bool`. Trusted: the value holds the truth value.
#[verifier::external_body]
pub(crate) fn json_bool(b: bool) -> (r: Value)
    ensures
        json_model(r) == JsonModel::Bool(b),
{
    Value::Bool(b)
}

} // verus!
