//! JSON values and their text.
use serde_json::Value;
use vstd::prelude::*;

verus! {

#[verifier::external_type_specification]
#[verifier::external_body]
pub struct ExValue(serde_json::Value);

/// What a JSON value says.
pub ghost enum Json {
    Text(Seq<char>),
    Count(nat),
    List(Seq<Json>),
    Object(Map<Seq<char>, Json>),
}

/// What `value` says.
pub uninterp spec fn json_content(value: Value) -> Json;

/// The text of a JSON value on many lines, as `serde_json::to_string_pretty` lays it out. The
/// members of an object are held in a `BTreeMap`, so their text does not depend on the order in
/// which they were set.
pub uninterp spec fn pretty_json(content: Json) -> Seq<char>;

/// The text of a JSON value on one line, as `serde_json::to_string` lays it out.
pub uninterp spec fn compact_json(content: Json) -> Seq<char>;

/// What the values of a list say.
pub open spec fn json_contents(values: Seq<Value>) -> Seq<Json> {
    values.map_values(|v: Value| json_content(v))
}

/// `serde_json::Value::String`: a JSON string.
#[verifier::external_body]
pub(crate) fn json_text(text: &str) -> (r: Value)
    ensures
        json_content(r) == Json::Text(text@),
{
    Value::String(text.to_owned())
}

/// `serde_json::Value::from` on a `usize`: a JSON number.
#[verifier::external_body]
pub(crate) fn json_count(n: usize) -> (r: Value)
    ensures
        json_content(r) == Json::Count(n as nat),
{
    Value::from(n)
}

/// `serde_json::Value::Array`: a JSON list of these values.
#[verifier::external_body]
pub(crate) fn json_list(values: Vec<Value>) -> (r: Value)
    ensures
        json_content(r) == Json::List(json_contents(values@)),
{
    Value::Array(values)
}

/// `serde_json::Value::Object` of `serde_json::Map::new`: a JSON object without members.
#[verifier::external_body]
pub(crate) fn json_object() -> (r: Value)
    ensures
        json_content(r) == Json::Object(Map::empty()),
{
    Value::Object(serde_json::Map::new())
}

/// Assignment through `serde_json::Value`'s `IndexMut`: sets a member of an object. It
/// panics on a value that is neither an object nor null.
#[verifier::external_body]
pub(crate) fn json_set(object: &mut Value, key: &str, value: Value)
    requires
        json_content(*old(object)) is Object,
    ensures
        json_content(*final(object)) == Json::Object(
            json_content(*old(object))->Object_0.insert(key@, json_content(value)),
        ),
{
    object[key] = value;
}

/// `serde_json::to_string_pretty`, which does not fail on a `Value`: its keys are strings.
#[verifier::external_body]
pub(crate) fn json_pretty(value: &Value) -> (r: String)
    ensures
        r@ == pretty_json(json_content(*value)),
{
    serde_json::to_string_pretty(value).unwrap()
}

/// `serde_json::to_string`, which does not fail on a `Value`: its keys are strings.
#[verifier::external_body]
pub(crate) fn json_compact(value: &Value) -> (r: String)
    ensures
        r@ == compact_json(json_content(*value)),
{
    serde_json::to_string(value).unwrap()
}

} // verus!
