//! JSON documents as `serde_json` holds them, and what is taken for granted
//! of the functions of `serde_json` that the library calls.

use vstd::prelude::*;

verus! {

/// `serde_json::Value`: a JSON document. What it holds is seen through
/// [`json_model`] only.
#[verifier::external_type_specification]
#[verifier::external_body]
pub struct ExJsonValue(serde_json::Value);

/// `serde_json::Map`: the members of a JSON object. What it holds is seen
/// through [`object_members`] only.
#[verifier::external_type_specification]
#[verifier::external_body]
#[verifier::reject_recursive_types(K)]
#[verifier::reject_recursive_types(V)]
pub struct ExJsonMap<K, V>(serde_json::Map<K, V>);

/// A number of a JSON document: an integer, or a number with a fraction or
/// an exponent, which is held by the bits of its binary form.
pub ghost enum NumberModel {
    Integer(int),
    Real(u64),
}

/// The mathematical content of a JSON document.
pub ghost enum JsonModel {
    Null,
    Bool(bool),
    Number(NumberModel),
    Text(Seq<char>),
    List(Seq<JsonModel>),
    Object(Map<Seq<char>, JsonModel>),
}

/// What `serde_json` reads from a text: the document, or `None` where the
/// text is no JSON document.
pub uninterp spec fn json_parse(text: Seq<u8>) -> Option<JsonModel>;

/// The document that a `serde_json::Value` holds.
pub uninterp spec fn json_model(value: serde_json::Value) -> JsonModel;

/// The members that a `serde_json::Map` holds, by their keys.
pub uninterp spec fn object_members(object: serde_json::Map<String, serde_json::Value>) -> Map<
    Seq<char>,
    JsonModel,
>;

impl JsonModel {
    /// The text of a document that is a string.
    pub open spec fn as_text(self) -> Option<Seq<char>> {
        match self {
            JsonModel::Text(s) => Some(s),
            _ => None,
        }
    }

    /// The value of a document that is an integer between the least and
    /// the greatest `i64`.
    pub open spec fn as_i64(self) -> Option<i64> {
        match self {
            JsonModel::Number(NumberModel::Integer(i)) if i64::MIN <= i <= i64::MAX => Some(
                i as i64,
            ),
            _ => None,
        }
    }
}

/// The members of an object that has none.
pub open spec fn no_members() -> Map<Seq<char>, JsonModel> {
    Map::empty()
}

/// The document that an optional value holds.
pub open spec fn optional_model(value: Option<serde_json::Value>) -> Option<JsonModel> {
    match value {
        Some(v) => Some(json_model(v)),
        None => None,
    }
}

/// `serde_json::Value::as_str`: the string of a value that is a string, and
/// `None` for every other value.
pub assume_specification<'a>[ serde_json::Value::as_str ](value: &'a serde_json::Value) -> (res:
    Option<&'a str>)
    ensures
        match res {
            Some(s) => json_model(*value).as_text() == Some(s@),
            None => json_model(*value).as_text() is None,
        },
;

/// `serde_json::Value::as_i64`: the value of a number that is an integer
/// and fits `i64`, and `None` for every other value.
pub assume_specification[ serde_json::Value::as_i64 ](value: &serde_json::Value) -> (res: Option<
    i64,
>)
    ensures
        res == json_model(*value).as_i64(),
;

/// `serde_json::from_slice` at the type `serde_json::Value`. The value holds
/// the document that the text denotes; there is none where the text is not
/// one JSON document.
#[verifier::external_body]
pub(crate) fn parse_value(text: &[u8]) -> (res: Option<serde_json::Value>)
    ensures
        optional_model(res) == json_parse(text@),
{
    serde_json::from_slice::<serde_json::Value>(text).ok()
}

/// Takes the map out of a `serde_json::Value` that is an object, which is
/// what `serde_json::Value::as_object` lends. No other value has one.
#[verifier::external_body]
pub(crate) fn into_object(value: serde_json::Value) -> (res: Option<
    serde_json::Map<String, serde_json::Value>,
>)
    ensures
        match res {
            Some(object) => json_model(value) == JsonModel::Object(object_members(object)),
            None => !(json_model(value) is Object),
        },
{
    match value {
        serde_json::Value::Object(object) => Some(object),
        _ => None,
    }
}

/// `serde_json::Map::get`: the value under `key`, if the map has that key.
#[verifier::external_body]
pub(crate) fn object_get<'a>(
    object: &'a serde_json::Map<String, serde_json::Value>,
    key: &str,
) -> (res: Option<&'a serde_json::Value>)
    ensures
        match res {
            Some(value) => object_members(*object).contains_key(key@) && json_model(*value)
                == object_members(*object)[key@],
            None => !object_members(*object).contains_key(key@),
        },
{
    object.get(key)
}

/// `serde_json::Map::remove`: the map loses `key`, if it had it, and keeps
/// every other member.
#[verifier::external_body]
pub(crate) fn object_remove(object: &mut serde_json::Map<String, serde_json::Value>, key: &str)
    ensures
        object_members(*final(object)) == object_members(*old(object)).remove(key@),
{
    object.remove(key);
}

/// `serde_json::Map::insert`: the map holds `value` under `key`, in place of
/// what it held there, and keeps every other member.
#[verifier::external_body]
pub(crate) fn object_insert(
    object: &mut serde_json::Map<String, serde_json::Value>,
    key: String,
    value: serde_json::Value,
)
    ensures
        object_members(*final(object)) == object_members(*old(object)).insert(
            key@,
            json_model(value),
        ),
{
    object.insert(key, value);
}

/// `serde_json::Map::new`: a map without members.
#[verifier::external_body]
pub(crate) fn empty_object() -> (res: serde_json::Map<String, serde_json::Value>)
    ensures
        object_members(res) == no_members(),
{
    serde_json::Map::new()
}

/// The `serde_json::Value` that is the string `text`.
#[verifier::external_body]
pub(crate) fn json_text(text: String) -> (res: serde_json::Value)
    ensures
        json_model(res) == JsonModel::Text(text@),
{
    serde_json::Value::String(text)
}

/// The `serde_json::Value` that is the object with the members of `object`.
#[verifier::external_body]
pub(crate) fn json_object(object: serde_json::Map<String, serde_json::Value>) -> (res:
    serde_json::Value)
    ensures
        json_model(res) == JsonModel::Object(object_members(object)),
{
    serde_json::Value::Object(object)
}

} // verus!
