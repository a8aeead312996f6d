//! JSON as text: rendering and parsing, both done by `serde_json`.

use crate::json::{Json, JsonView};
use vstd::prelude::*;
use vstd::utf8::{decode_utf8, valid_utf8};

verus! {

/// A JSON value as `serde_json` holds it.
#[verifier::external_type_specification]
#[verifier::external_body]
pub struct ExValue(serde_json::Value);

/// Why `serde_json` could not parse.
#[verifier::external_type_specification]
#[verifier::external_body]
pub struct ExError(serde_json::Error);

/// The `serde_json` value that a JSON value becomes.
pub uninterp spec fn value_of(json: JsonView) -> serde_json::Value;

/// The JSON value that a `serde_json` value becomes.
pub uninterp spec fn json_of(value: serde_json::Value) -> JsonView;

/// The text that `serde_json::to_string` renders a value to.
pub uninterp spec fn value_text(value: serde_json::Value) -> Seq<char>;

/// What `serde_json::from_str` makes of a text.
pub uninterp spec fn text_value(text: Seq<char>) -> Option<serde_json::Value>;

/// What `serde_json::from_slice` makes of raw bytes.
pub uninterp spec fn bytes_value(bytes: Seq<u8>) -> Option<serde_json::Value>;

/// Does a value nest no deeper than `depth`, and hold neither a decimal number,
/// which is rounded when it is read, nor a key that `serde_json` keeps for itself?
pub open spec fn is_plain(json: JsonView, depth: nat) -> bool
    decreases depth,
{
    match json {
        JsonView::Decimal(_) => false,
        JsonView::Array(items) => depth > 0 && forall|i: int|
            0 <= i < items.len() ==> is_plain(#[trigger] items[i], (depth - 1) as nat),
        JsonView::Object(fields) => depth > 0 && forall|key: Seq<char>| #[trigger]
            fields.contains_key(key) ==> !"$serde_json::private::"@.is_prefix_of(key) && is_plain(
                fields[key],
                (depth - 1) as nat,
            ),
        _ => true,
    }
}

/// Is a value read back exactly as it was written? `serde_json` reads up to 127
/// levels of arrays and objects.
pub open spec fn is_faithful(json: JsonView) -> bool {
    is_plain(json, 127)
}

/// The `serde_json::Value` with the same content, variant by variant. A key
/// that occurs more than once keeps its last value, and a decimal text that is
/// no finite number becomes null. Exactly an object becomes an object, and where
/// there is no decimal number the content stays what it is.
#[verifier::external_body]
fn to_value(json: &Json) -> (value: serde_json::Value)
    ensures
        value == value_of(json@),
        (json_of(value) is Object) == (json@ is Object),
        is_faithful(json@) ==> json_of(value) == json@,
{
    match json {
        Json::Null => serde_json::Value::Null,
        Json::Bool(b) => serde_json::Value::Bool(*b),
        Json::Unsigned(n) => serde_json::Value::from(*n),
        Json::Negative(n) => serde_json::Value::from(*n),
        Json::Decimal(digits) => digits
            .parse()
            .ok()
            .and_then(serde_json::Number::from_f64)
            .map_or(serde_json::Value::Null, serde_json::Value::Number),
        Json::Text(s) => serde_json::Value::String(s.clone()),
        Json::Array(items) => items.iter().map(to_value).collect(),
        Json::Object(entries) => entries.iter().map(|e| (e.0.clone(), to_value(&e.1))).collect(),
    }
}

/// The JSON value with the same content as a `serde_json::Value`, variant by
/// variant. An integer is read with `as_u64`, else with `as_i64`; any other
/// number is carried by the text that its `to_string` gives, from which the same
/// number is parsed again. So the JSON value becomes the same `Value` again.
#[verifier::external_body]
fn from_value(value: serde_json::Value) -> (json: Json)
    ensures
        json@ == json_of(value),
        value_of(json@) == value,
{
    match value {
        serde_json::Value::Null => Json::Null,
        serde_json::Value::Bool(b) => Json::Bool(b),
        serde_json::Value::Number(n) => match (n.as_u64(), n.as_i64()) {
            (Some(u), _) => Json::Unsigned(u),
            (None, Some(i)) => Json::Negative(i),
            (None, None) => Json::Decimal(n.to_string()),
        },
        serde_json::Value::String(s) => Json::Text(s),
        serde_json::Value::Array(items) => Json::Array(items.into_iter().map(from_value).collect()),
        serde_json::Value::Object(fields) => {
            Json::Object(fields.into_iter().map(|f| (f.0, from_value(f.1))).collect())
        },
    }
}

/// `serde_json::to_string` on a `Value`, which never fails: the text depends
/// on the value alone, is compact, escapes every control character inside
/// strings, and so has no line break; that of an object opens with a brace.
/// `serde_json::from_str` reads the same value from it, where no decimal number,
/// reserved key or excess of nesting stands in the way.
#[verifier::external_body]
fn render(value: &serde_json::Value) -> (text: String)
    ensures
        text@ == value_text(*value),
        forall|i: int| 0 <= i < text@.len() ==> text@[i] != '\n' && text@[i] != '\r',
        json_of(*value) is Object ==> text@.len() > 0 && text@[0] == '{',
        is_faithful(json_of(*value)) ==> parsed_text(text@) == Some(json_of(*value)),
{
    serde_json::to_string(value).unwrap_or_default()
}

/// `serde_json::from_str` into a `Value`: whether it succeeds, and with what
/// value, depends on the text alone.
#[verifier::external_body]
fn read_text(text: &str) -> (result: Result<serde_json::Value, serde_json::Error>)
    ensures
        match result {
            Ok(value) => text_value(text@) == Some(value),
            Err(_) => text_value(text@) is None,
        },
{
    serde_json::from_str(text)
}

/// `serde_json::from_slice` into a `Value`: whether it succeeds, and with what
/// value, depends on the bytes alone; where they are UTF-8, it is what
/// `serde_json::from_str` makes of their text.
#[verifier::external_body]
fn read_bytes(bytes: &[u8]) -> (result: Result<serde_json::Value, serde_json::Error>)
    ensures
        match result {
            Ok(value) => bytes_value(bytes@) == Some(value),
            Err(_) => bytes_value(bytes@) is None,
        },
        valid_utf8(bytes@) ==> match result {
            Ok(value) => text_value(decode_utf8(bytes@)) == Some(value),
            Err(_) => text_value(decode_utf8(bytes@)) is None,
        },
{
    serde_json::from_slice(bytes)
}

/// The compact text of a JSON value.
pub open spec fn json_text(json: JsonView) -> Seq<char> {
    value_text(value_of(json))
}

/// The JSON value that a text holds, if it holds one.
pub open spec fn parsed_text(text: Seq<char>) -> Option<JsonView> {
    match text_value(text) {
        Some(value) => Some(json_of(value)),
        None => None,
    }
}

/// The JSON value that raw bytes hold, if they hold one.
pub open spec fn parsed_bytes(bytes: Seq<u8>) -> Option<JsonView> {
    match bytes_value(bytes) {
        Some(value) => Some(json_of(value)),
        None => None,
    }
}

/// Is there no line break in the text?
pub open spec fn single_line(text: Seq<char>) -> bool {
    forall|i: int| 0 <= i < text.len() ==> text[i] != '\n' && text[i] != '\r'
}

/// Renders a JSON value as compact text, on one line. Parsing that text gives the
/// value back, where it can be read back at all.
pub fn to_text(json: &Json) -> (text: String)
    ensures
        text@ == json_text(json@),
        single_line(text@),
        json@ is Object ==> text@.len() > 0 && text@[0] == '{',
        is_faithful(json@) ==> parsed_text(text@) == Some(json@),
{
    let value = to_value(json);
    render(&value)
}

/// Parses a text as JSON.
pub fn parse_text(text: &str) -> (json: Option<Json>)
    ensures
        match json {
            Some(json) => parsed_text(text@) == Some(json@) && text_value(text@) == Some(
                value_of(json@),
            ),
            None => parsed_text(text@) is None,
        },
{
    match read_text(text) {
        Ok(value) => Some(from_value(value)),
        Err(_) => None,
    }
}

/// Parses raw bytes as JSON.
pub fn parse_bytes(bytes: &[u8]) -> (json: Option<Json>)
    ensures
        match json {
            Some(json) => parsed_bytes(bytes@) == Some(json@) && bytes_value(bytes@) == Some(
                value_of(json@),
            ),
            None => parsed_bytes(bytes@) is None,
        },
        valid_utf8(bytes@) ==> parsed_bytes(bytes@) == parsed_text(decode_utf8(bytes@)),
{
    match read_bytes(bytes) {
        Ok(value) => Some(from_value(value)),
        Err(_) => None,
    }
}

} // verus!
