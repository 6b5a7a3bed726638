//! JSON text in and out, through `serde_json`.
use vstd::prelude::*;
use super::json::{JsonValue, JsonView};
use super::record::FieldMap;
use serde_json::Value;

verus! {

/// `serde_json::Value`, handled only inside the conversions below.
#[verifier::external_type_specification]
#[verifier::external_body]
pub struct ExSerdeJsonValue(serde_json::Value);

/// The value that `serde_json::from_str` reads from a text, or the message of its
/// error (`Err`).
pub uninterp spec fn spec_parse_json(text: Seq<char>) -> Result<JsonView, Seq<char>>;

/// The compact JSON bytes that `serde_json::to_vec` writes for an object with the
/// given members (serde_json writes the members in key order).
pub uninterp spec fn spec_object_json(members: Seq<(Seq<char>, JsonView)>) -> Seq<u8>;

/// Conversion of a `serde_json::Value` into the library's value, one for one.
#[verifier::external_body]
fn from_serde(v: &serde_json::Value) -> JsonValue {
    match v {
        Value::Null => JsonValue::Null,
        Value::Bool(b) => JsonValue::Bool(*b),
        Value::Number(n) => match (n.as_i64(), n.as_u64()) {
            (Some(i), _) => JsonValue::Int(i),
            (None, Some(u)) => JsonValue::UInt(u),
            (None, None) => JsonValue::Float(n.to_string()),
        },
        Value::String(s) => JsonValue::Str(s.clone()),
        Value::Array(a) => JsonValue::Array(a.iter().map(from_serde).collect()),
        Value::Object(m) => JsonValue::Object(
            m.iter().map(|(k, x)| (k.clone(), from_serde(x))).collect(),
        ),
    }
}

/// Conversion of the library's value into a `serde_json::Value`, one for one.
#[verifier::external_body]
fn to_serde(v: &JsonValue) -> serde_json::Value {
    match v {
        JsonValue::Null => Value::Null,
        JsonValue::Bool(b) => Value::Bool(*b),
        JsonValue::Int(i) => Value::from(*i),
        JsonValue::UInt(u) => Value::from(*u),
        JsonValue::Float(t) => serde_json::from_str(t).unwrap_or(Value::Null),
        JsonValue::Str(s) => Value::String(s.clone()),
        JsonValue::Array(a) => Value::Array(a.iter().map(to_serde).collect()),
        JsonValue::Object(m) => Value::Object(
            m.iter().map(|(k, x)| (k.clone(), to_serde(x))).collect(),
        ),
    }
}

/// `serde_json::from_str::<Value>(text)`: the parsed value, or the message of the
/// parse error. The outcome is named, not stated.
#[verifier::external_body]
pub fn parse_json_text(text: &str) -> (r: Result<JsonValue, String>)
    ensures
        match r {
            Ok(v) => spec_parse_json(text@) == Ok::<JsonView, Seq<char>>(v@),
            Err(m) => spec_parse_json(text@) == Err::<JsonView, Seq<char>>(m@),
        },
{
    match serde_json::from_str::<serde_json::Value>(text) {
        Ok(v) => Ok(from_serde(&v)),
        Err(e) => Err(e.to_string()),
    }
}

/// `serde_json::to_vec` of the fields as a JSON object. The bytes are named, not
/// stated.
#[verifier::external_body]
pub fn fields_json_bytes(fields: &FieldMap) -> (r: Vec<u8>)
    ensures
        r@ == spec_object_json(fields@),
{
    let m: serde_json::Map<String, serde_json::Value> = fields.entries().iter().map(
        |(k, v)| (k.clone(), to_serde(v)),
    ).collect();
    serde_json::to_vec(&m).unwrap_or_default()
}

/// The JSON value of the floating-point number that a text denotes: what
/// `serde_json::json!` makes of the `f64` that std's `str::parse` reads from the text
/// (`null` for an infinite or NaN value), or `None` when the text is not a
/// floating-point number.
pub uninterp spec fn spec_float_value(text: Seq<char>) -> Option<JsonView>;

/// `text.parse::<f64>()`, as a JSON value (`serde_json::Number::from_f64`, `null` when
/// the number is not finite). The value is named, not stated.
#[verifier::external_body]
pub fn parse_float_value(text: &str) -> (r: Option<JsonValue>)
    ensures
        match r {
            Some(v) => spec_float_value(text@) == Some(v@),
            None => spec_float_value(text@) is None,
        },
{
    text.parse().ok().map(|x| match serde_json::Number::from_f64(x) {
        Some(n) => from_serde(&Value::Number(n)),
        None => JsonValue::Null,
    })
}

/// The compact JSON text that serde_json writes for a value (`Display` of `Value`).
pub uninterp spec fn spec_json_text(v: JsonView) -> Seq<char>;

/// `format!("{}", value)` of the value as a `serde_json::Value`: its compact JSON
/// text. The text is named, not stated.
#[verifier::external_body]
pub fn json_text(v: &JsonValue) -> (r: String)
    ensures
        r@ == spec_json_text(v@),
{
    to_serde(v).to_string()
}

/// The order of two values as numbers: `Value::as_f64` of each, then
/// `f64::partial_cmp` (-1, 0 or 1), or `None` when either is not a number.
pub uninterp spec fn spec_number_order(a: JsonView, b: JsonView) -> Option<i8>;

/// A JSON number.
pub open spec fn is_number(v: JsonView) -> bool {
    v is Int || v is UInt || v is Float
}

/// Compare two values as `f64` numbers (`as_f64` and `partial_cmp`): -1, 0 or 1, or
/// `None` when either is not a number. The order is named, not stated; what is stated
/// is that it is dual, as `PartialOrd` requires of `f64`: when `a` is less than `b`,
/// `b` is greater than `a`, and the other way round.
#[verifier::external_body]
pub fn number_order(a: &JsonValue, b: &JsonValue) -> (r: Option<i8>)
    ensures
        r == spec_number_order(a@, b@),
        !(is_number(a@) && is_number(b@)) ==> r is None,
        r matches Some(c) ==> -1 <= c <= 1,
        r == Some(1i8) ==> spec_number_order(b@, a@) == Some(-1i8),
        r == Some(-1i8) ==> spec_number_order(b@, a@) == Some(1i8),
{
    match (to_serde(a).as_f64(), to_serde(b).as_f64()) {
        (Some(x), Some(y)) => match x.partial_cmp(&y) {
            Some(std::cmp::Ordering::Less) => Some(-1),
            Some(std::cmp::Ordering::Equal) => Some(0),
            Some(std::cmp::Ordering::Greater) => Some(1),
            None => None,
        },
        _ => None,
    }
}

} // verus!
