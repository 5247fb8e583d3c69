//! Calls into `serde_json` and `jsonschema` on the library's JSON values.
//!
//! The two conversions below change only the type of a value, one node for
//! one node, between [`JsonValue`] and `serde_json::Value`; the functions that
//! follow hand the converted values to the outside crates.

use vstd::prelude::*;

use crate::json::{JsonNumber, JsonValue, JsonView, NumberView};
use crate::validation_pipeline::texts;

verus! {

#[verifier::external_type_specification]
#[verifier::external_body]
pub struct ExSerdeValue(serde_json::Value);

#[verifier::external_type_specification]
#[verifier::external_body]
pub struct ExSerdeNumber(serde_json::Number);

/// `serde_json::Value` of a [`JsonValue`], node for node.  A
/// [`JsonNumber::Float`] whose text `serde_json` does not read as a number
/// becomes `null`; the floats this library makes come from `serde_json`'s own
/// text of a number and always read back.
#[verifier::external_body]
fn serde_of(v: &JsonValue) -> serde_json::Value {
    match v {
        JsonValue::Null => serde_json::Value::Null,
        JsonValue::Bool(b) => serde_json::Value::Bool(*b),
        JsonValue::Number(n) => serde_number_of(n).map_or(serde_json::Value::Null, serde_json::Value::Number),
        JsonValue::String(s) => serde_json::Value::String(s.clone()),
        JsonValue::Array(a) => serde_json::Value::Array(a.iter().map(serde_of).collect()),
        JsonValue::Object(e) => serde_json::Value::Object(e.iter().map(|(k, x)| (k.clone(), serde_of(x))).collect()),
    }
}

/// `serde_json::Number` of a [`JsonNumber`].
#[verifier::external_body]
fn serde_number_of(n: &JsonNumber) -> Option<serde_json::Number> {
    match n {
        JsonNumber::PosInt(u) => Some(serde_json::Number::from(*u)),
        JsonNumber::NegInt(i) => Some(serde_json::Number::from(*i)),
        JsonNumber::Float(t) => t.parse::<serde_json::Number>().ok(),
    }
}

/// [`JsonNumber`] of a `serde_json::Number`.
#[verifier::external_body]
fn number_of_serde(n: &serde_json::Number) -> JsonNumber {
    match (n.as_u64(), n.as_i64()) {
        (Some(u), _) => JsonNumber::PosInt(u),
        (None, Some(i)) => JsonNumber::NegInt(i),
        (None, None) => JsonNumber::Float(n.to_string()),
    }
}

/// [`JsonValue`] of a `serde_json::Value`, node for node.
#[verifier::external_body]
fn value_of_serde(v: &serde_json::Value) -> JsonValue {
    match v {
        serde_json::Value::Null => JsonValue::Null,
        serde_json::Value::Bool(b) => JsonValue::Bool(*b),
        serde_json::Value::Number(n) => JsonValue::Number(number_of_serde(n)),
        serde_json::Value::String(s) => JsonValue::String(s.clone()),
        serde_json::Value::Array(a) => JsonValue::Array(a.iter().map(value_of_serde).collect()),
        serde_json::Value::Object(m) => JsonValue::Object(m.iter().map(|(k, x)| (k.clone(), value_of_serde(x))).collect()),
    }
}

/// What the `jsonschema` crate (draft 7) reports of `instance` against
/// `schema`: the texts of the violations found (none when the instance is
/// valid), or the text of the error met compiling the schema.
pub uninterp spec fn draft7_outcome(schema: JsonView, instance: JsonView) -> Result<Seq<Seq<char>>, Seq<char>>;

/// Checks `instance` against `schema` with `jsonschema::JSONSchema` in draft 7
/// (`CompilationOptions::compile`, then `JSONSchema::validate`, each error
/// rendered by its `Display`).  The outcome is a function of the two values
/// alone; what it is for given values is left to the crate.
#[verifier::external_body]
pub(crate) fn check_draft7(schema: &JsonValue, instance: &JsonValue) -> (r: Result<Vec<String>, String>)
    ensures
        match r {
            Ok(v) => draft7_outcome(schema@, instance@) == Ok::<Seq<Seq<char>>, Seq<char>>(texts(v@)),
            Err(e) => draft7_outcome(schema@, instance@) == Err::<Seq<Seq<char>>, Seq<char>>(e@),
        },
{
    let (schema, instance) = (serde_of(schema), serde_of(instance));
    match jsonschema::JSONSchema::options().with_draft(jsonschema::Draft::Draft7).compile(&schema) {
        Err(e) => Err(e.to_string()),
        Ok(compiled) => Ok(match compiled.validate(&instance) {
            Ok(()) => Vec::new(),
            Err(errors) => errors.map(|e| e.to_string()).collect(),
        }),
    }
}

/// The number `serde_json::Number::from_f64` makes of the floating point
/// value of `n` (`serde_json::Number::as_f64`).
pub uninterp spec fn float_of_number(n: NumberView) -> Option<NumberView>;

/// `serde_json::Number::from_f64(n.as_f64())`: `n` as a floating point number.
#[verifier::external_body]
pub(crate) fn number_as_float(n: &JsonNumber) -> (r: Option<JsonNumber>)
    ensures
        match r {
            Some(x) => float_of_number(n@) == Some(x@),
            None => float_of_number(n@) is None,
        },
{
    let f = serde_number_of(n)?.as_f64()?;
    serde_json::Number::from_f64(f).map(|x| number_of_serde(&x))
}

/// The compact JSON text that `serde_json` writes for a value.
pub uninterp spec fn compact_json(v: JsonView) -> Seq<char>;

/// `Display` of `serde_json::Value`: the compact JSON text of `v`.  The text is
/// a function of the value alone; what it is for given values is left to the
/// crate.
#[verifier::external_body]
pub(crate) fn json_text(v: &JsonValue) -> (r: String)
    ensures
        r@ == compact_json(v@),
{
    serde_of(v).to_string()
}

/// The value `serde_json` parses from a JSON text, if the text is valid JSON.
pub uninterp spec fn parse_json(text: Seq<char>) -> Option<JsonView>;

/// `serde_json::from_str::<serde_json::Value>`: the value of a JSON text, or
/// nothing when the text is not valid JSON.
#[verifier::external_body]
pub(crate) fn parse_json_text(text: &str) -> (r: Option<JsonValue>)
    ensures
        match r {
            Some(v) => parse_json(text@) == Some(v@),
            None => parse_json(text@) is None,
        },
{
    serde_json::from_str::<serde_json::Value>(text).ok().map(|v| value_of_serde(&v))
}

} // verus!
