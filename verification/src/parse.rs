//! Reading specification and schema files: trusted bindings to `serde_yaml`
//! and `openapiv3`. The text of a file is parsed into the `openapiv3` type,
//! then brought into the library's document model in the form that
//! `openapiv3` serializes it.
use vstd::prelude::*;
use crate::value::{Value, Doc};

verus! {

/// The document that `serde_yaml::from_str::<openapiv3::OpenAPI>(text)`
/// gives, as `serde_yaml::to_value` serializes it; `None` where the text does
/// not parse as an OpenAPI document (or its serialization fails).
pub uninterp spec fn parsed_specification(text: Seq<char>) -> Option<Doc>;

/// The schema that `serde_yaml::from_str::<openapiv3::Schema>(text)` gives,
/// as `serde_yaml::to_value` serializes it; `None` where the text does not
/// parse as a schema (or its serialization fails).
pub uninterp spec fn parsed_schema(text: Seq<char>) -> Option<Doc>;

/// The library's form of a `serde_yaml` value: each node becomes the node of
/// the same kind (a number keeps its textual form, a tag its text). It is
/// used only by the parsing bindings below, whose contracts speak of their
/// results; nothing is claimed of it alone.
#[verifier::external_body]
fn library_value(v: &serde_yaml::Value) -> Value {
    match v {
        serde_yaml::Value::Null => Value::Null,
        serde_yaml::Value::Bool(b) => Value::Bool(*b),
        serde_yaml::Value::Number(n) => Value::Number(n.to_string()),
        serde_yaml::Value::String(s) => Value::String(s.clone()),
        serde_yaml::Value::Sequence(items) => Value::Sequence(items.iter().map(library_value).collect()),
        serde_yaml::Value::Mapping(m) => {
            Value::Mapping(m.iter().map(|(k, x)| (library_value(k), library_value(x))).collect())
        },
        serde_yaml::Value::Tagged(t) => {
            Value::Tagged(t.tag.to_string(), Box::new(library_value(&t.value)))
        },
    }
}

/// Calls `serde_yaml::from_str::<openapiv3::OpenAPI>` and then
/// `serde_yaml::to_value`; the contract claims only that a success is
/// [`parsed_specification`] of the text and a failure is where that is
/// `None`. The error text is `serde_yaml`'s message; nothing is claimed of it.
#[verifier::external_body]
pub(crate) fn parse_specification_text(text: &str) -> (r: Result<Value, String>)
    ensures
        match r {
            Ok(v) => parsed_specification(text@) == Some(v@),
            Err(_) => parsed_specification(text@) is None,
        },
{
    match serde_yaml::from_str::<openapiv3::OpenAPI>(text) {
        Ok(spec) => match serde_yaml::to_value(&spec) {
            Ok(v) => Ok(library_value(&v)),
            Err(e) => Err(e.to_string()),
        },
        Err(e) => Err(e.to_string()),
    }
}

/// Calls `serde_yaml::from_str::<openapiv3::Schema>` and then
/// `serde_yaml::to_value`; the contract claims only that a success is
/// [`parsed_schema`] of the text and a failure is where that is `None`. The
/// error text is `serde_yaml`'s message; nothing is claimed of it.
#[verifier::external_body]
pub(crate) fn parse_schema_text(text: &str) -> (r: Result<Value, String>)
    ensures
        match r {
            Ok(v) => parsed_schema(text@) == Some(v@),
            Err(_) => parsed_schema(text@) is None,
        },
{
    match serde_yaml::from_str::<openapiv3::Schema>(text) {
        Ok(schema) => match serde_yaml::to_value(&schema) {
            Ok(v) => Ok(library_value(&v)),
            Err(e) => Err(e.to_string()),
        },
        Err(e) => Err(e.to_string()),
    }
}

} // verus!
