//! The `serde_yaml` node type, declared for the parsing bindings of
//! [`crate::parse`].
use vstd::prelude::*;
use serde_yaml::Value as YamlNode;

verus! {

/// `serde_yaml::Value`, carried through the parsing bindings as an opaque
/// value.
#[verifier::external_type_specification]
#[verifier::external_body]
pub struct ExYamlNode(YamlNode);

} // verus!
