//! Verified core of an OpenAPI code generator: the document model, the
//! resolution of schema references that point into other files, and the data
//! handed to the templates.
pub mod value;
pub mod locate;
pub mod parse;
pub mod yaml;
pub mod naming;
pub mod schema;
pub mod dereferencer;
pub mod walk;
pub mod paths;
pub mod support;
pub mod generator;
