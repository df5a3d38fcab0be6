# openapi_generator

Generates code from OpenAPI specifications with a directory of Handlebars
templates. The specifications are read, their schema references into other
files are resolved into `components/schemas`, and every template is rendered
with the paths and schemas of all specifications.

## Layout

- `src/` is the verified library (Verus):
  - `value.rs`: the YAML document model, its view, and insertion-ordered map
    operations;
  - `locate.rs`, `naming.rs`: trusted bindings to the `url` crate,
    `std::path` and `heck`;
  - `parse.rs`, `yaml.rs`: trusted bindings that parse specification and
    schema text with `serde_yaml` and `openapiv3`;
  - `schema.rs`, `paths.rs`: what dereferencing does to schemas and to the
    paths of a specification, stated as spec functions, with their laws;
  - `support.rs`: which schemas the dereferencer supports;
  - `dereferencer.rs`: the dereferencer, a state machine whose caller loads
    the files it asks for;
  - `generator.rs`: the collection of specifications and the template data.
- `app/` is the program around it: command line, file reading, the loading
  loop, and template rendering.
- `tests/` exercises the library on concrete documents.
