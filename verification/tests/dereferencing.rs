use openapi_generator::dereferencer::{Dereferencer, Task};
use openapi_generator::support::{is_supported_nested, is_supported_schema, is_supported_spec};
use openapi_generator::value::{copy_value, get_value, set_entry, values_equal, Value};
use std::path::PathBuf;
use url::Url;

fn s(x: &str) -> Value {
    Value::String(x.to_string())
}

fn map(entries: Vec<(&str, Value)>) -> Value {
    Value::Mapping(entries.into_iter().map(|(k, v)| (s(k), v)).collect())
}

fn reference(r: &str) -> Value {
    map(vec![("$ref", s(r))])
}

fn keys(v: &Value) -> Vec<String> {
    match v {
        Value::Mapping(es) => es
            .iter()
            .map(|(k, _)| match k {
                Value::String(t) => t.clone(),
                _ => String::new(),
            })
            .collect(),
        _ => Vec::new(),
    }
}

fn at<'a>(v: &'a Value, path: &[&str]) -> &'a Value {
    let mut cur = v;
    for k in path {
        cur = get_value(cur, k).unwrap_or_else(|| panic!("missing key {k}"));
    }
    cur
}

const BASE: &str = "file:///tmp/api/spec.yaml";

fn base() -> Url {
    Url::parse(BASE).unwrap()
}

#[test]
fn set_entry_replaces_in_place_and_appends_new_keys() {
    let mut es = vec![(s("a"), s("1")), (s("b"), s("2"))];
    set_entry(&mut es, "a", s("3"));
    assert_eq!(es, vec![(s("a"), s("3")), (s("b"), s("2"))]);
    set_entry(&mut es, "c", s("4"));
    assert_eq!(es, vec![(s("a"), s("3")), (s("b"), s("2")), (s("c"), s("4"))]);
}

#[test]
fn get_value_reads_the_first_matching_key() {
    let v = map(vec![("a", s("1")), ("b", s("2"))]);
    assert_eq!(get_value(&v, "b"), Some(&s("2")));
    assert_eq!(get_value(&v, "z"), None);
    assert_eq!(get_value(&s("a"), "a"), None);
}

#[test]
fn values_equal_and_copy_agree() {
    let v = map(vec![
        ("a", Value::Sequence(vec![s("x"), Value::Null, Value::Bool(true)])),
        ("n", Value::Number("1.5".to_string())),
        ("t", Value::Tagged("!tag".to_string(), Box::new(s("y")))),
    ]);
    let c = copy_value(&v);
    assert_eq!(c, v);
    assert!(values_equal(&c, &v));
    assert!(!values_equal(&v, &map(vec![("a", s("x"))])));
}

#[test]
fn reference_into_another_file_is_resolved() {
    let q = Dereferencer::deref_schema_reference(&base(), "user.yaml").unwrap();
    assert_eq!(q.name, "user");
    assert_eq!(q.url.as_str(), "file:///tmp/api/user.yaml");
    assert_eq!(q.file_path, PathBuf::from("/tmp/api/user.yaml"));
}

#[test]
fn reference_into_another_file_keeps_its_fragment_in_the_url() {
    let q = Dereferencer::deref_schema_reference(&base(), "models/pet.yml#/Pet").unwrap();
    assert_eq!(q.name, "pet");
    assert_eq!(q.url.as_str(), "file:///tmp/api/models/pet.yml#/Pet");
    assert_eq!(q.file_path, PathBuf::from("/tmp/api/models/pet.yml"));
}

#[test]
fn reference_within_the_same_file_is_kept() {
    assert!(Dereferencer::deref_schema_reference(&base(), "#/components/schemas/User").is_none());
}

#[test]
fn reference_to_a_web_address_is_kept() {
    assert!(Dereferencer::deref_schema_reference(&base(), "http://example.com/user.yaml").is_none());
}

#[test]
fn schema_reference_is_rewritten_and_requested() {
    let (v, reqs) = Dereferencer::deref_schema(&base(), &reference("user.yaml"));
    assert_eq!(v, reference("#/components/schemas/user"));
    assert_eq!(reqs.len(), 1);
    assert_eq!(reqs[0].name, "user");
}

#[test]
fn schema_box_behaves_as_schema() {
    let (v, reqs) = Dereferencer::deref_schema_box(&base(), &reference("#/components/schemas/A"));
    assert_eq!(v, reference("#/components/schemas/A"));
    assert!(reqs.is_empty());
}

#[test]
fn nested_schemas_of_objects_and_arrays_are_rewritten_in_order() {
    let schema = map(vec![
        ("type", s("object")),
        (
            "properties",
            map(vec![
                ("owner", reference("user.yaml")),
                (
                    "tags",
                    map(vec![("type", s("array")), ("items", reference("tag.yaml"))]),
                ),
                ("name", map(vec![("type", s("string"))])),
            ]),
        ),
        ("additionalProperties", reference("extra.yaml")),
    ]);
    let (v, reqs) = Dereferencer::deref_nested_schemas(&base(), &schema);
    let names: Vec<&str> = reqs.iter().map(|q| q.name.as_str()).collect();
    assert_eq!(names, vec!["user", "tag", "extra"]);
    assert_eq!(
        at(&v, &["properties", "owner"]),
        &reference("#/components/schemas/user")
    );
    assert_eq!(
        at(&v, &["properties", "tags", "items"]),
        &reference("#/components/schemas/tag")
    );
    assert_eq!(at(&v, &["additionalProperties"]), &reference("#/components/schemas/extra"));
    assert_eq!(at(&v, &["properties", "name"]), &map(vec![("type", s("string"))]));
}

#[test]
fn additional_properties_flag_is_kept() {
    let schema = map(vec![("type", s("object")), ("additionalProperties", Value::Bool(true))]);
    let (v, reqs) = Dereferencer::deref_nested_schemas(&base(), &schema);
    assert_eq!(v, schema);
    assert!(reqs.is_empty());
}

fn json_body(schema: Value) -> Value {
    map(vec![("content", map(vec![("application/json", map(vec![("schema", schema)]))]))])
}

#[test]
fn operation_rewrites_request_body_then_status_responses() {
    let op = map(vec![
        ("requestBody", json_body(reference("in.yaml"))),
        (
            "responses",
            map(vec![
                ("default", json_body(reference("err.yaml"))),
                ("200", json_body(reference("out.yaml"))),
                ("x-note", json_body(reference("note.yaml"))),
                ("404", reference("#/components/responses/NotFound")),
            ]),
        ),
    ]);
    let (v, reqs) = Dereferencer::deref_operation(&base(), &op);
    let names: Vec<&str> = reqs.iter().map(|q| q.name.as_str()).collect();
    assert_eq!(names, vec!["in", "out"]);
    assert_eq!(
        at(&v, &["responses", "default", "content", "application/json", "schema"]),
        &reference("err.yaml")
    );
    assert_eq!(
        at(&v, &["responses", "200", "content", "application/json", "schema"]),
        &reference("#/components/schemas/out")
    );
    assert_eq!(at(&v, &["responses", "404"]), &reference("#/components/responses/NotFound"));
}

#[test]
fn request_body_reference_is_left_alone() {
    let body = reference("#/components/requestBodies/B");
    let (v, reqs) = Dereferencer::deref_request_body(&base(), &body);
    assert_eq!(v, body);
    assert!(reqs.is_empty());
}

#[test]
fn response_content_is_rewritten() {
    let (v, reqs) = Dereferencer::deref_response(&base(), &json_body(reference("out.yaml")));
    assert_eq!(v, json_body(reference("#/components/schemas/out")));
    assert_eq!(reqs.len(), 1);
}

fn sample_spec() -> Value {
    map(vec![
        ("openapi", s("3.0.0")),
        ("info", map(vec![("title", s("Pet Store")), ("version", s("1"))])),
        (
            "paths",
            map(vec![
                (
                    "/pets/{id}",
                    map(vec![
                        (
                            "get",
                            map(vec![
                                ("operationId", s("getPet")),
                                ("responses", map(vec![("200", json_body(reference("pet.yaml")))])),
                            ]),
                        ),
                        (
                            "put",
                            map(vec![
                                ("parameters", Value::Sequence(vec![s("own")])),
                                ("requestBody", json_body(reference("pet.yaml"))),
                                ("responses", map(vec![])),
                            ]),
                        ),
                        ("parameters", Value::Sequence(vec![s("id")])),
                    ]),
                ),
                ("x-extension", map(vec![("get", s("ignored"))])),
            ]),
        ),
        ("file_path", s("/tmp/api/spec.yaml")),
    ])
}

#[test]
fn shared_parameters_are_appended_to_each_operation() {
    let mut d = Dereferencer::new();
    let mut spec = sample_spec();
    d.deref_spec(&mut spec);
    let get = at(&spec, &["paths", "/pets/{id}", "get"]);
    assert_eq!(keys(get), vec!["operationId", "parameters", "responses"]);
    assert_eq!(at(get, &["parameters"]), &Value::Sequence(vec![s("id")]));
    let put = at(&spec, &["paths", "/pets/{id}", "put"]);
    assert_eq!(at(put, &["parameters"]), &Value::Sequence(vec![s("own"), s("id")]));
    assert_eq!(at(&spec, &["paths", "x-extension"]), &map(vec![("get", s("ignored"))]));
}

#[test]
fn full_run_records_loaded_schemas_in_components() {
    let mut d = Dereferencer::new();
    let mut spec = sample_spec();
    d.deref_spec(&mut spec);
    assert!(d.resolving);
    let mut loads = Vec::new();
    while let Some(q) = d.next_load() {
        loads.push(q.file_path.clone());
        let content = if q.name == "pet" {
            map(vec![
                ("type", s("object")),
                ("properties", map(vec![("owner", reference("owner.yaml"))])),
            ])
        } else {
            map(vec![("type", s("string"))])
        };
        d.supply(&content);
    }
    assert_eq!(
        loads,
        ["/tmp/api/pet.yaml", "/tmp/api/owner.yaml", "/tmp/api/pet.yaml", "/tmp/api/owner.yaml"]
            .iter()
            .map(PathBuf::from)
            .collect::<Vec<_>>()
    );
    d.finish_spec(&mut spec);
    assert!(!d.resolving);
    let schemas = at(&spec, &["components", "schemas"]);
    assert_eq!(keys(schemas), vec!["owner", "pet"]);
    assert_eq!(
        at(schemas, &["pet", "properties", "owner"]),
        &reference("#/components/schemas/owner")
    );
    assert_eq!(
        at(&spec, &["paths", "/pets/{id}", "get", "responses", "200", "content", "application/json", "schema"]),
        &reference("#/components/schemas/pet")
    );
}

#[test]
fn next_load_records_finished_schemas_before_naming_a_file() {
    let mut d = Dereferencer::new();
    d.pending.push(Task::Record("a".to_string(), s("A")));
    assert!(d.next_load().is_none());
    assert_eq!(d.known_refs, vec![("a".to_string(), s("A"))]);
    assert!(d.pending.is_empty());
}

#[test]
fn spec_without_file_path_is_left_unchanged() {
    let mut d = Dereferencer::new();
    let mut spec = map(vec![("paths", map(vec![("/a", map(vec![("parameters", Value::Sequence(vec![s("p")])), ("get", map(vec![]))]))]))]);
    let before = copy_value(&spec);
    d.deref_spec(&mut spec);
    assert_eq!(spec, before);
    assert!(!d.resolving);
    assert!(d.pending.is_empty());
    d.finish_spec(&mut spec);
    assert_eq!(spec, before);
}

#[test]
fn base_url_comes_from_the_recorded_file_path() {
    assert_eq!(Dereferencer::base_url(&sample_spec()).map(|u| u.to_string()), Some(BASE.to_string()));
    let relative = map(vec![("file_path", s("relative/spec.yaml"))]);
    assert_eq!(Dereferencer::base_url(&relative), None);
}

#[test]
fn unsupported_schema_kinds_are_detected() {
    let one_of = map(vec![("oneOf", Value::Sequence(vec![]))]);
    assert!(!is_supported_nested(&one_of));
    assert!(is_supported_schema(&reference("x.yaml")));
    assert!(is_supported_nested(&map(vec![("type", s("integer"))])));
    let nested = map(vec![("type", s("array")), ("items", map(vec![("not", map(vec![]))]))]);
    assert!(!is_supported_schema(&nested));
}

#[test]
fn try_deref_spec_refuses_an_unsupported_specification() {
    let mut spec = sample_spec();
    if let Value::Mapping(es) = &mut spec {
        es[2] = (
            s("paths"),
            map(vec![(
                "/a",
                map(vec![(
                    "get",
                    map(vec![("responses", map(vec![("200", json_body(map(vec![("anyOf", Value::Sequence(vec![]))])))]))]),
                )]),
            )]),
        );
    }
    assert!(!is_supported_spec(&spec));
    let before = copy_value(&spec);
    let mut d = Dereferencer::new();
    assert!(!d.try_deref_spec(&mut spec));
    assert_eq!(spec, before);
    let mut ok = sample_spec();
    assert!(d.try_deref_spec(&mut ok));
}

fn some(x: &str) -> Option<String> {
    Some(x.to_string())
}

fn url(x: &str) -> Option<Url> {
    Some(Url::parse(x).unwrap())
}

fn path(x: &str) -> Option<PathBuf> {
    Some(PathBuf::from(x))
}

#[test]
fn reference_target_decides_from_the_url_results() {
    let q = Dereferencer::reference_target(
        url("file:///a/b.yaml"),
        "/a/b.yaml".to_string(),
        "/a/spec.yaml".to_string(),
        path("/a/b.yaml"),
        some("b"),
    )
    .unwrap();
    assert_eq!(q.name, "b");
    assert_eq!(q.url.as_str(), "file:///a/b.yaml");
    assert_eq!(q.file_path, PathBuf::from("/a/b.yaml"));
    assert!(Dereferencer::reference_target(
        url("file:///a/spec.yaml#/x"),
        "/a/spec.yaml".to_string(),
        "/a/spec.yaml".to_string(),
        path("/a/spec.yaml"),
        some("spec"),
    )
    .is_none());
    assert!(Dereferencer::reference_target(None, String::new(), "/a/spec.yaml".to_string(), None, None).is_none());
    assert!(Dereferencer::reference_target(url("http://h/b"), "/b".to_string(), "/a".to_string(), None, None).is_none());
    assert!(Dereferencer::reference_target(url("file:///"), "/".to_string(), "/a".to_string(), path("/"), None).is_none());
}

#[test]
fn base_path_with_parent_segment_is_joined_as_it_stands() {
    let spec = map(vec![("file_path", s("/tmp/api/sub/../spec.yaml"))]);
    let b = Dereferencer::base_url(&spec).unwrap();
    let direct = Url::from_file_path("/tmp/api/sub/../spec.yaml").unwrap();
    assert_eq!(b.as_str(), direct.as_str());
    let q = Dereferencer::deref_schema_reference(&b, "../user.yaml").unwrap();
    let expected = direct.join("../user.yaml").unwrap();
    assert_eq!(q.url.as_str(), expected.as_str());
    assert_eq!(q.file_path, expected.to_file_path().unwrap());
    let reparsed = Url::parse(b.as_str()).unwrap().join("../user.yaml").unwrap();
    assert_ne!(q.url.as_str(), reparsed.as_str());
}

#[test]
fn file_with_a_non_utf8_name_is_asked_for_under_its_own_path() {
    let q = Dereferencer::deref_schema_reference(&base(), "caf%FF.yaml").unwrap();
    let expected = base().join("caf%FF.yaml").unwrap().to_file_path().unwrap();
    assert_eq!(q.file_path, expected);
    assert!(q.file_path.to_str().is_none());
    assert_eq!(q.name, "caf\u{FFFD}");
}

#[test]
fn second_pass_over_a_schema_changes_nothing() {
    let schema = map(vec![
        ("type", s("object")),
        (
            "properties",
            map(vec![
                ("a", reference("a.yaml")),
                ("b", map(vec![("type", s("array")), ("items", reference("models/b.yaml#/B"))])),
                ("c", reference("#/components/schemas/Local")),
            ]),
        ),
        ("additionalProperties", reference("extra.yaml")),
    ]);
    let (first, reqs) = Dereferencer::deref_schema(&base(), &schema);
    assert_eq!(reqs.len(), 3);
    let (second, again) = Dereferencer::deref_schema(&base(), &first);
    assert!(values_equal(&first, &second));
    assert!(again.is_empty());
    assert_eq!(at(&first, &["properties", "a"]), &reference("#/components/schemas/a"));
    assert_eq!(at(&first, &["properties", "b", "items"]), &reference("#/components/schemas/b"));
    assert_eq!(at(&first, &["additionalProperties"]), &reference("#/components/schemas/extra"));
}

fn pending_pet_load() -> Dereferencer {
    let mut d = Dereferencer::new();
    let mut spec = sample_spec();
    d.deref_spec(&mut spec);
    let q = d.next_load().unwrap();
    assert_eq!(q.name, "pet");
    d
}

#[test]
fn schema_text_is_parsed_and_supplied() {
    let mut d = pending_pet_load();
    let before = d.pending.len();
    let text = "type: object\nproperties:\n  owner:\n    $ref: owner.yaml\n";
    assert!(d.supply_text(text).is_ok());
    assert_eq!(d.pending.len(), before + 1);
    match d.pending.last().unwrap() {
        Task::Load(q) => assert_eq!(q.name, "owner"),
        _ => panic!("expected a file to load on top"),
    }
    match &d.pending[before - 1] {
        Task::Record(name, schema) => {
            assert_eq!(name, "pet");
            assert_eq!(at(schema, &["properties", "owner"]), &reference("#/components/schemas/owner"));
        }
        _ => panic!("expected the schema to record"),
    }
}

#[test]
fn schema_text_that_does_not_parse_or_is_unsupported_is_refused() {
    let mut d = pending_pet_load();
    let before = d.pending.len();
    assert!(d.supply_text("type: [").is_err());
    assert!(d.supply_text("oneOf:\n  - type: string\n").is_err());
    assert_eq!(d.pending.len(), before);
    assert!(matches!(d.pending.last(), Some(Task::Load(_))));
}

#[test]
fn request_body_keeps_its_other_fields_and_media_type_order() {
    let body = map(vec![
        ("description", s("a pet")),
        (
            "content",
            map(vec![
                ("text/plain", map(vec![("example", s("x"))])),
                ("application/json", map(vec![("schema", reference("pet.yaml")), ("example", s("y"))])),
            ]),
        ),
        ("required", Value::Bool(true)),
    ]);
    let (v, reqs) = Dereferencer::deref_request_body(&base(), &body);
    assert_eq!(reqs.len(), 1);
    assert_eq!(keys(&v), vec!["description", "content", "required"]);
    assert_eq!(at(&v, &["description"]), &s("a pet"));
    assert_eq!(at(&v, &["required"]), &Value::Bool(true));
    let content = at(&v, &["content"]);
    assert_eq!(keys(content), vec!["text/plain", "application/json"]);
    assert_eq!(at(content, &["text/plain"]), &map(vec![("example", s("x"))]));
    assert_eq!(
        at(content, &["application/json"]),
        &map(vec![("schema", reference("#/components/schemas/pet")), ("example", s("y"))])
    );
}
