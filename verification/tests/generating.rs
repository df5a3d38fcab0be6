use openapi_generator::generator::OpenApiGenerator;
use openapi_generator::value::{get_value, Value};

fn s(x: &str) -> Value {
    Value::String(x.to_string())
}

fn map(entries: Vec<(&str, Value)>) -> Value {
    Value::Mapping(entries.into_iter().map(|(k, v)| (s(k), v)).collect())
}

fn keys(v: &Value) -> Vec<String> {
    match v {
        Value::Mapping(es) => es
            .iter()
            .map(|(k, _)| match k {
                Value::String(t) => t.clone(),
                _ => String::new(),
            })
            .collect(),
        _ => Vec::new(),
    }
}

fn spec(title: &str, paths: Value, schemas: Option<Value>) -> Value {
    let mut entries = vec![
        ("openapi", s("3.0.0")),
        ("info", map(vec![("title", s(title)), ("version", s("1"))])),
        ("paths", paths),
    ];
    if let Some(sc) = schemas {
        entries.push(("components", map(vec![("schemas", sc)])));
    }
    map(entries)
}

#[test]
fn title_is_snake_cased() {
    let v = spec("Pet Store API", map(vec![]), None);
    assert_eq!(OpenApiGenerator::specification_title(&v), Some("pet_store_api".to_string()));
    assert_eq!(OpenApiGenerator::specification_title(&map(vec![])), None);
}

#[test]
fn specifications_are_filed_by_title_with_their_file_path() {
    let mut g = OpenApiGenerator::new();
    assert!(g.add_specification(&spec("Pet Store", map(vec![]), None), "/tmp/a.yaml"));
    assert_eq!(g.spec_count(), 1);
    assert_eq!(g.specs[0].0, "pet_store");
    assert_eq!(get_value(&g.specs[0].1, "file_path"), Some(&s("/tmp/a.yaml")));
    assert!(g.add_specification(&spec("PetStore", map(vec![]), None), "/tmp/b.yaml"));
    assert_eq!(g.spec_count(), 1);
    assert_eq!(get_value(&g.spec_at(0), "file_path"), Some(&s("/tmp/b.yaml")));
    assert!(!g.add_specification(&map(vec![]), "/tmp/c.yaml"));
    assert_eq!(g.spec_count(), 1);
}

#[test]
fn paths_keep_only_path_keys() {
    let mut g = OpenApiGenerator::new();
    let paths = map(vec![("/a", map(vec![])), ("x-ext", s("e")), ("/b", map(vec![]))]);
    g.add_specification(&spec("One", paths, None), "/tmp/one.yaml");
    let p = g.get_paths();
    assert_eq!(keys(&p), vec!["one"]);
    assert_eq!(keys(get_value(&p, "one").unwrap()), vec!["/a", "/b"]);
}

#[test]
fn schemas_of_all_specifications_are_merged() {
    let mut g = OpenApiGenerator::new();
    g.add_specification(
        &spec("One", map(vec![]), Some(map(vec![("A", s("a1")), ("B", s("b1"))]))),
        "/tmp/one.yaml",
    );
    g.add_specification(
        &spec("Two", map(vec![]), Some(map(vec![("B", s("b2")), ("C", s("c2"))]))),
        "/tmp/two.yaml",
    );
    g.add_specification(&spec("Three", map(vec![]), None), "/tmp/three.yaml");
    let sc = g.get_schemas();
    assert_eq!(keys(&sc), vec!["A", "B", "C"]);
    assert_eq!(get_value(&sc, "B"), Some(&s("b2")));
}

#[test]
fn template_data_holds_paths_schemas_and_version() {
    let mut g = OpenApiGenerator::new();
    g.add_specification(
        &spec("One", map(vec![("/a", map(vec![]))]), Some(map(vec![("A", s("a1"))]))),
        "/tmp/one.yaml",
    );
    let data = g.get_template_data("1.2.3");
    assert_eq!(keys(&data), vec!["paths", "components", "openapi_generator_version"]);
    assert_eq!(get_value(&data, "openapi_generator_version"), Some(&s("1.2.3")));
    let comps = get_value(&data, "components").unwrap();
    assert_eq!(keys(comps), vec!["schemas"]);
    assert_eq!(get_value(get_value(comps, "schemas").unwrap(), "A"), Some(&s("a1")));
    assert_eq!(keys(get_value(&data, "paths").unwrap()), vec!["one"]);
}

#[test]
fn replace_spec_keeps_the_title() {
    let mut g = OpenApiGenerator::new();
    g.add_specification(&spec("One", map(vec![]), None), "/tmp/one.yaml");
    g.replace_spec(0, s("other"));
    assert_eq!(g.specs[0], ("one".to_string(), s("other")));
}


#[test]
fn file_specification_records_the_path_under_the_given_title() {
    let mut g = OpenApiGenerator::new();
    g.file_specification("t".to_string(), &map(vec![("a", s("1"))]), "/tmp/t.yaml");
    assert_eq!(
        g.specs,
        vec![("t".to_string(), map(vec![("a", s("1")), ("file_path", s("/tmp/t.yaml"))]))]
    );
}

const PET_STORE: &str = "openapi: 3.0.0\ninfo:\n  title: Pet Store\n  version: '1.0'\npaths:\n  /pets:\n    get:\n      responses:\n        '200':\n          description: the pets\n";

#[test]
fn specification_text_is_parsed_with_its_title() {
    let (title, spec) = OpenApiGenerator::parse_specification(PET_STORE).unwrap();
    assert_eq!(title, "pet_store");
    let info = get_value(&spec, "info").unwrap();
    assert_eq!(get_value(info, "title"), Some(&s("Pet Store")));
    assert_eq!(get_value(&spec, "openapi"), Some(&s("3.0.0")));
    let paths = get_value(&spec, "paths").unwrap();
    assert_eq!(keys(paths), vec!["/pets"]);
}

#[test]
fn text_that_is_not_a_specification_is_refused() {
    assert!(OpenApiGenerator::parse_specification("paths: [").is_err());
    assert!(OpenApiGenerator::parse_specification("openapi: 3.0.0\npaths: {}\n").is_err());
}
