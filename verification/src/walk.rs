//! Walking a specification: the exec functions that rewrite its schema
//! references, from a single reference up to the whole `paths` section.
use vstd::prelude::*;
use crate::value::{
    Doc, Value, copy_value, copy_table, copy_items, docs_of, entries_of, find_key, get, get_value,
    is_text, set_entry, table_get, text, lemma_first_index,
};
use crate::paths::{
    map_entries, deref_media_type_doc, media_step, deref_body_doc, is_status_key, response_step,
    deref_operation_doc, verb, list_items, path_parameters, with_parameters_doc, propagate_doc,
    deref_verbs_doc, deref_path_item_doc, is_path_key, path_step, deref_spec_doc,
    supported_media_type, supported_body, supported_operation, supported_path_item,
    supported_spec, lemma_with_parameters, lemma_propagate,
};
use crate::locate::{text_view, url_join, path_of_url, file_path_of_url, stem_of_path};
use crate::schema::{
    Load, LoadRequest, loads_of, component_reference, reference_doc, resolve, reference_target,
    supported_schema, supported_nested, supported_properties, deref_schema_doc, deref_nested_doc,
    deref_properties_doc,
};
use crate::dereferencer::Dereferencer;
use url::Url;
use std::path::PathBuf;

verus! {
/// Whether two strings are equal.
fn same_text(a: &String, b: &String) -> (r: bool)
    ensures
        r == (a@ == b@),
{
    *a == *b
}

/// The text of the reference to the schema recorded under `name`.
fn component_reference_text(name: &String) -> (r: String)
    ensures
        r@ == component_reference(name@),
{
    let mut s = String::from_str("#/components/schemas/");
    s.append(name.as_str());
    s
}

/// A schema position that holds the reference `r`.
fn reference_value(r: String) -> (v: Value)
    ensures
        v@ == reference_doc(r@),
{
    let mut es: Vec<(Value, Value)> = Vec::new();
    es.push((text("$ref"), Value::String(r)));
    let ghost esv = es@;
    let v = Value::Mapping(es);
    assert(entries_of(esv)[0] == (esv[0].0@, esv[0].1@));
    assert(entries_of(esv) =~= reference_doc(r@)->Table_0);
    v
}

/// Every value of a supported sequence of properties is supported.
proof fn lemma_supported_properties(ps: Seq<(Doc, Doc)>)
    requires
        supported_properties(ps),
    ensures
        forall|k: int| 0 <= k < ps.len() ==> supported_schema(#[trigger] ps[k].1),
    decreases ps.len(),
{
    if ps.len() > 0 {
        lemma_supported_properties(ps.drop_last());
        assert forall|k: int| 0 <= k < ps.len() implies supported_schema(#[trigger] ps[k].1) by {
            if k < ps.len() - 1 {
                assert(ps.drop_last()[k] == ps[k]);
            }
        }
    }
}

/// The view of the requests of two sequences put together.
proof fn lemma_loads_concat(a: Seq<LoadRequest>, b: Seq<LoadRequest>)
    ensures
        loads_of(a + b) == loads_of(a) + loads_of(b),
{
    assert(loads_of(a + b) =~= loads_of(a) + loads_of(b));
}

impl Dereferencer {
    /// Where the reference `reference`, read against `base_url`, leads (see
    /// [`resolve`]): the file to load and the name to record it under, or
    /// `None` where the reference stays in the same file or names no file.
    pub fn deref_schema_reference(base_url: &Url, reference: &str) -> (r: Option<LoadRequest>)
        ensures
            match r {
                Some(q) => resolve(*base_url, reference@) == Some(q@),
                None => resolve(*base_url, reference@) is None,
            },
    {
        let url = match url_join(base_url, reference) {
            Some(u) => u,
            None => return None,
        };
        let target_path = path_of_url(&url);
        let base_path = path_of_url(base_url);
        let file_path = file_path_of_url(&url);
        let stem = match &file_path {
            Some(f) => stem_of_path(f),
            None => None,
        };
        Self::reference_target(Some(url), target_path, base_path, file_path, stem)
    }

    /// What a reference leads to, given the joined URL, the paths of it and
    /// of the base URL, the file it names and that file's stem (see
    /// [`reference_target`]).
    pub fn reference_target(
        url: Option<Url>,
        url_path: String,
        base_path: String,
        file_path: Option<PathBuf>,
        stem: Option<String>,
    ) -> (r: Option<LoadRequest>)
        ensures
            match r {
                Some(q) => reference_target(url, url_path@, base_path@, file_path, text_view(stem))
                    == Some(q@),
                None => reference_target(url, url_path@, base_path@, file_path, text_view(stem))
                    is None,
            },
    {
        let url = match url {
            Some(u) => u,
            None => return None,
        };
        if same_text(&url_path, &base_path) {
            return None;
        }
        let file_path = match file_path {
            Some(f) => f,
            None => return None,
        };
        let name = match stem {
            Some(n) => n,
            None => return None,
        };
        Some(LoadRequest { name, url, file_path })
    }

    /// Rewrites a schema position (see [`deref_schema_doc`]): a reference
    /// into another file becomes a reference into `components/schemas`, with
    /// a request to load that file; a schema has its nested positions
    /// rewritten.
    pub fn deref_schema(base_url: &Url, schema: &Value) -> (r: (Value, Vec<LoadRequest>))
        requires
            supported_schema(schema@),
        ensures
            r.0@ == deref_schema_doc(*base_url, schema@).0,
            loads_of(r.1@) == deref_schema_doc(*base_url, schema@).1,
        decreases schema, 1nat,
    {
        match get_value(schema, "$ref") {
            Some(Value::String(reference)) => {
                match Self::deref_schema_reference(base_url, reference.as_str()) {
                    Some(q) => {
                        let new_ref = component_reference_text(&q.name);
                        let v = reference_value(new_ref);
                        let reqs = vec![q];
                        assert(loads_of(reqs@) =~= seq![q@]);
                        (v, reqs)
                    },
                    None => {
                        let reqs: Vec<LoadRequest> = Vec::new();
                        assert(loads_of(reqs@) =~= Seq::<Load>::empty());
                        (copy_value(schema), reqs)
                    },
                }
            },
            _ => Self::deref_nested_schemas(base_url, schema),
        }
    }

    /// The same rewriting as [`Dereferencer::deref_schema`], for the schema
    /// positions that OpenAPI keeps boxed (properties and array items).
    pub fn deref_schema_box(base_url: &Url, items: &Value) -> (r: (Value, Vec<LoadRequest>))
        requires
            supported_schema(items@),
        ensures
            r.0@ == deref_schema_doc(*base_url, items@).0,
            loads_of(r.1@) == deref_schema_doc(*base_url, items@).1,
    {
        Self::deref_schema(base_url, items)
    }

    /// Rewrites the schema positions that a schema holds (see
    /// [`deref_nested_doc`]).
    pub fn deref_nested_schemas(base_url: &Url, schema: &Value) -> (r: (Value, Vec<LoadRequest>))
        requires
            supported_nested(schema@),
        ensures
            r.0@ == deref_nested_doc(*base_url, schema@).0,
            loads_of(r.1@) == deref_nested_doc(*base_url, schema@).1,
        decreases schema, 0nat,
    {
        let empty: Vec<LoadRequest> = Vec::new();
        assert(loads_of(empty@) =~= Seq::<Load>::empty());
        match schema {
            Value::Mapping(es) => {
                let ghost esv = entries_of(es@);
                let is_object = match get_value(schema, "type") {
                    Some(t) => is_text(t, "object"),
                    None => false,
                };
                let is_array = match get_value(schema, "type") {
                    Some(t) => is_text(t, "array"),
                    None => false,
                };
                if is_object {
                    let mut out = copy_table(es);
                    let mut reqs: Vec<LoadRequest> = Vec::new();
                    assert(loads_of(reqs@) =~= Seq::<Load>::empty());
                    match find_key(es, "properties") {
                        Some(i) => {
                            assert(esv[i as int].1 == es[i as int].1@);
                            match &es[i].1 {
                                Value::Mapping(ps) => {
                                    proof {
                                        assert(decreases_to!(*schema => schema->Mapping_0));
                                        assert(decreases_to!(*es => es[i as int]));
                                        assert(decreases_to!(es[i as int] => es[i as int].1));
                                        assert(decreases_to!(es[i as int].1 => es[i as int].1->Mapping_0));
                                    }
                                    let (ps2, rp) = Self::deref_properties(base_url, ps);
                                    set_entry(&mut out, "properties", Value::Mapping(ps2));
                                    reqs = rp;
                                },
                                _ => {},
                            }
                        },
                        None => {},
                    }
                    match find_key(es, "additionalProperties") {
                        Some(j) => {
                            assert(esv[j as int].1 == es[j as int].1@);
                            proof {
                                assert(decreases_to!(*schema => schema->Mapping_0));
                                assert(decreases_to!(*es => es[j as int]));
                                assert(decreases_to!(es[j as int] => es[j as int].1));
                            }
                            let (a2, mut ra) = Self::deref_schema(base_url, &es[j].1);
                            set_entry(&mut out, "additionalProperties", a2);
                            let ghost r0 = reqs@;
                            let ghost ra0 = ra@;
                            reqs.append(&mut ra);
                            proof {
                                lemma_loads_concat(r0, ra0);
                            }
                        },
                        None => {},
                    }
                    (Value::Mapping(out), reqs)
                } else if is_array {
                    match find_key(es, "items") {
                        Some(j) => {
                            assert(esv[j as int].1 == es[j as int].1@);
                            proof {
                                assert(decreases_to!(*schema => schema->Mapping_0));
                                assert(decreases_to!(*es => es[j as int]));
                                assert(decreases_to!(es[j as int] => es[j as int].1));
                            }
                            let (it2, ri) = Self::deref_schema(base_url, &es[j].1);
                            let mut out = copy_table(es);
                            set_entry(&mut out, "items", it2);
                            (Value::Mapping(out), ri)
                        },
                        None => (copy_value(schema), empty),
                    }
                } else {
                    (copy_value(schema), empty)
                }
            },
            _ => (copy_value(schema), empty),
        }
    }

    /// Rewrites each value of a mapping as a schema position.
    fn deref_properties(base_url: &Url, ps: &Vec<(Value, Value)>) -> (r: (
        Vec<(Value, Value)>,
        Vec<LoadRequest>,
    ))
        requires
            supported_properties(entries_of(ps@)),
        ensures
            entries_of(r.0@) == deref_properties_doc(*base_url, entries_of(ps@)).0,
            loads_of(r.1@) == deref_properties_doc(*base_url, entries_of(ps@)).1,
        decreases *ps, 2nat,
    {
        let ghost psv = entries_of(ps@);
        proof {
            lemma_supported_properties(psv);
        }
        let mut out: Vec<(Value, Value)> = Vec::new();
        let mut reqs: Vec<LoadRequest> = Vec::new();
        assert(entries_of(out@) =~= deref_properties_doc(*base_url, psv.take(0)).0);
        assert(loads_of(reqs@) =~= deref_properties_doc(*base_url, psv.take(0)).1);
        let mut i: usize = 0;
        while i < ps.len()
            invariant
                i <= ps.len(),
                psv == entries_of(ps@),
                forall|k: int| 0 <= k < psv.len() ==> supported_schema(#[trigger] psv[k].1),
                entries_of(out@) == deref_properties_doc(*base_url, psv.take(i as int)).0,
                loads_of(reqs@) == deref_properties_doc(*base_url, psv.take(i as int)).1,
            decreases ps.len() - i,
        {
            proof {
                assert(decreases_to!(*ps => ps[i as int]));
                assert(decreases_to!(ps[i as int] => ps[i as int].1));
            }
            assert(psv[i as int] == (ps[i as int].0@, ps[i as int].1@));
            assert(supported_schema(psv[i as int].1));
            let (v, mut rv) = Self::deref_schema(base_url, &ps[i].1);
            let k = copy_value(&ps[i].0);
            let ghost out0 = out@;
            let ghost r0 = reqs@;
            let ghost rv0 = rv@;
            out.push((k, v));
            reqs.append(&mut rv);
            proof {
                let t = psv.take(i + 1);
                assert(t.drop_last() =~= psv.take(i as int));
                assert(t.last() == psv[i as int]);
                assert(entries_of(out@) =~= entries_of(out0).push((k@, v@)));
                lemma_loads_concat(r0, rv0);
            }
            i = i + 1;
        }
        assert(psv.take(ps.len() as int) =~= psv);
        (out, reqs)
    }
}

/// The name of the verb at position `i` of [`verb`].
pub(crate) fn verb_name(i: usize) -> (r: &'static str)
    requires
        i < 8,
    ensures
        r@ == verb(i as int),
{
    if i == 0 {
        "get"
    } else if i == 1 {
        "put"
    } else if i == 2 {
        "post"
    } else if i == 3 {
        "delete"
    } else if i == 4 {
        "options"
    } else if i == 5 {
        "head"
    } else if i == 6 {
        "patch"
    } else {
        "trace"
    }
}

/// Whether a key names a path (it starts with `/`).
pub(crate) fn is_path_key_value(k: &Value) -> (r: bool)
    ensures
        r == is_path_key(k@),
{
    match k {
        Value::String(s) => s.as_str().unicode_len() > 0 && s.as_str().get_char(0) == '/',
        _ => false,
    }
}

/// Whether a key of `responses` is a status code.
pub(crate) fn is_status_key_value(k: &Value) -> (r: bool)
    ensures
        r == is_status_key(k@),
{
    match k {
        Value::String(s) => {
            let t = s.as_str();
            let ext = t.unicode_len() >= 2 && t.get_char(0) == 'x' && t.get_char(1) == '-';
            let default = String::from_str("default");
            !(*s == default) && !ext
        },
        _ => false,
    }
}

impl Dereferencer {
    /// A media type with its schema position rewritten.
    fn deref_media_type(base_url: &Url, mt: &Value) -> (r: (Value, Vec<LoadRequest>))
        requires
            supported_media_type(mt@),
        ensures
            r.0@ == deref_media_type_doc(*base_url, mt@).0,
            loads_of(r.1@) == deref_media_type_doc(*base_url, mt@).1,
    {
        let empty: Vec<LoadRequest> = Vec::new();
        assert(loads_of(empty@) =~= Seq::<Load>::empty());
        match mt {
            Value::Mapping(es) => {
                let ghost esv = entries_of(es@);
                match find_key(es, "schema") {
                    Some(i) => {
                        assert(esv[i as int].1 == es[i as int].1@);
                        let (s2, r) = Self::deref_schema(base_url, &es[i].1);
                        let mut out = copy_table(es);
                        set_entry(&mut out, "schema", s2);
                        (Value::Mapping(out), r)
                    },
                    None => (copy_value(mt), empty),
                }
            },
            _ => (copy_value(mt), empty),
        }
    }

    /// The media types of a `content` mapping, each rewritten.
    fn deref_content(base_url: &Url, cs: &Vec<(Value, Value)>) -> (r: (
        Vec<(Value, Value)>,
        Vec<LoadRequest>,
    ))
        requires
            forall|k: int|
                0 <= k < cs.len() ==> supported_media_type(#[trigger] entries_of(cs@)[k].1),
        ensures
            entries_of(r.0@) == map_entries(entries_of(cs@), media_step(*base_url)).0,
            loads_of(r.1@) == map_entries(entries_of(cs@), media_step(*base_url)).1,
    {
        let ghost csv = entries_of(cs@);
        let mut out: Vec<(Value, Value)> = Vec::new();
        let mut reqs: Vec<LoadRequest> = Vec::new();
        assert(entries_of(out@) =~= map_entries(csv.take(0), media_step(*base_url)).0);
        assert(loads_of(reqs@) =~= map_entries(csv.take(0), media_step(*base_url)).1);
        let mut i: usize = 0;
        while i < cs.len()
            invariant
                i <= cs.len(),
                csv == entries_of(cs@),
                forall|k: int| 0 <= k < cs.len() ==> supported_media_type(#[trigger] csv[k].1),
                entries_of(out@) == map_entries(csv.take(i as int), media_step(*base_url)).0,
                loads_of(reqs@) == map_entries(csv.take(i as int), media_step(*base_url)).1,
            decreases cs.len() - i,
        {
            assert(csv[i as int] == (cs[i as int].0@, cs[i as int].1@));
            assert(supported_media_type(csv[i as int].1));
            let (v, mut rv) = Self::deref_media_type(base_url, &cs[i].1);
            let k = copy_value(&cs[i].0);
            let ghost out0 = out@;
            let ghost r0 = reqs@;
            let ghost rv0 = rv@;
            out.push((k, v));
            reqs.append(&mut rv);
            proof {
                let t = csv.take(i + 1);
                assert(t.drop_last() =~= csv.take(i as int));
                assert(t.last() == csv[i as int]);
                assert(entries_of(out@) =~= entries_of(out0).push((k@, v@)));
                lemma_loads_concat(r0, rv0);
            }
            i = i + 1;
        }
        assert(csv.take(cs.len() as int) =~= csv);
        (out, reqs)
    }

    /// Rewrites a request body, unless it is a reference (see
    /// [`deref_body_doc`]).
    pub fn deref_request_body(base_url: &Url, request_body: &Value) -> (r: (
        Value,
        Vec<LoadRequest>,
    ))
        requires
            supported_body(request_body@),
        ensures
            r.0@ == deref_body_doc(*base_url, request_body@).0,
            loads_of(r.1@) == deref_body_doc(*base_url, request_body@).1,
    {
        let empty: Vec<LoadRequest> = Vec::new();
        assert(loads_of(empty@) =~= Seq::<Load>::empty());
        let is_ref = match get_value(request_body, "$ref") {
            Some(Value::String(_)) => true,
            _ => false,
        };
        if is_ref {
            return (copy_value(request_body), empty);
        }
        match request_body {
            Value::Mapping(es) => {
                let ghost esv = entries_of(es@);
                match find_key(es, "content") {
                    Some(i) => {
                        assert(esv[i as int].1 == es[i as int].1@);
                        match &es[i].1 {
                            Value::Mapping(cs) => {
                                let (cs2, r) = Self::deref_content(base_url, cs);
                                let mut out = copy_table(es);
                                set_entry(&mut out, "content", Value::Mapping(cs2));
                                (Value::Mapping(out), r)
                            },
                            _ => (copy_value(request_body), empty),
                        }
                    },
                    None => (copy_value(request_body), empty),
                }
            },
            _ => (copy_value(request_body), empty),
        }
    }

    /// Rewrites a response, unless it is a reference; responses are treated
    /// as request bodies are (see [`deref_body_doc`]).
    pub fn deref_response(base_url: &Url, response: &Value) -> (r: (Value, Vec<LoadRequest>))
        requires
            supported_body(response@),
        ensures
            r.0@ == deref_body_doc(*base_url, response@).0,
            loads_of(r.1@) == deref_body_doc(*base_url, response@).1,
    {
        Self::deref_request_body(base_url, response)
    }

    /// The entries of `responses`, those keyed by status code rewritten.
    fn deref_responses(base_url: &Url, rs: &Vec<(Value, Value)>) -> (r: (
        Vec<(Value, Value)>,
        Vec<LoadRequest>,
    ))
        requires
            forall|k: int|
                0 <= k < rs.len() && is_status_key(entries_of(rs@)[k].0) ==> supported_body(
                    #[trigger] entries_of(rs@)[k].1,
                ),
        ensures
            entries_of(r.0@) == map_entries(entries_of(rs@), response_step(*base_url)).0,
            loads_of(r.1@) == map_entries(entries_of(rs@), response_step(*base_url)).1,
    {
        let ghost rsv = entries_of(rs@);
        let mut out: Vec<(Value, Value)> = Vec::new();
        let mut reqs: Vec<LoadRequest> = Vec::new();
        assert(entries_of(out@) =~= map_entries(rsv.take(0), response_step(*base_url)).0);
        assert(loads_of(reqs@) =~= map_entries(rsv.take(0), response_step(*base_url)).1);
        let mut i: usize = 0;
        while i < rs.len()
            invariant
                i <= rs.len(),
                rsv == entries_of(rs@),
                forall|k: int|
                    0 <= k < rs.len() && is_status_key(rsv[k].0) ==> supported_body(
                        #[trigger] rsv[k].1,
                    ),
                entries_of(out@) == map_entries(rsv.take(i as int), response_step(*base_url)).0,
                loads_of(reqs@) == map_entries(rsv.take(i as int), response_step(*base_url)).1,
            decreases rs.len() - i,
        {
            assert(rsv[i as int] == (rs[i as int].0@, rs[i as int].1@));
            let (v, mut rv) = if is_status_key_value(&rs[i].0) {
                assert(supported_body(rsv[i as int].1));
                Self::deref_response(base_url, &rs[i].1)
            } else {
                let e: Vec<LoadRequest> = Vec::new();
                assert(loads_of(e@) =~= Seq::<Load>::empty());
                (copy_value(&rs[i].1), e)
            };
            let k = copy_value(&rs[i].0);
            let ghost out0 = out@;
            let ghost r0 = reqs@;
            let ghost rv0 = rv@;
            out.push((k, v));
            reqs.append(&mut rv);
            proof {
                let t = rsv.take(i + 1);
                assert(t.drop_last() =~= rsv.take(i as int));
                assert(t.last() == rsv[i as int]);
                assert(entries_of(out@) =~= entries_of(out0).push((k@, v@)));
                lemma_loads_concat(r0, rv0);
            }
            i = i + 1;
        }
        assert(rsv.take(rs.len() as int) =~= rsv);
        (out, reqs)
    }

    /// Rewrites an operation: its request body, then its responses keyed by
    /// status code (see [`deref_operation_doc`]).
    pub fn deref_operation(base_url: &Url, operation: &Value) -> (r: (Value, Vec<LoadRequest>))
        requires
            supported_operation(operation@),
        ensures
            r.0@ == deref_operation_doc(*base_url, operation@).0,
            loads_of(r.1@) == deref_operation_doc(*base_url, operation@).1,
    {
        let empty: Vec<LoadRequest> = Vec::new();
        assert(loads_of(empty@) =~= Seq::<Load>::empty());
        match operation {
            Value::Mapping(es) => {
                let ghost esv = entries_of(es@);
                let mut out = copy_table(es);
                let mut reqs: Vec<LoadRequest> = Vec::new();
                assert(loads_of(reqs@) =~= Seq::<Load>::empty());
                match find_key(es, "requestBody") {
                    Some(i) => {
                        assert(esv[i as int].1 == es[i as int].1@);
                        let (b2, rb) = Self::deref_request_body(base_url, &es[i].1);
                        set_entry(&mut out, "requestBody", b2);
                        reqs = rb;
                    },
                    None => {},
                }
                match find_key(es, "responses") {
                    Some(j) => {
                        assert(esv[j as int].1 == es[j as int].1@);
                        match &es[j].1 {
                            Value::Mapping(rs) => {
                                assert(es[j as int].1@ == Doc::Table(entries_of(rs@)));
                                assert(operation@ == Doc::Table(esv));
                                let ghost rsv = entries_of(rs@);
                                assert forall|k: int|
                                    0 <= k < rs.len() && is_status_key(rsv[k].0) implies supported_body(
                                    #[trigger] rsv[k].1,
                                ) by {
                                    let x = get(operation@, "responses"@)->Some_0->Table_0;
                                    assert(x == rsv);
                                    assert(is_status_key(x[k].0) ==> supported_body(x[k].1));
                                }
                                let (rs2, mut rr) = Self::deref_responses(base_url, rs);
                                set_entry(&mut out, "responses", Value::Mapping(rs2));
                                let ghost r0 = reqs@;
                                let ghost rr0 = rr@;
                                reqs.append(&mut rr);
                                proof {
                                    lemma_loads_concat(r0, rr0);
                                }
                            },
                            _ => {},
                        }
                    },
                    None => {},
                }
                (Value::Mapping(out), reqs)
            },
            _ => (copy_value(operation), empty),
        }
    }

    /// An operation with the shared parameters `ps` appended to its own.
    fn with_parameters(operation: &Value, ps: &Vec<Value>) -> (r: Value)
        ensures
            r@ == with_parameters_doc(operation@, docs_of(ps@)),
    {
        if ps.len() == 0 {
            return copy_value(operation);
        }
        match operation {
            Value::Mapping(es) => {
                let ghost esv = entries_of(es@);
                let mut out = copy_table(es);
                match find_key(es, "parameters") {
                    Some(i) => {
                        assert(esv[i as int].1 == es[i as int].1@);
                        let mut items = match &es[i].1 {
                            Value::Sequence(old) => copy_items(old),
                            _ => Vec::new(),
                        };
                        let ghost old_items = items@;
                        assert(docs_of(old_items) =~= list_items(es[i as int].1@));
                        let mut extra = copy_items(ps);
                        let ghost extra_items = extra@;
                        items.append(&mut extra);
                        assert(docs_of(items@) =~= docs_of(old_items) + docs_of(extra_items));
                        set_entry(&mut out, "parameters", Value::Sequence(items));
                    },
                    None => {
                        proof {
                            lemma_first_index(esv, Doc::Str("requestBody"@));
                            lemma_first_index(esv, Doc::Str("responses"@));
                        }
                        let pos = match find_key(es, "requestBody") {
                            Some(j) => j,
                            None => match find_key(es, "responses") {
                                Some(j) => j,
                                None => es.len(),
                            },
                        };
                        let ghost before = out@;
                        let entry = (text("parameters"), Value::Sequence(copy_items(ps)));
                        let ghost ev = (entry.0@, entry.1@);
                        out.insert(pos, entry);
                        assert(entries_of(out@) =~= entries_of(before).insert(pos as int, ev));
                    },
                }
                Value::Mapping(out)
            },
            _ => copy_value(operation),
        }
    }

    /// The entries of a path item after its shared parameters are appended to
    /// each of its operations.
    fn propagate_path_parameters(es: &Vec<(Value, Value)>) -> (r: Vec<(Value, Value)>)
        ensures
            entries_of(r@) == propagate_doc(
                entries_of(es@),
                path_parameters(entries_of(es@)),
                8,
            ),
    {
        let ghost esv = entries_of(es@);
        let params: Vec<Value> = match find_key(es, "parameters") {
            Some(i) => {
                assert(esv[i as int].1 == es[i as int].1@);
                match &es[i].1 {
                    Value::Sequence(ps) => copy_items(ps),
                    _ => Vec::new(),
                }
            },
            None => Vec::new(),
        };
        assert(docs_of(params@) =~= path_parameters(esv));
        let mut out = copy_table(es);
        let mut v: usize = 0;
        while v < 8
            invariant
                v <= 8,
                esv == entries_of(es@),
                docs_of(params@) == path_parameters(esv),
                entries_of(out@) == propagate_doc(esv, path_parameters(esv), v as nat),
            decreases 8 - v,
        {
            let name = verb_name(v);
            match find_key(es, name) {
                Some(i) => {
                    assert(esv[i as int].1 == es[i as int].1@);
                    let op2 = Self::with_parameters(&es[i].1, &params);
                    set_entry(&mut out, name, op2);
                },
                None => {},
            }
            v = v + 1;
        }
        out
    }

    /// The entries of a path item after the operations of all verbs (as
    /// `src` has them) are rewritten.
    fn deref_operations(base_url: &Url, src: &Vec<(Value, Value)>) -> (r: (
        Vec<(Value, Value)>,
        Vec<LoadRequest>,
    ))
        requires
            forall|v: int|
                0 <= v < 8 ==> match #[trigger] table_get(entries_of(src@), Doc::Str(verb(v))) {
                    Some(op) => supported_operation(op),
                    None => true,
                },
        ensures
            entries_of(r.0@) == deref_verbs_doc(*base_url, entries_of(src@), 8).0,
            loads_of(r.1@) == deref_verbs_doc(*base_url, entries_of(src@), 8).1,
    {
        let ghost srcv = entries_of(src@);
        let mut out = copy_table(src);
        let mut reqs: Vec<LoadRequest> = Vec::new();
        assert(loads_of(reqs@) =~= Seq::<Load>::empty());
        let mut v: usize = 0;
        while v < 8
            invariant
                v <= 8,
                srcv == entries_of(src@),
                forall|w: int|
                    0 <= w < 8 ==> match #[trigger] table_get(srcv, Doc::Str(verb(w))) {
                        Some(op) => supported_operation(op),
                        None => true,
                    },
                entries_of(out@) == deref_verbs_doc(*base_url, srcv, v as nat).0,
                loads_of(reqs@) == deref_verbs_doc(*base_url, srcv, v as nat).1,
            decreases 8 - v,
        {
            let name = verb_name(v);
            let ghost entry = table_get(srcv, Doc::Str(verb(v as int)));
            match find_key(src, name) {
                Some(i) => {
                    assert(srcv[i as int].1 == src[i as int].1@);
                    let (op2, mut r2) = Self::deref_operation(base_url, &src[i].1);
                    set_entry(&mut out, name, op2);
                    let ghost r0 = reqs@;
                    let ghost r20 = r2@;
                    reqs.append(&mut r2);
                    proof {
                        lemma_loads_concat(r0, r20);
                    }
                },
                None => {},
            }
            v = v + 1;
        }
        (out, reqs)
    }

    /// Rewrites a path item, unless it is a reference: its shared parameters
    /// are appended to each operation, then each operation is rewritten (see
    /// [`deref_path_item_doc`]).
    fn deref_path_item(base_url: &Url, path_item: &Value) -> (r: (Value, Vec<LoadRequest>))
        requires
            supported_path_item(path_item@),
        ensures
            r.0@ == deref_path_item_doc(*base_url, path_item@).0,
            loads_of(r.1@) == deref_path_item_doc(*base_url, path_item@).1,
    {
        let empty: Vec<LoadRequest> = Vec::new();
        assert(loads_of(empty@) =~= Seq::<Load>::empty());
        let is_ref = match get_value(path_item, "$ref") {
            Some(Value::String(_)) => true,
            _ => false,
        };
        if is_ref {
            return (copy_value(path_item), empty);
        }
        match path_item {
            Value::Mapping(es) => {
                let ghost esv = entries_of(es@);
                let propagated = Self::propagate_path_parameters(es);
                proof {
                    let ps = path_parameters(esv);
                    let pv = entries_of(propagated@);
                    assert forall|v: int| 0 <= v < 8 implies match #[trigger] table_get(
                        pv,
                        Doc::Str(verb(v)),
                    ) {
                        Some(op) => supported_operation(op),
                        None => true,
                    } by {
                        lemma_propagate(esv, ps, 8, v);
                        assert(get(path_item@, verb(v)) == table_get(esv, Doc::Str(verb(v))));
                        match table_get(esv, Doc::Str(verb(v))) {
                            Some(op) => {
                                lemma_with_parameters(op, ps);
                                reveal_strlit("requestBody");
                                reveal_strlit("responses");
                                reveal_strlit("parameters");
                                assert("requestBody"@.len() != "parameters"@.len());
                                assert("responses"@[2] != "parameters"@[2]);
                                assert(get(with_parameters_doc(op, ps), "requestBody"@) == get(
                                    op,
                                    "requestBody"@,
                                ));
                                assert(get(with_parameters_doc(op, ps), "responses"@) == get(
                                    op,
                                    "responses"@,
                                ));
                            },
                            None => {},
                        }
                    }
                }
                let (es2, r) = Self::deref_operations(base_url, &propagated);
                (Value::Mapping(es2), r)
            },
            _ => (copy_value(path_item), empty),
        }
    }

    /// The entries of `paths`, the path items (keys that start with `/`)
    /// rewritten.
    fn deref_paths(base_url: &Url, ps: &Vec<(Value, Value)>) -> (r: (
        Vec<(Value, Value)>,
        Vec<LoadRequest>,
    ))
        requires
            forall|k: int|
                0 <= k < ps.len() && is_path_key(entries_of(ps@)[k].0) ==> supported_path_item(
                    #[trigger] entries_of(ps@)[k].1,
                ),
        ensures
            entries_of(r.0@) == map_entries(entries_of(ps@), path_step(*base_url)).0,
            loads_of(r.1@) == map_entries(entries_of(ps@), path_step(*base_url)).1,
    {
        let ghost psv = entries_of(ps@);
        let mut out: Vec<(Value, Value)> = Vec::new();
        let mut reqs: Vec<LoadRequest> = Vec::new();
        assert(entries_of(out@) =~= map_entries(psv.take(0), path_step(*base_url)).0);
        assert(loads_of(reqs@) =~= map_entries(psv.take(0), path_step(*base_url)).1);
        let mut i: usize = 0;
        while i < ps.len()
            invariant
                i <= ps.len(),
                psv == entries_of(ps@),
                forall|k: int|
                    0 <= k < ps.len() && is_path_key(psv[k].0) ==> supported_path_item(
                        #[trigger] psv[k].1,
                    ),
                entries_of(out@) == map_entries(psv.take(i as int), path_step(*base_url)).0,
                loads_of(reqs@) == map_entries(psv.take(i as int), path_step(*base_url)).1,
            decreases ps.len() - i,
        {
            assert(psv[i as int] == (ps[i as int].0@, ps[i as int].1@));
            let (v, mut rv) = if is_path_key_value(&ps[i].0) {
                assert(supported_path_item(psv[i as int].1));
                Self::deref_path_item(base_url, &ps[i].1)
            } else {
                let e: Vec<LoadRequest> = Vec::new();
                assert(loads_of(e@) =~= Seq::<Load>::empty());
                (copy_value(&ps[i].1), e)
            };
            let k = copy_value(&ps[i].0);
            let ghost out0 = out@;
            let ghost r0 = reqs@;
            let ghost rv0 = rv@;
            out.push((k, v));
            reqs.append(&mut rv);
            proof {
                let t = psv.take(i + 1);
                assert(t.drop_last() =~= psv.take(i as int));
                assert(t.last() == psv[i as int]);
                assert(entries_of(out@) =~= entries_of(out0).push((k@, v@)));
                lemma_loads_concat(r0, rv0);
            }
            i = i + 1;
        }
        assert(psv.take(ps.len() as int) =~= psv);
        (out, reqs)
    }

    /// A specification with its path items rewritten against `base_url`, and
    /// the files to load (see [`deref_spec_doc`]).
    pub fn deref_spec_paths(base_url: &Url, spec: &Value) -> (r: (Value, Vec<LoadRequest>))
        requires
            supported_spec(spec@),
        ensures
            r.0@ == deref_spec_doc(*base_url, spec@).0,
            loads_of(r.1@) == deref_spec_doc(*base_url, spec@).1,
    {
        let empty: Vec<LoadRequest> = Vec::new();
        assert(loads_of(empty@) =~= Seq::<Load>::empty());
        match spec {
            Value::Mapping(es) => {
                let ghost esv = entries_of(es@);
                match find_key(es, "paths") {
                    Some(i) => {
                        assert(esv[i as int].1 == es[i as int].1@);
                        match &es[i].1 {
                            Value::Mapping(ps) => {
                                assert(es[i as int].1@ == Doc::Table(entries_of(ps@)));
                                assert(spec@ == Doc::Table(esv));
                                assert(get(spec@, "paths"@) == Some(Doc::Table(entries_of(ps@))));
                                let ghost psv = entries_of(ps@);
                                assert forall|k: int|
                                    0 <= k < ps.len() && is_path_key(psv[k].0) implies supported_path_item(
                                    #[trigger] psv[k].1,
                                ) by {
                                    assert(supported_spec(spec@));
                                    assert(psv.len() == ps.len());
                                    assert(k < psv.len());
                                    assert(is_path_key(psv[k].0));
                                    let x = get(spec@, "paths"@)->Some_0->Table_0;
                                    assert(x == psv);
                                    assert(is_path_key(x[k].0) ==> supported_path_item(x[k].1));
                                }
                                let (ps2, r) = Self::deref_paths(base_url, ps);
                                let mut out = copy_table(es);
                                set_entry(&mut out, "paths", Value::Mapping(ps2));
                                (Value::Mapping(out), r)
                            },
                            _ => (copy_value(spec), empty),
                        }
                    },
                    None => (copy_value(spec), empty),
                }
            },
            _ => (copy_value(spec), empty),
        }
    }
}


} // verus!
