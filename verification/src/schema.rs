//! Schemas and the references they hold: how a reference that points into
//! another file is rewritten into a reference to `components/schemas`, and
//! which files have to be loaded for it.
//!
//! A schema position (`ReferenceOr<Schema>` in OpenAPI terms) holds either a
//! reference, a mapping with a string under `$ref`, or a schema. A schema of
//! type `object` holds schemas under `properties` and `additionalProperties`;
//! one of type `array` holds a schema under `items`. Schemas of the types
//! `string`, `number`, `integer` and `boolean` hold none. The other kinds of
//! schema (`oneOf`, `allOf`, `anyOf`, `not` and schemas without a type) are not
//! supported: the functions that meet them require that they are absent.
//!
//! A schema is classified by its `type` entry alone. Whether its other fields
//! fit that type (so that `openapiv3` reads it as a typed schema rather than
//! an untyped one) is not checked here: the document model does not record
//! which kind `openapiv3` gave a schema.
use vstd::prelude::*;
use crate::value::{
    Doc, get, table_get, table_set, first_index, lemma_first_index, lemma_table_set,
    lemma_table_set_same,
};
use crate::locate::{joined_url, url_path, url_file_path, file_stem};
use crate::paths::lemma_concat_contains;
use url::Url;
use std::path::PathBuf;

verus! {

/// A file to load: the schema in `file_path` is to be resolved against `url`
/// and recorded under `name`.
#[derive(Debug)]
pub struct LoadRequest {
    pub name: String,
    pub url: Url,
    pub file_path: PathBuf,
}

/// The view of a [`LoadRequest`].
pub struct Load {
    pub name: Seq<char>,
    pub url: Url,
    pub file_path: PathBuf,
}

impl View for LoadRequest {
    type V = Load;

    open spec fn view(&self) -> Load {
        Load { name: self.name@, url: self.url, file_path: self.file_path }
    }
}

/// The views of a sequence of requests.
pub open spec fn loads_of(s: Seq<LoadRequest>) -> Seq<Load> {
    s.map_values(|q: LoadRequest| q@)
}

/// The reference that a schema position holds, if it holds one.
pub open spec fn ref_target(d: Doc) -> Option<Seq<char>> {
    match get(d, "$ref"@) {
        Some(Doc::Str(r)) => Some(r),
        _ => None,
    }
}

/// The reference to the schema recorded under `name`.
pub open spec fn component_reference(name: Seq<char>) -> Seq<char> {
    "#/components/schemas/"@ + name
}

/// A schema position that holds the reference `r`.
pub open spec fn reference_doc(r: Seq<char>) -> Doc {
    Doc::Table(seq![(Doc::Str("$ref"@), Doc::Str(r))])
}

/// What a reference leads to, given what the `url` crate and `std::path`
/// make of it: `url`, the reference joined to the base URL; `url_path` and
/// `base_path`, the paths of that URL and of the base URL; `file_path`, the
/// file that URL names; `stem`, that file's stem. `None` where the join fails,
/// where the reference stays in the same file (the paths are equal), or where
/// no file or no stem can be had; otherwise the file to load, the URL to
/// resolve it against, and the name to record it under.
pub open spec fn reference_target(
    url: Option<Url>,
    url_path: Seq<char>,
    base_path: Seq<char>,
    file_path: Option<PathBuf>,
    stem: Option<Seq<char>>,
) -> Option<Load> {
    match url {
        None => None,
        Some(u) => if url_path == base_path {
            None
        } else {
            match file_path {
                None => None,
                Some(f) => match stem {
                    None => None,
                    Some(n) => Some(Load { name: n, url: u, file_path: f }),
                },
            }
        },
    }
}

/// Where the reference `reference`, read against `base`, leads (see
/// [`reference_target`]).
pub open spec fn resolve(base: Url, reference: Seq<char>) -> Option<Load> {
    match joined_url(base, reference) {
        None => None,
        Some(u) => reference_target(
            Some(u),
            url_path(u),
            url_path(base),
            url_file_path(u),
            match url_file_path(u) {
                Some(f) => file_stem(f),
                None => None,
            },
        ),
    }
}

/// Looking up a key gives something smaller than the mapping.
pub proof fn lemma_get_decreases(es: Seq<(Doc, Doc)>, key: Doc)
    ensures
        table_get(es, key) matches Some(x) ==> decreases_to!(es => x),
{
    lemma_first_index(es, key);
    let i = first_index(es, key);
    if i >= 0 {
        assert(decreases_to!(es => es[i]));
        assert(decreases_to!(es[i] => es[i].1));
    }
}

/// A schema position that holds a reference is rewritten into a reference to
/// `components/schemas` under the referenced file's stem, with a request for
/// that file, where the reference leads into another file; otherwise it is
/// left as it is and nothing is requested.
pub proof fn law_reference_rewrite(base: Url, r: Seq<char>)
    ensures
        deref_schema_doc(base, reference_doc(r)) == match resolve(base, r) {
            Some(q) => (reference_doc(component_reference(q.name)), seq![q]),
            None => (reference_doc(r), Seq::<Load>::empty()),
        },
{
    let es = reference_doc(r)->Table_0;
    let k = Doc::Str("$ref"@);
    assert(es.drop_last() =~= Seq::<(Doc, Doc)>::empty());
    assert(first_index(es.drop_last(), k) == -1);
    assert(es.last().0 == k);
    assert(first_index(es, k) == 0);
    assert(es[0] == (k, Doc::Str(r)));
    assert(table_get(es, k) == Some(Doc::Str(r)));
    assert(get(reference_doc(r), "$ref"@) == Some(Doc::Str(r)));
    assert(ref_target(reference_doc(r)) == Some(r));
}

/// Whether a schema type names one of the supported kinds.
pub open spec fn is_supported_type(t: Seq<char>) -> bool {
    t == "object"@ || t == "array"@ || t == "string"@ || t == "number"@ || t == "integer"@ || t
        == "boolean"@
}

/// The schema position `d` (and every schema reached from it without
/// following a reference) is of a supported kind.
pub open spec fn supported_schema(d: Doc) -> bool
    decreases d, 1nat,
{
    match ref_target(d) {
        Some(_) => true,
        None => supported_nested(d),
    }
}

/// The schema `d` (and every schema reached from it without following a
/// reference) is of a supported kind. The kind is read from the `type`
/// entry: a schema that `openapiv3` reads as untyped although its `type`
/// names a supported kind (its other fields do not fit that type) counts as
/// supported here.
pub open spec fn supported_nested(d: Doc) -> bool
    decreases d, 0nat,
{
    match d {
        Doc::Table(es) => {
            proof {
                lemma_get_decreases(es, Doc::Str("type"@));
                lemma_get_decreases(es, Doc::Str("properties"@));
                lemma_get_decreases(es, Doc::Str("additionalProperties"@));
                lemma_get_decreases(es, Doc::Str("items"@));
            }
            match table_get(es, Doc::Str("type"@)) {
                Some(Doc::Str(t)) => if t == "object"@ {
                    &&& match table_get(es, Doc::Str("properties"@)) {
                        Some(Doc::Table(ps)) => supported_properties(ps),
                        _ => true,
                    }
                    &&& match table_get(es, Doc::Str("additionalProperties"@)) {
                        Some(a) => supported_schema(a),
                        None => true,
                    }
                } else if t == "array"@ {
                    match table_get(es, Doc::Str("items"@)) {
                        Some(it) => supported_schema(it),
                        None => true,
                    }
                } else {
                    is_supported_type(t)
                },
                _ => false,
            }
        },
        _ => true,
    }
}

/// Every schema position among the values of `ps` is supported.
pub open spec fn supported_properties(ps: Seq<(Doc, Doc)>) -> bool
    decreases ps, 2nat,
{
    if ps.len() == 0 {
        true
    } else {
        proof {
            assert(decreases_to!(ps => ps[ps.len() - 1]));
            assert(decreases_to!(ps => ps.drop_last()));
        }
        supported_properties(ps.drop_last()) && supported_schema(ps.last().1)
    }
}

/// The schema position `d` with its references into other files rewritten,
/// and the files to load for them, in the order they are met.
pub open spec fn deref_schema_doc(base: Url, d: Doc) -> (Doc, Seq<Load>)
    decreases d, 1nat,
{
    match ref_target(d) {
        Some(r) => match resolve(base, r) {
            Some(q) => (reference_doc(component_reference(q.name)), seq![q]),
            None => (d, Seq::empty()),
        },
        None => deref_nested_doc(base, d),
    }
}

/// The schema `d` with the references of the schemas it holds rewritten, and
/// the files to load for them, in the order they are met.
pub open spec fn deref_nested_doc(base: Url, d: Doc) -> (Doc, Seq<Load>)
    decreases d, 0nat,
{
    match d {
        Doc::Table(es) => {
            proof {
                lemma_get_decreases(es, Doc::Str("properties"@));
                lemma_get_decreases(es, Doc::Str("additionalProperties"@));
                lemma_get_decreases(es, Doc::Str("items"@));
            }
            if table_get(es, Doc::Str("type"@)) == Some(Doc::Str("object"@)) {
                let (es1, r1) = match table_get(es, Doc::Str("properties"@)) {
                    Some(Doc::Table(ps)) => {
                        let (ps2, rp) = deref_properties_doc(base, ps);
                        (table_set(es, Doc::Str("properties"@), Doc::Table(ps2)), rp)
                    },
                    _ => (es, Seq::empty()),
                };
                match table_get(es, Doc::Str("additionalProperties"@)) {
                    Some(a) => {
                        let (a2, ra) = deref_schema_doc(base, a);
                        (Doc::Table(table_set(es1, Doc::Str("additionalProperties"@), a2)), r1 + ra)
                    },
                    None => (Doc::Table(es1), r1),
                }
            } else if table_get(es, Doc::Str("type"@)) == Some(Doc::Str("array"@)) {
                match table_get(es, Doc::Str("items"@)) {
                    Some(it) => {
                        let (it2, ri) = deref_schema_doc(base, it);
                        (Doc::Table(table_set(es, Doc::Str("items"@), it2)), ri)
                    },
                    None => (d, Seq::empty()),
                }
            } else {
                (d, Seq::empty())
            }
        },
        _ => (d, Seq::empty()),
    }
}

/// The entries of `ps` with each value treated as a schema position.
pub open spec fn deref_properties_doc(base: Url, ps: Seq<(Doc, Doc)>) -> (
    Seq<(Doc, Doc)>,
    Seq<Load>,
)
    decreases ps, 2nat,
{
    if ps.len() == 0 {
        (Seq::empty(), Seq::empty())
    } else {
        proof {
            assert(decreases_to!(ps => ps[ps.len() - 1]));
            assert(decreases_to!(ps => ps.drop_last()));
        }
        let (front, rf) = deref_properties_doc(base, ps.drop_last());
        let (v, rv) = deref_schema_doc(base, ps.last().1);
        (front.push((ps.last().0, v)), rf + rv)
    }
}

/// Joining a reference into `components/schemas` to `base` keeps the base
/// URL's path: such a reference stays in the file of `base`.
pub open spec fn component_references_local(base: Url) -> bool {
    forall|n: Seq<char>|
        #[trigger] joined_url(base, component_reference(n)) matches Some(u) ==> url_path(u)
            == url_path(base)
}

/// Rewriting a schema leaves every key but `properties`,
/// `additionalProperties` and `items` as it reads.
proof fn lemma_nested_keeps(base: Url, d: Doc, k: Seq<char>)
    requires
        k != "properties"@,
        k != "additionalProperties"@,
        k != "items"@,
    ensures
        get(deref_nested_doc(base, d).0, k) == get(d, k),
        deref_nested_doc(base, d).0 is Table <==> d is Table,
{
    if let Doc::Table(es) = d {
        let kk = Doc::Str(k);
        let pk = Doc::Str("properties"@);
        let ak = Doc::Str("additionalProperties"@);
        let ik = Doc::Str("items"@);
        reveal_strlit("properties");
        reveal_strlit("additionalProperties");
        reveal_strlit("items");
        assert(pk != ak && pk != ik && ak != ik) by {
            assert("properties"@.len() == 10 && "additionalProperties"@.len() == 20);
            assert("items"@.len() == 5);
        }
        if table_get(es, Doc::Str("type"@)) == Some(Doc::Str("object"@)) {
            let es1 = match table_get(es, pk) {
                Some(Doc::Table(ps)) => {
                    let ps2 = deref_properties_doc(base, ps).0;
                    lemma_table_set(es, pk, Doc::Table(ps2));
                    table_set(es, pk, Doc::Table(ps2))
                },
                _ => es,
            };
            if let Some(a) = table_get(es, ak) {
                lemma_table_set(es1, ak, deref_schema_doc(base, a).0);
            }
        } else if table_get(es, Doc::Str("type"@)) == Some(Doc::Str("array"@)) {
            if let Some(it) = table_get(es, ik) {
                lemma_table_set(es, ik, deref_schema_doc(base, it).0);
            }
        }
    }
}

/// Under [`component_references_local`], a reference into
/// `components/schemas` leads nowhere else.
proof fn lemma_component_reference_stays(base: Url, n: Seq<char>)
    requires
        component_references_local(base),
    ensures
        resolve(base, component_reference(n)) is None,
{
    let j = joined_url(base, component_reference(n));
    if let Some(u) = j {
        assert(url_path(u) == url_path(base));
    }
}

/// Rewriting a schema position a second time changes nothing and asks for
/// no file, where a reference into `components/schemas` stays in the same
/// file (see [`component_references_local`]).
pub proof fn law_second_pass_schema(base: Url, d: Doc)
    requires
        component_references_local(base),
    ensures
        deref_schema_doc(base, deref_schema_doc(base, d).0) == (
            deref_schema_doc(base, d).0,
            Seq::<Load>::empty(),
        ),
    decreases d, 1nat,
{
    match ref_target(d) {
        Some(r) => match resolve(base, r) {
            Some(q) => {
                law_reference_rewrite(base, component_reference(q.name));
                lemma_component_reference_stays(base, q.name);
            },
            None => {},
        },
        None => {
            reveal_strlit("$ref");
            reveal_strlit("properties");
            reveal_strlit("additionalProperties");
            reveal_strlit("items");
            assert("$ref"@.len() != "properties"@.len());
            assert("$ref"@.len() != "additionalProperties"@.len());
            assert("$ref"@.len() != "items"@.len());
            lemma_nested_keeps(base, d, "$ref"@);
            law_second_pass_nested(base, d);
        },
    }
}

/// Rewriting the schema positions a schema holds a second time changes
/// nothing and asks for no file, under [`component_references_local`].
pub proof fn law_second_pass_nested(base: Url, d: Doc)
    requires
        component_references_local(base),
    ensures
        deref_nested_doc(base, deref_nested_doc(base, d).0) == (
            deref_nested_doc(base, d).0,
            Seq::<Load>::empty(),
        ),
    decreases d, 0nat,
{
    if let Doc::Table(es) = d {
        reveal_strlit("type");
        reveal_strlit("properties");
        reveal_strlit("additionalProperties");
        reveal_strlit("items");
        let tk = Doc::Str("type"@);
        let pk = Doc::Str("properties"@);
        let ak = Doc::Str("additionalProperties"@);
        let ik = Doc::Str("items"@);
        assert("type"@.len() == 4 && "properties"@.len() == 10);
        assert("additionalProperties"@.len() == 20 && "items"@.len() == 5);
        assert(tk != pk && tk != ak && tk != ik && pk != ak && pk != ik && ak != ik);
        lemma_get_decreases(es, pk);
        lemma_get_decreases(es, ak);
        lemma_get_decreases(es, ik);
        if table_get(es, tk) == Some(Doc::Str("object"@)) {
            let (es1, r1) = match table_get(es, pk) {
                Some(Doc::Table(ps)) => {
                    let (ps2, rp) = deref_properties_doc(base, ps);
                    (table_set(es, pk, Doc::Table(ps2)), rp)
                },
                _ => (es, Seq::<Load>::empty()),
            };
            match table_get(es, pk) {
                Some(Doc::Table(ps)) => {
                    lemma_table_set(es, pk, Doc::Table(deref_properties_doc(base, ps).0));
                    law_second_pass_properties(base, ps);
                },
                _ => {},
            }
            let es2 = match table_get(es, ak) {
                Some(a) => table_set(es1, ak, deref_schema_doc(base, a).0),
                None => es1,
            };
            match table_get(es, ak) {
                Some(a) => {
                    lemma_table_set(es1, ak, deref_schema_doc(base, a).0);
                    law_second_pass_schema(base, a);
                },
                None => {},
            }
            assert(deref_nested_doc(base, d).0 == Doc::Table(es2));
            assert(table_get(es2, tk) == table_get(es, tk));
            assert(table_get(es2, pk) == table_get(es1, pk));
            assert(table_get(es2, ak) == match table_get(es, ak) {
                Some(a) => Some(deref_schema_doc(base, a).0),
                None => None,
            });
            let es1b = match table_get(es2, pk) {
                Some(Doc::Table(ps)) => table_set(es2, pk, Doc::Table(deref_properties_doc(base, ps).0)),
                _ => es2,
            };
            match table_get(es2, pk) {
                Some(Doc::Table(ps)) => {
                    lemma_table_set_same(es2, pk, Doc::Table(ps));
                },
                _ => {},
            }
            assert(es1b == es2);
            match table_get(es2, ak) {
                Some(a2) => {
                    lemma_table_set_same(es2, ak, a2);
                },
                None => {},
            }
            assert(r1 + Seq::<Load>::empty() =~= r1);
            assert(Seq::<Load>::empty() + Seq::<Load>::empty() =~= Seq::<Load>::empty());
        } else if table_get(es, tk) == Some(Doc::Str("array"@)) {
            match table_get(es, ik) {
                Some(it) => {
                    let it2 = deref_schema_doc(base, it).0;
                    lemma_table_set(es, ik, it2);
                    law_second_pass_schema(base, it);
                    lemma_table_set_same(table_set(es, ik, it2), ik, it2);
                },
                None => {},
            }
        }
    }
}

/// Rewriting the values of a properties section a second time changes
/// nothing and asks for no file, under [`component_references_local`].
pub proof fn law_second_pass_properties(base: Url, ps: Seq<(Doc, Doc)>)
    requires
        component_references_local(base),
    ensures
        deref_properties_doc(base, deref_properties_doc(base, ps).0) == (
            deref_properties_doc(base, ps).0,
            Seq::<Load>::empty(),
        ),
    decreases ps, 2nat,
{
    if ps.len() > 0 {
        assert(decreases_to!(ps => ps[ps.len() - 1]));
        assert(decreases_to!(ps => ps.drop_last()));
        let (front, rf) = deref_properties_doc(base, ps.drop_last());
        let (v, rv) = deref_schema_doc(base, ps.last().1);
        law_second_pass_properties(base, ps.drop_last());
        law_second_pass_schema(base, ps.last().1);
        let p2 = front.push((ps.last().0, v));
        assert(p2.drop_last() =~= front);
        assert(p2.last() == (ps.last().0, v));
        assert(Seq::<Load>::empty() + Seq::<Load>::empty() =~= Seq::<Load>::empty());
    }
}

/// Rewriting the values of a properties section keeps its keys, in their
/// order, rewrites each value as a schema position, and asks for every file
/// that rewriting some value asks for.
pub proof fn lemma_properties_rewrite(base: Url, ps: Seq<(Doc, Doc)>)
    ensures
        deref_properties_doc(base, ps).0.len() == ps.len(),
        forall|i: int|
            0 <= i < ps.len() ==> #[trigger] deref_properties_doc(base, ps).0[i] == (
                ps[i].0,
                deref_schema_doc(base, ps[i].1).0,
            ),
        forall|i: int, x: Load|
            #![trigger deref_schema_doc(base, ps[i].1).1.contains(x)]
            0 <= i < ps.len() && deref_schema_doc(base, ps[i].1).1.contains(x)
                ==> deref_properties_doc(base, ps).1.contains(x),
    decreases ps.len(),
{
    if ps.len() > 0 {
        let d = ps.drop_last();
        lemma_properties_rewrite(base, d);
        let rf = deref_properties_doc(base, d).1;
        let rv = deref_schema_doc(base, ps.last().1).1;
        assert forall|i: int| 0 <= i < ps.len() implies #[trigger] deref_properties_doc(
            base,
            ps,
        ).0[i] == (ps[i].0, deref_schema_doc(base, ps[i].1).0) by {
            if i < ps.len() - 1 {
                assert(d[i] == ps[i]);
            }
        }
        assert forall|i: int, x: Load|
            #![trigger deref_schema_doc(base, ps[i].1).1.contains(x)]
            0 <= i < ps.len() && deref_schema_doc(base, ps[i].1).1.contains(x)
            implies deref_properties_doc(base, ps).1.contains(x) by {
            lemma_concat_contains(rf, rv, x);
            if i < ps.len() - 1 {
                assert(d[i] == ps[i]);
                assert(deref_schema_doc(base, d[i].1).1.contains(x));
            }
        }
    }
}

/// Rewriting a schema rewrites, as schema positions, the values of the
/// `properties` and the `additionalProperties` of an object schema and the
/// `items` of an array schema, and nothing else: the other fields, the
/// property names and their order stay; it asks for every file that
/// rewriting one of those positions asks for. A schema of another type is
/// left as it is.
pub proof fn law_nested_rewrite(base: Url, d: Doc)
    requires
        d is Table,
    ensures
        get(d, "type"@) == Some(Doc::Str("object"@)) ==> {
            &&& forall|k: Seq<char>|
                k != "properties"@ && k != "additionalProperties"@ ==> #[trigger] get(
                    deref_nested_doc(base, d).0,
                    k,
                ) == get(d, k)
            &&& match get(d, "properties"@) {
                Some(Doc::Table(ps)) => get(deref_nested_doc(base, d).0, "properties"@) matches Some(
                    Doc::Table(ps2),
                ) && ps2.len() == ps.len() && (forall|i: int|
                    0 <= i < ps.len() ==> #[trigger] ps2[i] == (
                        ps[i].0,
                        deref_schema_doc(base, ps[i].1).0,
                    )) && (forall|i: int, x: Load|
                    #![trigger deref_schema_doc(base, ps[i].1).1.contains(x)]
                    0 <= i < ps.len() && deref_schema_doc(base, ps[i].1).1.contains(x)
                        ==> deref_nested_doc(base, d).1.contains(x)),
                other => get(deref_nested_doc(base, d).0, "properties"@) == other,
            }
            &&& match get(d, "additionalProperties"@) {
                Some(a) => get(deref_nested_doc(base, d).0, "additionalProperties"@) == Some(
                    deref_schema_doc(base, a).0,
                ) && forall|x: Load|
                    deref_schema_doc(base, a).1.contains(x) ==> deref_nested_doc(
                        base,
                        d,
                    ).1.contains(x),
                None => get(deref_nested_doc(base, d).0, "additionalProperties"@) is None,
            }
        },
        get(d, "type"@) == Some(Doc::Str("array"@)) ==> {
            &&& forall|k: Seq<char>|
                k != "items"@ ==> #[trigger] get(deref_nested_doc(base, d).0, k) == get(d, k)
            &&& match get(d, "items"@) {
                Some(it) => get(deref_nested_doc(base, d).0, "items"@) == Some(
                    deref_schema_doc(base, it).0,
                ) && deref_nested_doc(base, d).1 == deref_schema_doc(base, it).1,
                None => deref_nested_doc(base, d) == (d, Seq::<Load>::empty()),
            }
        },
        get(d, "type"@) != Some(Doc::Str("object"@)) && get(d, "type"@) != Some(
            Doc::Str("array"@),
        ) ==> deref_nested_doc(base, d) == (d, Seq::<Load>::empty()),
{
    reveal_strlit("properties");
    reveal_strlit("additionalProperties");
    reveal_strlit("items");
    assert("properties"@.len() == 10 && "additionalProperties"@.len() == 20);
    reveal_strlit("object");
    reveal_strlit("array");
    assert("object"@.len() != "array"@.len());
    let es = d->Table_0;
    let pk = Doc::Str("properties"@);
    let ak = Doc::Str("additionalProperties"@);
    let ik = Doc::Str("items"@);
    if get(d, "type"@) == Some(Doc::Str("object"@)) {
        let (es1, r1) = match table_get(es, pk) {
            Some(Doc::Table(ps)) => {
                let (ps2, rp) = deref_properties_doc(base, ps);
                (table_set(es, pk, Doc::Table(ps2)), rp)
            },
            _ => (es, Seq::<Load>::empty()),
        };
        if let Some(Doc::Table(ps)) = table_get(es, pk) {
            lemma_table_set(es, pk, Doc::Table(deref_properties_doc(base, ps).0));
            lemma_properties_rewrite(base, ps);
        }
        match table_get(es, ak) {
            Some(a) => {
                let (a2, ra) = deref_schema_doc(base, a);
                lemma_table_set(es1, ak, a2);
                assert forall|x: Load| r1.contains(x) implies deref_nested_doc(base, d).1.contains(x) by {
                    lemma_concat_contains(r1, ra, x);
                }
                assert forall|x: Load| ra.contains(x) implies deref_nested_doc(base, d).1.contains(x) by {
                    lemma_concat_contains(r1, ra, x);
                }
            },
            None => {},
        }
    } else if get(d, "type"@) == Some(Doc::Str("array"@)) {
        if let Some(it) = table_get(es, ik) {
            lemma_table_set(es, ik, deref_schema_doc(base, it).0);
        }
    }
}

/// Where a reference leads: nowhere where the join fails, or where the
/// joined URL keeps the base URL's path (the reference stays in the same
/// file), or where the joined URL names no file or the file has no stem;
/// otherwise to the file that the joined URL names, resolved against the
/// joined URL and recorded under the file's stem.
pub proof fn law_resolve(base: Url, r: Seq<char>)
    ensures
        (resolve(base, r) is Some) == match joined_url(base, r) {
            Some(u) => url_path(u) != url_path(base) && match url_file_path(u) {
                Some(f) => file_stem(f) is Some,
                None => false,
            },
            None => false,
        },
        resolve(base, r) matches Some(q) ==> (joined_url(base, r) == Some(q.url) && url_file_path(
            q.url,
        ) == Some(q.file_path) && file_stem(q.file_path) == Some(q.name)),
{
}

/// The reference to a recorded schema is `#/components/schemas/` followed
/// by its name.
pub proof fn law_component_reference(name: Seq<char>)
    ensures
        component_reference(name).len() == "#/components/schemas/"@.len() + name.len(),
        component_reference(name).subrange(0, "#/components/schemas/"@.len() as int)
            == "#/components/schemas/"@,
        component_reference(name).subrange(
            "#/components/schemas/"@.len() as int,
            component_reference(name).len() as int,
        ) == name,
{
    let p = "#/components/schemas/"@;
    assert(component_reference(name).subrange(0, p.len() as int) =~= p);
    assert(component_reference(name).subrange(p.len() as int, component_reference(name).len() as int) =~= name);
}

} // verus!
