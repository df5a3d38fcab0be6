//! The parts of a specification that the dereferencer walks: paths, path
//! items, operations, request bodies, responses and media types, and the
//! `components/schemas` section where resolved schemas are recorded.
//!
//! A specification is read in the form that the `openapiv3` crate serializes
//! it to: `paths` holds path items under keys that start with `/` (and
//! extensions under keys that start with `x-`); a path item holds operations
//! under the eight HTTP verbs and shared parameters under `parameters`; an
//! operation holds `parameters`, `requestBody` and `responses`, whose entries
//! other than `default` and the extensions are keyed by status code.
use vstd::prelude::*;
use crate::value::{
    Doc, get, table_get, table_set, first_index, distinct_keys, lemma_first_index, lemma_table_set,
    lemma_insert_get,
};
use crate::locate::file_url;
use url::Url;
use crate::schema::{Load, ref_target, supported_schema, deref_schema_doc};

verus! {

/// A transformation of one mapping entry, given its key and value.
pub type EntryStep = spec_fn(Doc, Doc) -> (Doc, Seq<Load>);

/// Applies `f` to every entry of `es` (keys are kept), collecting the requests
/// in entry order.
pub open spec fn map_entries(es: Seq<(Doc, Doc)>, f: EntryStep) -> (Seq<(Doc, Doc)>, Seq<Load>)
    decreases es.len(),
{
    if es.len() == 0 {
        (Seq::empty(), Seq::empty())
    } else {
        let (front, rf) = map_entries(es.drop_last(), f);
        let (v, rv) = f(es.last().0, es.last().1);
        (front.push((es.last().0, v)), rf + rv)
    }
}

/// A media type with its schema position rewritten.
pub open spec fn deref_media_type_doc(base: Url, mt: Doc) -> (Doc, Seq<Load>) {
    match mt {
        Doc::Table(es) => match table_get(es, Doc::Str("schema"@)) {
            Some(s) => {
                let (s2, r) = deref_schema_doc(base, s);
                (Doc::Table(table_set(es, Doc::Str("schema"@), s2)), r)
            },
            None => (mt, Seq::empty()),
        },
        _ => (mt, Seq::empty()),
    }
}

/// The step that rewrites each media type of a `content` mapping.
pub open spec fn media_step(base: Url) -> EntryStep {
    |k: Doc, v: Doc| deref_media_type_doc(base, v)
}

/// A request body or a response (when it is not a reference) with the
/// schemas of its media types rewritten.
pub open spec fn deref_body_doc(base: Url, b: Doc) -> (Doc, Seq<Load>) {
    match b {
        Doc::Table(es) => if ref_target(b) is Some {
            (b, Seq::empty())
        } else {
            match table_get(es, Doc::Str("content"@)) {
                Some(Doc::Table(cs)) => {
                    let (cs2, r) = map_entries(cs, media_step(base));
                    (Doc::Table(table_set(es, Doc::Str("content"@), Doc::Table(cs2))), r)
                },
                _ => (b, Seq::empty()),
            }
        },
        _ => (b, Seq::empty()),
    }
}

/// Whether a text starts with `x-` (an extension key).
pub open spec fn is_extension(s: Seq<char>) -> bool {
    s.len() >= 2 && s[0] == 'x' && s[1] == '-'
}

/// Whether a key of `responses` is a status code (not `default`, not an
/// extension).
pub open spec fn is_status_key(k: Doc) -> bool {
    match k {
        Doc::Str(s) => s != "default"@ && !is_extension(s),
        _ => false,
    }
}

/// The step that rewrites each response keyed by a status code.
pub open spec fn response_step(base: Url) -> EntryStep {
    |k: Doc, v: Doc|
        if is_status_key(k) {
            deref_body_doc(base, v)
        } else {
            (v, Seq::empty())
        }
}

/// An operation with the schemas of its request body and of its responses
/// keyed by status code rewritten, request body first.
pub open spec fn deref_operation_doc(base: Url, op: Doc) -> (Doc, Seq<Load>) {
    match op {
        Doc::Table(es) => {
            let (es1, r1) = match table_get(es, Doc::Str("requestBody"@)) {
                Some(b) => {
                    let (b2, rb) = deref_body_doc(base, b);
                    (table_set(es, Doc::Str("requestBody"@), b2), rb)
                },
                None => (es, Seq::empty()),
            };
            match table_get(es, Doc::Str("responses"@)) {
                Some(Doc::Table(rs)) => {
                    let (rs2, rr) = map_entries(rs, response_step(base));
                    (Doc::Table(table_set(es1, Doc::Str("responses"@), Doc::Table(rs2))), r1 + rr)
                },
                _ => (Doc::Table(es1), r1),
            }
        },
        _ => (op, Seq::empty()),
    }
}

/// The HTTP verbs of a path item, in the order the dereferencer visits them.
pub open spec fn verb(i: int) -> Seq<char> {
    if i == 0 {
        "get"@
    } else if i == 1 {
        "put"@
    } else if i == 2 {
        "post"@
    } else if i == 3 {
        "delete"@
    } else if i == 4 {
        "options"@
    } else if i == 5 {
        "head"@
    } else if i == 6 {
        "patch"@
    } else {
        "trace"@
    }
}

/// The items of a sequence node (nothing for another node).
pub open spec fn list_items(d: Doc) -> Seq<Doc> {
    match d {
        Doc::List(items) => items,
        _ => Seq::empty(),
    }
}

/// The parameters shared by the operations of a path item.
pub open spec fn path_parameters(es: Seq<(Doc, Doc)>) -> Seq<Doc> {
    match table_get(es, Doc::Str("parameters"@)) {
        Some(d) => list_items(d),
        None => Seq::empty(),
    }
}

/// Where a new `parameters` entry goes in an operation: before
/// `requestBody`, else before `responses`, else at the end (the order in
/// which the operation's fields are serialized).
pub open spec fn parameters_position(es: Seq<(Doc, Doc)>) -> int {
    if first_index(es, Doc::Str("requestBody"@)) >= 0 {
        first_index(es, Doc::Str("requestBody"@))
    } else if first_index(es, Doc::Str("responses"@)) >= 0 {
        first_index(es, Doc::Str("responses"@))
    } else {
        es.len() as int
    }
}

/// An operation with `ps` appended to its parameters.
pub open spec fn with_parameters_doc(op: Doc, ps: Seq<Doc>) -> Doc {
    if ps.len() == 0 {
        op
    } else {
        match op {
            Doc::Table(es) => Doc::Table(
                match table_get(es, Doc::Str("parameters"@)) {
                    Some(old) => table_set(
                        es,
                        Doc::Str("parameters"@),
                        Doc::List(list_items(old) + ps),
                    ),
                    None => es.insert(
                        parameters_position(es),
                        (Doc::Str("parameters"@), Doc::List(ps)),
                    ),
                },
            ),
            _ => op,
        }
    }
}

/// The entries of a path item after the shared parameters `ps` have been
/// appended to each of the first `n` verbs' operations (as `src` has them).
pub open spec fn propagate_doc(src: Seq<(Doc, Doc)>, ps: Seq<Doc>, n: nat) -> Seq<(Doc, Doc)>
    decreases n,
{
    if n == 0 {
        src
    } else {
        let e = propagate_doc(src, ps, (n - 1) as nat);
        match table_get(src, Doc::Str(verb(n - 1))) {
            Some(op) => table_set(e, Doc::Str(verb(n - 1)), with_parameters_doc(op, ps)),
            None => e,
        }
    }
}

/// The entries of a path item after the operations of the first `n` verbs
/// (as `src` has them) have been rewritten.
pub open spec fn deref_verbs_doc(base: Url, src: Seq<(Doc, Doc)>, n: nat) -> (
    Seq<(Doc, Doc)>,
    Seq<Load>,
)
    decreases n,
{
    if n == 0 {
        (src, Seq::empty())
    } else {
        let (e, r) = deref_verbs_doc(base, src, (n - 1) as nat);
        match table_get(src, Doc::Str(verb(n - 1))) {
            Some(op) => {
                let (op2, r2) = deref_operation_doc(base, op);
                (table_set(e, Doc::Str(verb(n - 1)), op2), r + r2)
            },
            None => (e, r),
        }
    }
}

/// A path item (when it is not a reference): the shared parameters are
/// appended to each operation, then the operations are rewritten.
pub open spec fn deref_path_item_doc(base: Url, pi: Doc) -> (Doc, Seq<Load>) {
    match pi {
        Doc::Table(es) => if ref_target(pi) is Some {
            (pi, Seq::empty())
        } else {
            let es1 = propagate_doc(es, path_parameters(es), 8);
            let (es2, r) = deref_verbs_doc(base, es1, 8);
            (Doc::Table(es2), r)
        },
        _ => (pi, Seq::empty()),
    }
}

/// Whether a key of `paths` names a path (it starts with `/`).
pub open spec fn is_path_key(k: Doc) -> bool {
    match k {
        Doc::Str(s) => s.len() > 0 && s[0] == '/',
        _ => false,
    }
}

/// The step that rewrites each path item.
pub open spec fn path_step(base: Url) -> EntryStep {
    |k: Doc, v: Doc|
        if is_path_key(k) {
            deref_path_item_doc(base, v)
        } else {
            (v, Seq::empty())
        }
}

/// The base URL of a specification: the file URL of the path recorded under
/// `file_path`.
pub open spec fn spec_base_url(root: Doc) -> Option<Url> {
    match get(root, "file_path"@) {
        Some(Doc::Str(p)) => file_url(p),
        _ => None,
    }
}

/// A specification with its path items rewritten, and the files to load.
pub open spec fn deref_spec_doc(base: Url, root: Doc) -> (Doc, Seq<Load>) {
    match root {
        Doc::Table(es) => match table_get(es, Doc::Str("paths"@)) {
            Some(Doc::Table(ps)) => {
                let (ps2, r) = map_entries(ps, path_step(base));
                (Doc::Table(table_set(es, Doc::Str("paths"@), Doc::Table(ps2))), r)
            },
            _ => (root, Seq::empty()),
        },
        _ => (root, Seq::empty()),
    }
}

/// The entries of `s` after inserting each entry of `known` in order (see
/// [`table_set`]).
pub open spec fn insert_all(s: Seq<(Doc, Doc)>, known: Seq<(Doc, Doc)>) -> Seq<(Doc, Doc)>
    decreases known.len(),
{
    if known.len() == 0 {
        s
    } else {
        table_set(insert_all(s, known.drop_last()), known.last().0, known.last().1)
    }
}

/// The entries of a specification's `components/schemas` section (none where
/// it has no such section).
pub open spec fn component_schemas(root: Doc) -> Seq<(Doc, Doc)> {
    match get(root, "components"@) {
        Some(c) => match get(c, "schemas"@) {
            Some(Doc::Table(s)) => s,
            _ => Seq::empty(),
        },
        None => Seq::empty(),
    }
}

/// A specification with the schemas `known` recorded in its
/// `components/schemas` section (created where absent); unchanged where
/// there is nothing to record.
pub open spec fn add_components_doc(root: Doc, known: Seq<(Doc, Doc)>) -> Doc {
    if known.len() == 0 {
        root
    } else {
        match root {
            Doc::Table(es) => {
                let comps = match table_get(es, Doc::Str("components"@)) {
                    Some(Doc::Table(c)) => c,
                    _ => Seq::empty(),
                };
                let schemas = match table_get(comps, Doc::Str("schemas"@)) {
                    Some(Doc::Table(s)) => s,
                    _ => Seq::empty(),
                };
                Doc::Table(
                    table_set(
                        es,
                        Doc::Str("components"@),
                        Doc::Table(
                            table_set(
                                comps,
                                Doc::Str("schemas"@),
                                Doc::Table(insert_all(schemas, known)),
                            ),
                        ),
                    ),
                )
            },
            _ => root,
        }
    }
}

/// A media type's schema is supported.
pub open spec fn supported_media_type(mt: Doc) -> bool {
    match get(mt, "schema"@) {
        Some(s) => supported_schema(s),
        None => true,
    }
}

/// A request body's or response's schemas are supported.
pub open spec fn supported_body(b: Doc) -> bool {
    ref_target(b) is Some || match get(b, "content"@) {
        Some(Doc::Table(cs)) => forall|k: int|
            0 <= k < cs.len() ==> supported_media_type(#[trigger] cs[k].1),
        _ => true,
    }
}

/// An operation's schemas are supported.
pub open spec fn supported_operation(op: Doc) -> bool {
    &&& match get(op, "requestBody"@) {
        Some(b) => supported_body(b),
        None => true,
    }
    &&& match get(op, "responses"@) {
        Some(Doc::Table(rs)) => forall|k: int|
            0 <= k < rs.len() && is_status_key(rs[k].0) ==> supported_body(#[trigger] rs[k].1),
        _ => true,
    }
}

/// A path item's schemas are supported.
pub open spec fn supported_path_item(pi: Doc) -> bool {
    ref_target(pi) is Some || forall|i: int|
        0 <= i < 8 ==> match #[trigger] get(pi, verb(i)) {
            Some(op) => supported_operation(op),
            None => true,
        }
}

/// Every schema that dereferencing a specification meets is supported.
pub open spec fn supported_spec(root: Doc) -> bool {
    match get(root, "paths"@) {
        Some(Doc::Table(ps)) => forall|k: int|
            0 <= k < ps.len() && is_path_key(ps[k].0) ==> supported_path_item(#[trigger] ps[k].1),
        _ => true,
    }
}

/// The eight verbs are distinct.
pub proof fn lemma_verbs_distinct()
    ensures
        forall|i: int, j: int| 0 <= i < 8 && 0 <= j < 8 && i != j ==> verb(i) != verb(j),
        forall|i: int| 0 <= i < 8 ==> verb(i) != "parameters"@,
{
    reveal_strlit("get");
    reveal_strlit("put");
    reveal_strlit("post");
    reveal_strlit("delete");
    reveal_strlit("options");
    reveal_strlit("head");
    reveal_strlit("patch");
    reveal_strlit("trace");
    reveal_strlit("parameters");
    assert forall|i: int, j: int| 0 <= i < 8 && 0 <= j < 8 && i != j implies verb(i) != verb(j) by {
        if verb(i) == verb(j) {
            assert(verb(i)[0] == verb(j)[0]);
            assert(verb(i).len() == verb(j).len());
            assert(verb(i)[1] == verb(j)[1]);
        }
    }
    assert forall|i: int| 0 <= i < 8 implies verb(i) != "parameters"@ by {
        if verb(i) == "parameters"@ {
            assert(verb(i).len() == "parameters"@.len());
        }
    }
}

/// Appending shared parameters to an operation changes what no key other
/// than `parameters` reads; `parameters` then reads the old list followed by
/// the shared parameters.
pub proof fn lemma_with_parameters(op: Doc, ps: Seq<Doc>)
    ensures
        forall|key: Seq<char>|
            key != "parameters"@ ==> #[trigger] get(with_parameters_doc(op, ps), key) == get(op, key),
        ps.len() > 0 && op is Table ==> get(with_parameters_doc(op, ps), "parameters"@) == Some(
            Doc::List(
                match get(op, "parameters"@) {
                    Some(old) => list_items(old),
                    None => Seq::empty(),
                } + ps,
            ),
        ),
{
    if ps.len() > 0 {
        if let Doc::Table(es) = op {
            let pk = Doc::Str("parameters"@);
            match table_get(es, pk) {
                Some(old) => {
                    lemma_table_set(es, pk, Doc::List(list_items(old) + ps));
                },
                None => {
                    let pos = parameters_position(es);
                    lemma_first_index(es, Doc::Str("requestBody"@));
                    lemma_first_index(es, Doc::Str("responses"@));
                    assert forall|key: Seq<char>| key != "parameters"@ implies #[trigger] get(
                        with_parameters_doc(op, ps),
                        key,
                    ) == get(op, key) by {
                        lemma_insert_get(es, pos, (pk, Doc::List(ps)), Doc::Str(key));
                    }
                    let r = es.insert(pos, (pk, Doc::List(ps)));
                    lemma_first_index(es, pk);
                    lemma_first_index(r, pk);
                    let fr = first_index(r, pk);
                    assert(r[pos] == (pk, Doc::List(ps)));
                    if fr >= 0 && fr != pos {
                        if fr < pos {
                            assert(r[fr] == es[fr]);
                        } else {
                            assert(r[fr] == es[fr - 1]);
                        }
                    }
                    assert(fr == pos);
                },
            }
        }
    }
}

/// What a path item's verbs read after the shared parameters are appended.
pub proof fn lemma_propagate(src: Seq<(Doc, Doc)>, ps: Seq<Doc>, n: nat, v: int)
    requires
        n <= 8,
        0 <= v < 8,
    ensures
        table_get(propagate_doc(src, ps, n), Doc::Str(verb(v))) == if v < n {
            match table_get(src, Doc::Str(verb(v))) {
                Some(op) => Some(with_parameters_doc(op, ps)),
                None => None,
            }
        } else {
            table_get(src, Doc::Str(verb(v)))
        },
    decreases n,
{
    lemma_verbs_distinct();
    if n > 0 {
        lemma_propagate(src, ps, (n - 1) as nat, v);
        let e = propagate_doc(src, ps, (n - 1) as nat);
        match table_get(src, Doc::Str(verb(n - 1))) {
            Some(op) => {
                lemma_table_set(e, Doc::Str(verb(n - 1)), with_parameters_doc(op, ps));
            },
            None => {},
        }
    }
}

/// Reading a key of a distinct-keyed map drops the entries after the last.
proof fn lemma_get_drop_last(known: Seq<(Doc, Doc)>, k: Doc)
    requires
        known.len() > 0,
        distinct_keys(known),
    ensures
        k == known.last().0 ==> table_get(known, k) == Some(known.last().1),
        k != known.last().0 ==> table_get(known, k) == table_get(known.drop_last(), k),
        distinct_keys(known.drop_last()),
{
    let kd = known.drop_last();
    lemma_first_index(kd, k);
    if k == known.last().0 && first_index(kd, k) >= 0 {
        assert(kd[first_index(kd, k)] == known[first_index(kd, k)]);
    }
    assert forall|i: int, j: int| 0 <= i < j < kd.len() implies kd[i].0 != kd[j].0 by {
        assert(kd[i] == known[i]);
        assert(kd[j] == known[j]);
    }
}

/// Inserting the entries of a distinct-keyed map `known` into `s`: a key of
/// `known` then reads its value there, any other key reads as in `s`.
pub proof fn lemma_insert_all(s: Seq<(Doc, Doc)>, known: Seq<(Doc, Doc)>, k: Doc)
    requires
        distinct_keys(known),
    ensures
        table_get(insert_all(s, known), k) == if table_get(known, k) is Some {
            table_get(known, k)
        } else {
            table_get(s, k)
        },
    decreases known.len(),
{
    if known.len() > 0 {
        lemma_get_drop_last(known, k);
        lemma_insert_all(s, known.drop_last(), k);
        lemma_table_set(insert_all(s, known.drop_last()), known.last().0, known.last().1);
    }
}

/// Finishing a specification makes every recorded schema available under
/// `components/schemas`, under its name; the schemas already there under
/// other names stay.
pub proof fn law_recorded_schemas(root: Doc, known: Seq<(Doc, Doc)>, k: Doc)
    requires
        known.len() > 0,
        distinct_keys(known),
        root is Table,
    ensures
        table_get(component_schemas(add_components_doc(root, known)), k) == if table_get(
            known,
            k,
        ) is Some {
            table_get(known, k)
        } else {
            table_get(component_schemas(root), k)
        },
{
    let es = root->Table_0;
    let comps = match table_get(es, Doc::Str("components"@)) {
        Some(Doc::Table(c)) => c,
        _ => Seq::empty(),
    };
    let schemas = match table_get(comps, Doc::Str("schemas"@)) {
        Some(Doc::Table(s)) => s,
        _ => Seq::empty(),
    };
    let comps2 = table_set(comps, Doc::Str("schemas"@), Doc::Table(insert_all(schemas, known)));
    lemma_table_set(es, Doc::Str("components"@), Doc::Table(comps2));
    lemma_table_set(comps, Doc::Str("schemas"@), Doc::Table(insert_all(schemas, known)));
    assert(component_schemas(add_components_doc(root, known)) == insert_all(schemas, known));
    assert(component_schemas(root) == schemas);
    lemma_insert_all(schemas, known, k);
}

/// What the verbs of a path item read after its operations are rewritten.
proof fn lemma_deref_verbs(base: Url, src: Seq<(Doc, Doc)>, n: nat, v: int)
    requires
        n <= 8,
        0 <= v < 8,
    ensures
        table_get(deref_verbs_doc(base, src, n).0, Doc::Str(verb(v))) == if v < n {
            match table_get(src, Doc::Str(verb(v))) {
                Some(op) => Some(deref_operation_doc(base, op).0),
                None => None,
            }
        } else {
            table_get(src, Doc::Str(verb(v)))
        },
    decreases n,
{
    lemma_verbs_distinct();
    if n > 0 {
        lemma_deref_verbs(base, src, (n - 1) as nat, v);
        let e = deref_verbs_doc(base, src, (n - 1) as nat).0;
        match table_get(src, Doc::Str(verb(n - 1))) {
            Some(op) => {
                lemma_table_set(e, Doc::Str(verb(n - 1)), deref_operation_doc(base, op).0);
            },
            None => {},
        }
    }
}

/// Rewriting an operation leaves its parameters as they are.
proof fn lemma_operation_parameters(base: Url, op: Doc)
    ensures
        get(deref_operation_doc(base, op).0, "parameters"@) == get(op, "parameters"@),
{
    reveal_strlit("requestBody");
    reveal_strlit("responses");
    reveal_strlit("parameters");
    assert("requestBody"@.len() != "parameters"@.len());
    assert("responses"@[2] != "parameters"@[2]);
    if let Doc::Table(es) = op {
        let pk = Doc::Str("parameters"@);
        let (es1, r1) = match table_get(es, Doc::Str("requestBody"@)) {
            Some(b) => {
                let (b2, rb) = deref_body_doc(base, b);
                (table_set(es, Doc::Str("requestBody"@), b2), rb)
            },
            None => (es, Seq::<Load>::empty()),
        };
        match table_get(es, Doc::Str("requestBody"@)) {
            Some(b) => {
                lemma_table_set(es, Doc::Str("requestBody"@), deref_body_doc(base, b).0);
            },
            None => {},
        }
        assert(table_get(es1, pk) == table_get(es, pk));
        match table_get(es, Doc::Str("responses"@)) {
            Some(Doc::Table(rs)) => {
                let rs2 = map_entries(rs, response_step(base)).0;
                lemma_table_set(es1, Doc::Str("responses"@), Doc::Table(rs2));
            },
            _ => {},
        }
    }
}

/// Dereferencing a path item appends its shared parameters to the
/// parameters of each of its operations.
pub proof fn law_shared_parameters(base: Url, path_item: Doc, v: int)
    requires
        path_item is Table,
        ref_target(path_item) is None,
        0 <= v < 8,
        get(path_item, verb(v)) is Some,
        get(path_item, verb(v))->Some_0 is Table,
        path_parameters(path_item->Table_0).len() > 0,
    ensures
        get(deref_path_item_doc(base, path_item).0, verb(v)) matches Some(op2) && get(
            op2,
            "parameters"@,
        ) == Some(
            Doc::List(
                match get(get(path_item, verb(v))->Some_0, "parameters"@) {
                    Some(old) => list_items(old),
                    None => Seq::empty(),
                } + path_parameters(path_item->Table_0),
            ),
        ),
{
    let es = path_item->Table_0;
    let ps = path_parameters(es);
    let op = get(path_item, verb(v))->Some_0;
    let es1 = propagate_doc(es, ps, 8);
    lemma_propagate(es, ps, 8, v);
    lemma_deref_verbs(base, es1, 8, v);
    lemma_with_parameters(op, ps);
    lemma_operation_parameters(base, with_parameters_doc(op, ps));
}

/// Rewriting the entries of a mapping keeps its keys, in their order, and
/// gives each value as the step makes it.
pub proof fn lemma_map_entries(es: Seq<(Doc, Doc)>, f: EntryStep)
    ensures
        map_entries(es, f).0.len() == es.len(),
        forall|i: int|
            0 <= i < es.len() ==> #[trigger] map_entries(es, f).0[i] == (
                es[i].0,
                f(es[i].0, es[i].1).0,
            ),
    decreases es.len(),
{
    if es.len() > 0 {
        let d = es.drop_last();
        lemma_map_entries(d, f);
        assert forall|i: int| 0 <= i < es.len() implies #[trigger] map_entries(es, f).0[i] == (
            es[i].0,
            f(es[i].0, es[i].1).0,
        ) by {
            if i < es.len() - 1 {
                assert(d[i] == es[i]);
            }
        }
    }
}

/// Rewriting a media type changes only its schema, which is rewritten as a
/// schema position; every other field stays as it is.
pub proof fn law_media_type_rewrite(base: Url, mt: Doc)
    ensures
        forall|k: Seq<char>|
            k != "schema"@ ==> #[trigger] get(deref_media_type_doc(base, mt).0, k) == get(mt, k),
        get(deref_media_type_doc(base, mt).0, "schema"@) == match get(mt, "schema"@) {
            Some(s) => Some(deref_schema_doc(base, s).0),
            None => None,
        },
{
    if let Doc::Table(es) = mt {
        if let Some(s) = table_get(es, Doc::Str("schema"@)) {
            lemma_table_set(es, Doc::Str("schema"@), deref_schema_doc(base, s).0);
        }
    }
}

/// Rewriting a request body or a response changes only its `content`: a
/// reference stays as it is; otherwise every field but `content` stays,
/// and a `content` mapping keeps its media types, in their order, each
/// rewritten (see [`law_media_type_rewrite`]).
pub proof fn law_body_rewrite(base: Url, b: Doc)
    ensures
        ref_target(b) is Some ==> deref_body_doc(base, b).0 == b,
        forall|k: Seq<char>|
            k != "content"@ ==> #[trigger] get(deref_body_doc(base, b).0, k) == get(b, k),
        ref_target(b) is None ==> match get(b, "content"@) {
            Some(Doc::Table(cs)) => get(deref_body_doc(base, b).0, "content"@) matches Some(
                Doc::Table(cs2),
            ) && cs2.len() == cs.len() && forall|i: int|
                0 <= i < cs.len() ==> #[trigger] cs2[i] == (
                    cs[i].0,
                    deref_media_type_doc(base, cs[i].1).0,
                ),
            other => get(deref_body_doc(base, b).0, "content"@) == other,
        },
{
    if let Doc::Table(es) = b {
        if ref_target(b) is None {
            if let Some(Doc::Table(cs)) = table_get(es, Doc::Str("content"@)) {
                let cs2 = map_entries(cs, media_step(base)).0;
                lemma_table_set(es, Doc::Str("content"@), Doc::Table(cs2));
                lemma_map_entries(cs, media_step(base));
            }
        }
    }
}

/// A sequence put together from two holds exactly what either holds.
pub proof fn lemma_concat_contains(a: Seq<Load>, b: Seq<Load>, x: Load)
    ensures
        (a + b).contains(x) <==> a.contains(x) || b.contains(x),
{
    if a.contains(x) {
        let j = choose|j: int| 0 <= j < a.len() && a[j] == x;
        assert((a + b)[j] == x);
    }
    if b.contains(x) {
        let j = choose|j: int| 0 <= j < b.len() && b[j] == x;
        assert((a + b)[a.len() + j] == x);
    }
    if (a + b).contains(x) {
        let j = choose|j: int| 0 <= j < (a + b).len() && (a + b)[j] == x;
        if j < a.len() {
            assert(a[j] == x);
        } else {
            assert(b[j - a.len()] == x);
        }
    }
}

/// The files that rewriting the entries of a mapping asks for are exactly
/// those that rewriting some entry asks for.
pub proof fn lemma_map_entries_loads(es: Seq<(Doc, Doc)>, f: EntryStep)
    ensures
        forall|i: int, x: Load|
            #![trigger f(es[i].0, es[i].1).1.contains(x)]
            0 <= i < es.len() && f(es[i].0, es[i].1).1.contains(x) ==> map_entries(
                es,
                f,
            ).1.contains(x),
        forall|x: Load|
            map_entries(es, f).1.contains(x) ==> exists|i: int|
                0 <= i < es.len() && #[trigger] f(es[i].0, es[i].1).1.contains(x),
    decreases es.len(),
{
    if es.len() > 0 {
        let d = es.drop_last();
        lemma_map_entries_loads(d, f);
        let rf = map_entries(d, f).1;
        let rv = f(es.last().0, es.last().1).1;
        assert forall|i: int, x: Load|
            #![trigger f(es[i].0, es[i].1).1.contains(x)]
            0 <= i < es.len() && f(es[i].0, es[i].1).1.contains(x) implies map_entries(
                es,
                f,
            ).1.contains(x) by {
            lemma_concat_contains(rf, rv, x);
            if i < es.len() - 1 {
                assert(d[i] == es[i]);
                assert(f(d[i].0, d[i].1).1.contains(x));
            }
        }
        assert forall|x: Load| map_entries(es, f).1.contains(x) implies exists|i: int|
            0 <= i < es.len() && #[trigger] f(es[i].0, es[i].1).1.contains(x) by {
            lemma_concat_contains(rf, rv, x);
            if rf.contains(x) {
                let i = choose|i: int| 0 <= i < d.len() && #[trigger] f(d[i].0, d[i].1).1.contains(x);
                assert(d[i] == es[i]);
                assert(f(es[i].0, es[i].1).1.contains(x));
            } else {
                assert(f(es[es.len() - 1].0, es[es.len() - 1].1).1.contains(x));
            }
        }
    }
}

/// The files that rewriting a media type asks for are those that rewriting
/// its schema asks for; none where it has no schema.
pub proof fn law_media_type_loads(base: Url, mt: Doc)
    ensures
        deref_media_type_doc(base, mt).1 == match get(mt, "schema"@) {
            Some(s) => deref_schema_doc(base, s).1,
            None => Seq::<Load>::empty(),
        },
{
}

/// The files that rewriting a request body or a response asks for are
/// exactly those that rewriting its media types asks for, every media type
/// of its `content` included; none for a reference.
pub proof fn law_body_loads(base: Url, b: Doc)
    ensures
        ref_target(b) is Some ==> deref_body_doc(base, b).1.len() == 0,
        ref_target(b) is None ==> match get(b, "content"@) {
            Some(Doc::Table(cs)) => (forall|i: int, x: Load|
                #![trigger deref_media_type_doc(base, cs[i].1).1.contains(x)]
                0 <= i < cs.len() && deref_media_type_doc(base, cs[i].1).1.contains(x)
                    ==> deref_body_doc(base, b).1.contains(x)) && (forall|x: Load|
                deref_body_doc(base, b).1.contains(x) ==> exists|i: int|
                    0 <= i < cs.len() && #[trigger] deref_media_type_doc(
                        base,
                        cs[i].1,
                    ).1.contains(x)),
            _ => deref_body_doc(base, b).1.len() == 0,
        },
{
    if let Doc::Table(es) = b {
        if ref_target(b) is None {
            if let Some(Doc::Table(cs)) = table_get(es, Doc::Str("content"@)) {
                let f = media_step(base);
                lemma_map_entries_loads(cs, f);
                assert forall|i: int| 0 <= i < cs.len() implies #[trigger] f(cs[i].0, cs[i].1)
                    == deref_media_type_doc(base, cs[i].1) by {}
                assert forall|x: Load|
                    deref_body_doc(base, b).1.contains(x) implies exists|i: int|
                    0 <= i < cs.len() && #[trigger] deref_media_type_doc(
                        base,
                        cs[i].1,
                    ).1.contains(x) by {
                    let i = choose|i: int| 0 <= i < cs.len() && #[trigger] f(cs[i].0, cs[i].1).1.contains(x);
                    assert(f(cs[i].0, cs[i].1) == deref_media_type_doc(base, cs[i].1));
                }
                assert forall|i: int, x: Load|
                    #![trigger deref_media_type_doc(base, cs[i].1).1.contains(x)]
                    0 <= i < cs.len() && deref_media_type_doc(base, cs[i].1).1.contains(x)
                    implies deref_body_doc(base, b).1.contains(x) by {
                    assert(f(cs[i].0, cs[i].1) == deref_media_type_doc(base, cs[i].1));
                }
            }
        }
    }
}

/// A key of `responses` is a status code exactly where it is neither
/// `default` nor an extension (`x-...`): every status code, whatever its
/// class, is rewritten.
pub proof fn law_status_keys(s: Seq<char>)
    ensures
        is_status_key(Doc::Str(s)) <==> (s != "default"@ && !(s.len() >= 2 && s[0] == 'x' && s[1]
            == '-')),
{
}

/// A key of `paths` names a path exactly where it starts with `/`.
pub proof fn law_path_keys(s: Seq<char>)
    ensures
        is_path_key(Doc::Str(s)) <==> (s.len() > 0 && s[0] == '/'),
{
}

/// Rewriting an operation rewrites its request body and each of its
/// responses keyed by a status code, whatever the code, and nothing else:
/// the other responses and fields stay, the responses keep their order, and
/// the files asked for are exactly those that the request body and those
/// responses ask for.
pub proof fn law_operation_rewrite(base: Url, op: Doc)
    requires
        op is Table,
    ensures
        forall|k: Seq<char>|
            k != "requestBody"@ && k != "responses"@ ==> #[trigger] get(
                deref_operation_doc(base, op).0,
                k,
            ) == get(op, k),
        get(deref_operation_doc(base, op).0, "requestBody"@) == match get(op, "requestBody"@) {
            Some(x) => Some(deref_body_doc(base, x).0),
            None => None,
        },
        match get(op, "responses"@) {
            Some(Doc::Table(rs)) => get(deref_operation_doc(base, op).0, "responses"@) matches Some(
                Doc::Table(rs2),
            ) && rs2.len() == rs.len() && forall|i: int|
                0 <= i < rs.len() ==> #[trigger] rs2[i] == (
                    rs[i].0,
                    if is_status_key(rs[i].0) {
                        deref_body_doc(base, rs[i].1).0
                    } else {
                        rs[i].1
                    },
                ),
            other => get(deref_operation_doc(base, op).0, "responses"@) == other,
        },
        forall|x: Load|
            get(op, "requestBody"@) matches Some(b) && deref_body_doc(base, b).1.contains(x)
                ==> deref_operation_doc(base, op).1.contains(x),
        forall|i: int, x: Load|
            #![trigger deref_body_doc(base, get(op, "responses"@)->Some_0->Table_0[i].1).1.contains(x)]
            get(op, "responses"@) matches Some(Doc::Table(rs)) && 0 <= i < rs.len()
                && is_status_key(rs[i].0) && deref_body_doc(base, rs[i].1).1.contains(x)
                ==> deref_operation_doc(base, op).1.contains(x),
        forall|x: Load|
            deref_operation_doc(base, op).1.contains(x) ==> (get(op, "requestBody"@) matches Some(
                b,
            ) && deref_body_doc(base, b).1.contains(x)) || (get(op, "responses"@) matches Some(
                Doc::Table(rs),
            ) && exists|i: int|
                0 <= i < rs.len() && is_status_key(rs[i].0) && #[trigger] deref_body_doc(
                    base,
                    rs[i].1,
                ).1.contains(x)),
{
    reveal_strlit("requestBody");
    reveal_strlit("responses");
    assert("requestBody"@.len() != "responses"@.len());
    let es = op->Table_0;
    let bk = Doc::Str("requestBody"@);
    let rk = Doc::Str("responses"@);
    let (es1, r1) = match table_get(es, bk) {
        Some(b) => {
            let (b2, rb) = deref_body_doc(base, b);
            (table_set(es, bk, b2), rb)
        },
        None => (es, Seq::<Load>::empty()),
    };
    if let Some(b) = table_get(es, bk) {
        lemma_table_set(es, bk, deref_body_doc(base, b).0);
    }
    match table_get(es, rk) {
        Some(Doc::Table(rs)) => {
            let f = response_step(base);
            let (rs2, rr) = map_entries(rs, f);
            lemma_table_set(es1, rk, Doc::Table(rs2));
            lemma_map_entries(rs, f);
            lemma_map_entries_loads(rs, f);
            assert(deref_operation_doc(base, op).1 == r1 + rr);
            assert forall|i: int| 0 <= i < rs.len() implies #[trigger] f(rs[i].0, rs[i].1) == if is_status_key(rs[i].0) {
                deref_body_doc(base, rs[i].1)
            } else {
                (rs[i].1, Seq::<Load>::empty())
            } by {}
            assert forall|x: Load|
                get(op, "requestBody"@) matches Some(b) && deref_body_doc(base, b).1.contains(x)
                implies deref_operation_doc(base, op).1.contains(x) by {
                lemma_concat_contains(r1, rr, x);
            }
            assert forall|i: int, x: Load|
                #![trigger deref_body_doc(base, get(op, "responses"@)->Some_0->Table_0[i].1).1.contains(x)]
                get(op, "responses"@) matches Some(Doc::Table(rs)) && 0 <= i < rs.len()
                && is_status_key(rs[i].0) && deref_body_doc(base, rs[i].1).1.contains(x)
                implies deref_operation_doc(base, op).1.contains(x) by {
                lemma_concat_contains(r1, rr, x);
                assert(f(rs[i].0, rs[i].1).1.contains(x));
            }
            assert forall|x: Load| deref_operation_doc(base, op).1.contains(x) implies (get(
                op,
                "requestBody"@,
            ) matches Some(b) && deref_body_doc(base, b).1.contains(x)) || (get(op, "responses"@) matches Some(
                Doc::Table(rs),
            ) && exists|i: int|
                0 <= i < rs.len() && is_status_key(rs[i].0) && #[trigger] deref_body_doc(
                    base,
                    rs[i].1,
                ).1.contains(x)) by {
                lemma_concat_contains(r1, rr, x);
                if rr.contains(x) {
                    let i = choose|i: int| 0 <= i < rs.len() && #[trigger] f(rs[i].0, rs[i].1).1.contains(x);
                    assert(is_status_key(rs[i].0));
                    assert(deref_body_doc(base, rs[i].1).1.contains(x));
                }
            }
        },
        _ => {
            assert(deref_operation_doc(base, op).1 == r1);
        },
    }
}

/// Whether a key of a path item names one of its operations (the HTTP
/// verbs of OpenAPI).
pub open spec fn is_operation_key(k: Seq<char>) -> bool {
    k == "get"@ || k == "put"@ || k == "post"@ || k == "delete"@ || k == "options"@ || k
        == "head"@ || k == "patch"@ || k == "trace"@
}

/// The verbs that the dereferencer visits are exactly the operation keys of
/// a path item.
pub proof fn law_verbs()
    ensures
        forall|v: int| 0 <= v < 8 ==> is_operation_key(#[trigger] verb(v)),
        forall|k: Seq<char>|
            is_operation_key(k) ==> exists|v: int| 0 <= v < 8 && #[trigger] verb(v) == k,
{
    assert forall|k: Seq<char>| is_operation_key(k) implies exists|v: int|
        0 <= v < 8 && #[trigger] verb(v) == k by {
        if k == "get"@ {
            assert(verb(0) == k);
        } else if k == "put"@ {
            assert(verb(1) == k);
        } else if k == "post"@ {
            assert(verb(2) == k);
        } else if k == "delete"@ {
            assert(verb(3) == k);
        } else if k == "options"@ {
            assert(verb(4) == k);
        } else if k == "head"@ {
            assert(verb(5) == k);
        } else if k == "patch"@ {
            assert(verb(6) == k);
        } else {
            assert(verb(7) == k);
        }
    }
}

/// Appending shared parameters and rewriting operations leave every key
/// that is not an operation key as it reads.
proof fn lemma_verbs_keep(base: Url, src: Seq<(Doc, Doc)>, ps: Seq<Doc>, n: nat, k: Seq<char>)
    requires
        !is_operation_key(k),
    ensures
        table_get(propagate_doc(src, ps, n), Doc::Str(k)) == table_get(src, Doc::Str(k)),
        table_get(deref_verbs_doc(base, src, n).0, Doc::Str(k)) == table_get(src, Doc::Str(k)),
    decreases n,
{
    if n > 0 {
        lemma_verbs_keep(base, src, ps, (n - 1) as nat, k);
        assert(is_operation_key(verb(n - 1)));
        assert(Doc::Str(k) != Doc::Str(verb(n - 1)));
        let e = propagate_doc(src, ps, (n - 1) as nat);
        let e2 = deref_verbs_doc(base, src, (n - 1) as nat).0;
        match table_get(src, Doc::Str(verb(n - 1))) {
            Some(op) => {
                lemma_table_set(e, Doc::Str(verb(n - 1)), with_parameters_doc(op, ps));
                lemma_table_set(e2, Doc::Str(verb(n - 1)), deref_operation_doc(base, op).0);
            },
            None => {},
        }
    }
}

/// The files that rewriting an operation asks for are among those that
/// rewriting the verbs asks for.
proof fn lemma_deref_verbs_loads(base: Url, src: Seq<(Doc, Doc)>, n: nat, v: int, x: Load)
    requires
        0 <= v < n,
        table_get(src, Doc::Str(verb(v))) is Some,
        deref_operation_doc(base, table_get(src, Doc::Str(verb(v)))->Some_0).1.contains(x),
    ensures
        deref_verbs_doc(base, src, n).1.contains(x),
    decreases n,
{
    let (e, r) = deref_verbs_doc(base, src, (n - 1) as nat);
    match table_get(src, Doc::Str(verb(n - 1))) {
        Some(op) => {
            let r2 = deref_operation_doc(base, op).1;
            lemma_concat_contains(r, r2, x);
            if v < n - 1 {
                lemma_deref_verbs_loads(base, src, (n - 1) as nat, v, x);
            }
        },
        None => {
            lemma_deref_verbs_loads(base, src, (n - 1) as nat, v, x);
        },
    }
}

/// Rewriting a path item (not a reference) rewrites each of its operations,
/// with the shared parameters appended first, whether or not it has shared
/// parameters (an operation of a path item without them is rewritten as it
/// stands), and asks for every file that rewriting the operation asks for.
pub proof fn law_path_item_rewrite(base: Url, pi: Doc, v: int)
    requires
        pi is Table,
        ref_target(pi) is None,
        0 <= v < 8,
        get(pi, verb(v)) is Some,
    ensures
        get(deref_path_item_doc(base, pi).0, verb(v)) == Some(
            deref_operation_doc(
                base,
                with_parameters_doc(get(pi, verb(v))->Some_0, path_parameters(pi->Table_0)),
            ).0,
        ),
        path_parameters(pi->Table_0).len() == 0 ==> get(deref_path_item_doc(base, pi).0, verb(v))
            == Some(deref_operation_doc(base, get(pi, verb(v))->Some_0).0),
        forall|x: Load|
            deref_operation_doc(
                base,
                with_parameters_doc(get(pi, verb(v))->Some_0, path_parameters(pi->Table_0)),
            ).1.contains(x) ==> deref_path_item_doc(base, pi).1.contains(x),
{
    let es = pi->Table_0;
    let ps = path_parameters(es);
    let es1 = propagate_doc(es, ps, 8);
    lemma_propagate(es, ps, 8, v);
    lemma_deref_verbs(base, es1, 8, v);
    assert forall|x: Load|
        deref_operation_doc(
            base,
            with_parameters_doc(get(pi, verb(v))->Some_0, path_parameters(pi->Table_0)),
        ).1.contains(x) implies deref_path_item_doc(base, pi).1.contains(x) by {
        lemma_deref_verbs_loads(base, es1, 8, v, x);
    }
}

/// Rewriting a path item leaves a reference as it is, and every key that is
/// not an operation key (shared parameters, summary, servers, ...) as it
/// reads.
pub proof fn law_path_item_keeps(base: Url, pi: Doc)
    ensures
        ref_target(pi) is Some ==> deref_path_item_doc(base, pi) == (pi, Seq::<Load>::empty()),
        forall|k: Seq<char>|
            !is_operation_key(k) ==> #[trigger] get(deref_path_item_doc(base, pi).0, k) == get(
                pi,
                k,
            ),
{
    if let Doc::Table(es) = pi {
        if ref_target(pi) is None {
            let ps = path_parameters(es);
            let es1 = propagate_doc(es, ps, 8);
            assert forall|k: Seq<char>| !is_operation_key(k) implies #[trigger] get(
                deref_path_item_doc(base, pi).0,
                k,
            ) == get(pi, k) by {
                lemma_verbs_keep(base, es, ps, 8, k);
                lemma_verbs_keep(base, es1, ps, 8, k);
            }
        }
    }
}

/// Rewriting a specification rewrites each of its path items keyed by a
/// path, keeps the other entries of `paths` and their order, keeps every
/// other field, and asks for every file that rewriting a path item asks for.
pub proof fn law_spec_rewrite(base: Url, root: Doc)
    requires
        root is Table,
        get(root, "paths"@) matches Some(Doc::Table(_)),
    ensures
        forall|k: Seq<char>|
            k != "paths"@ ==> #[trigger] get(deref_spec_doc(base, root).0, k) == get(root, k),
        get(deref_spec_doc(base, root).0, "paths"@) matches Some(Doc::Table(ps2)) && ps2.len()
            == get(root, "paths"@)->Some_0->Table_0.len() && forall|i: int|
            0 <= i < ps2.len() ==> #[trigger] ps2[i] == (
                get(root, "paths"@)->Some_0->Table_0[i].0,
                if is_path_key(get(root, "paths"@)->Some_0->Table_0[i].0) {
                    deref_path_item_doc(base, get(root, "paths"@)->Some_0->Table_0[i].1).0
                } else {
                    get(root, "paths"@)->Some_0->Table_0[i].1
                },
            ),
        forall|i: int, x: Load|
            #![trigger deref_path_item_doc(base, get(root, "paths"@)->Some_0->Table_0[i].1).1.contains(x)]
            0 <= i < get(root, "paths"@)->Some_0->Table_0.len() && is_path_key(
                get(root, "paths"@)->Some_0->Table_0[i].0,
            ) && deref_path_item_doc(base, get(root, "paths"@)->Some_0->Table_0[i].1).1.contains(x)
                ==> deref_spec_doc(base, root).1.contains(x),
{
    let es = root->Table_0;
    let pk = Doc::Str("paths"@);
    let ps = get(root, "paths"@)->Some_0->Table_0;
    let f = path_step(base);
    let ps2 = map_entries(ps, f).0;
    lemma_table_set(es, pk, Doc::Table(ps2));
    lemma_map_entries(ps, f);
    lemma_map_entries_loads(ps, f);
    assert forall|i: int| 0 <= i < ps.len() implies #[trigger] f(ps[i].0, ps[i].1) == if is_path_key(ps[i].0) {
        deref_path_item_doc(base, ps[i].1)
    } else {
        (ps[i].1, Seq::<Load>::empty())
    } by {}
    assert forall|i: int, x: Load|
        #![trigger deref_path_item_doc(base, get(root, "paths"@)->Some_0->Table_0[i].1).1.contains(x)]
        0 <= i < ps.len() && is_path_key(ps[i].0) && deref_path_item_doc(base, ps[i].1).1.contains(x)
        implies deref_spec_doc(base, root).1.contains(x) by {
        assert(f(ps[i].0, ps[i].1).1.contains(x));
    }
}

/// A specification without a `paths` mapping is left as it is, and no file
/// is asked for.
pub proof fn law_spec_without_paths(base: Url, root: Doc)
    requires
        !(get(root, "paths"@) matches Some(Doc::Table(_))),
    ensures
        deref_spec_doc(base, root) == (root, Seq::<Load>::empty()),
{
}

/// The base URL of a specification is the file URL of the path recorded
/// under its `file_path`; it has none without one.
pub proof fn law_base_url(root: Doc)
    ensures
        spec_base_url(root) == match get(root, "file_path"@) {
            Some(Doc::Str(p)) => file_url(p),
            _ => None,
        },
{
}

} // verus!
