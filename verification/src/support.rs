//! Deciding whether the dereferencer can handle a schema or a specification,
//! that is whether every schema it would meet is of a supported kind.
use vstd::prelude::*;
use crate::value::{Doc, Value, entries_of, find_key, get, get_value};
use crate::schema::{ref_target, supported_schema, supported_nested, supported_properties};
use crate::paths::{
    is_path_key, is_status_key, verb, supported_media_type, supported_body, supported_operation,
    supported_path_item, supported_spec,
};
use crate::walk::{verb_name, is_path_key_value, is_status_key_value};

verus! {

/// Whether a schema position is supported (see [`supported_schema`]).
pub fn is_supported_schema(schema: &Value) -> (r: bool)
    ensures
        r == supported_schema(schema@),
    decreases schema, 1nat,
{
    match get_value(schema, "$ref") {
        Some(Value::String(_)) => true,
        _ => is_supported_nested(schema),
    }
}

/// Whether a schema is supported (see [`supported_nested`]).
pub fn is_supported_nested(schema: &Value) -> (r: bool)
    ensures
        r == supported_nested(schema@),
    decreases schema, 0nat,
{
    match schema {
        Value::Mapping(es) => {
            let ghost esv = entries_of(es@);
            assert(schema@ == Doc::Table(esv));
            let ty = match find_key(es, "type") {
                Some(i) => {
                    assert(esv[i as int].1 == es[i as int].1@);
                    &es[i].1
                },
                None => {
                    return false;
                },
            };
            let t = match ty {
                Value::String(t) => t.as_str(),
                _ => {
                    return false;
                },
            };
            let object = String::from_str("object");
            let array = String::from_str("array");
            let tt = String::from_str(t);
            if tt == object {
                let props_ok = match find_key(es, "properties") {
                    Some(i) => {
                        assert(esv[i as int].1 == es[i as int].1@);
                        match &es[i].1 {
                            Value::Mapping(ps) => {
                                proof {
                                    assert(decreases_to!(*schema => schema->Mapping_0));
                                    assert(decreases_to!(*es => es[i as int]));
                                    assert(decreases_to!(es[i as int] => es[i as int].1));
                                    assert(decreases_to!(es[i as int].1 => es[i as int].1->Mapping_0));
                                }
                                is_supported_properties(ps)
                            },
                            _ => true,
                        }
                    },
                    None => true,
                };
                let addl_ok = match find_key(es, "additionalProperties") {
                    Some(j) => {
                        assert(esv[j as int].1 == es[j as int].1@);
                        proof {
                            assert(decreases_to!(*schema => schema->Mapping_0));
                            assert(decreases_to!(*es => es[j as int]));
                            assert(decreases_to!(es[j as int] => es[j as int].1));
                        }
                        is_supported_schema(&es[j].1)
                    },
                    None => true,
                };
                props_ok && addl_ok
            } else if tt == array {
                match find_key(es, "items") {
                    Some(j) => {
                        assert(esv[j as int].1 == es[j as int].1@);
                        proof {
                            assert(decreases_to!(*schema => schema->Mapping_0));
                            assert(decreases_to!(*es => es[j as int]));
                            assert(decreases_to!(es[j as int] => es[j as int].1));
                        }
                        is_supported_schema(&es[j].1)
                    },
                    None => true,
                }
            } else {
                let s = String::from_str("string");
                let n = String::from_str("number");
                let i = String::from_str("integer");
                let b = String::from_str("boolean");
                tt == s || tt == n || tt == i || tt == b
            }
        },
        _ => true,
    }
}

/// Whether every value of a mapping is a supported schema position.
fn is_supported_properties(ps: &Vec<(Value, Value)>) -> (r: bool)
    ensures
        r == supported_properties(entries_of(ps@)),
    decreases *ps, 2nat,
{
    let ghost psv = entries_of(ps@);
    let mut i: usize = 0;
    assert(psv.take(0) =~= Seq::<(Doc, Doc)>::empty());
    while i < ps.len()
        invariant
            i <= ps.len(),
            psv == entries_of(ps@),
            supported_properties(psv.take(i as int)),
        decreases ps.len() - i,
    {
        proof {
            assert(decreases_to!(*ps => ps[i as int]));
            assert(decreases_to!(ps[i as int] => ps[i as int].1));
        }
        assert(psv[i as int] == (ps[i as int].0@, ps[i as int].1@));
        let ok = is_supported_schema(&ps[i].1);
        proof {
            let t = psv.take(i + 1);
            assert(t.drop_last() =~= psv.take(i as int));
            assert(t.last() == psv[i as int]);
        }
        if !ok {
            proof {
                if supported_properties(psv) {
                    lemma_supported_prefix(psv, i as int + 1);
                }
            }
            return false;
        }
        i = i + 1;
    }
    assert(psv.take(ps.len() as int) =~= psv);
    true
}

/// A prefix of a supported sequence of properties is supported.
proof fn lemma_supported_prefix(ps: Seq<(Doc, Doc)>, n: int)
    requires
        0 <= n <= ps.len(),
        supported_properties(ps),
    ensures
        supported_properties(ps.take(n)),
    decreases ps.len(),
{
    if n < ps.len() {
        lemma_supported_prefix(ps.drop_last(), n);
        assert(ps.drop_last().take(n) =~= ps.take(n));
    } else {
        assert(ps.take(n) =~= ps);
    }
}

/// Whether a media type's schema is supported.
fn is_supported_media_type(mt: &Value) -> (r: bool)
    ensures
        r == supported_media_type(mt@),
{
    match get_value(mt, "schema") {
        Some(s) => is_supported_schema(s),
        None => true,
    }
}

/// Whether a request body's or a response's schemas are supported.
fn is_supported_body(b: &Value) -> (r: bool)
    ensures
        r == supported_body(b@),
{
    match get_value(b, "$ref") {
        Some(Value::String(_)) => {
            return true;
        },
        _ => {},
    }
    match get_value(b, "content") {
        Some(Value::Mapping(cs)) => {
            let ghost csv = entries_of(cs@);
            let mut i: usize = 0;
            while i < cs.len()
                invariant
                    i <= cs.len(),
                    csv == entries_of(cs@),
                    get(b@, "content"@) == Some(Doc::Table(csv)),
                    ref_target(b@) is None,
                    forall|k: int| 0 <= k < i ==> supported_media_type(#[trigger] csv[k].1),
                decreases cs.len() - i,
            {
                assert(csv[i as int] == (cs[i as int].0@, cs[i as int].1@));
                if !is_supported_media_type(&cs[i].1) {
                    let ghost x = get(b@, "content"@)->Some_0->Table_0;
                    assert(x == csv);
                    assert(!supported_media_type(x[i as int].1));
                    return false;
                }
                i = i + 1;
            }
            true
        },
        _ => true,
    }
}

/// Whether an operation's schemas are supported.
fn is_supported_operation(op: &Value) -> (r: bool)
    ensures
        r == supported_operation(op@),
{
    let body_ok = match get_value(op, "requestBody") {
        Some(b) => is_supported_body(b),
        None => true,
    };
    if !body_ok {
        return false;
    }
    match get_value(op, "responses") {
        Some(Value::Mapping(rs)) => {
            let ghost rsv = entries_of(rs@);
            let mut i: usize = 0;
            while i < rs.len()
                invariant
                    i <= rs.len(),
                    rsv == entries_of(rs@),
                    get(op@, "responses"@) == Some(Doc::Table(rsv)),
                    match get(op@, "requestBody"@) {
                        Some(b) => supported_body(b),
                        None => true,
                    },
                    forall|k: int|
                        0 <= k < i && is_status_key(rsv[k].0) ==> supported_body(
                            #[trigger] rsv[k].1,
                        ),
                decreases rs.len() - i,
            {
                assert(rsv[i as int] == (rs[i as int].0@, rs[i as int].1@));
                if is_status_key_value(&rs[i].0) && !is_supported_body(&rs[i].1) {
                    let ghost x = get(op@, "responses"@)->Some_0->Table_0;
                    assert(x == rsv);
                    assert(is_status_key(x[i as int].0) && !supported_body(x[i as int].1));
                    return false;
                }
                i = i + 1;
            }
            true
        },
        _ => true,
    }
}

/// Whether a path item's schemas are supported.
fn is_supported_path_item(pi: &Value) -> (r: bool)
    ensures
        r == supported_path_item(pi@),
{
    match get_value(pi, "$ref") {
        Some(Value::String(_)) => {
            return true;
        },
        _ => {},
    }
    let mut v: usize = 0;
    while v < 8
        invariant
            v <= 8,
            ref_target(pi@) is None,
            forall|w: int|
                0 <= w < v ==> match #[trigger] get(pi@, verb(w)) {
                    Some(op) => supported_operation(op),
                    None => true,
                },
        decreases 8 - v,
    {
        let name = verb_name(v);
        match get_value(pi, name) {
            Some(op) => {
                if !is_supported_operation(op) {
                    assert(get(pi@, verb(v as int)) == Some(op@));
                    return false;
                }
            },
            None => {},
        }
        v = v + 1;
    }
    true
}

/// Whether every schema that dereferencing the specification would meet is
/// supported (see [`supported_spec`]).
pub fn is_supported_spec(spec: &Value) -> (r: bool)
    ensures
        r == supported_spec(spec@),
{
    match get_value(spec, "paths") {
        Some(Value::Mapping(ps)) => {
            let ghost psv = entries_of(ps@);
            let mut i: usize = 0;
            while i < ps.len()
                invariant
                    i <= ps.len(),
                    psv == entries_of(ps@),
                    get(spec@, "paths"@) == Some(Doc::Table(psv)),
                    forall|k: int|
                        0 <= k < i && is_path_key(psv[k].0) ==> supported_path_item(
                            #[trigger] psv[k].1,
                        ),
                decreases ps.len() - i,
            {
                assert(psv[i as int] == (ps[i as int].0@, ps[i as int].1@));
                if is_path_key_value(&ps[i].0) && !is_supported_path_item(&ps[i].1) {
                    let ghost x = get(spec@, "paths"@)->Some_0->Table_0;
                    assert(x == psv);
                    assert(is_path_key(x[i as int].0) && !supported_path_item(x[i as int].1));
                    return false;
                }
                i = i + 1;
            }
            true
        },
        _ => true,
    }
}

} // verus!
