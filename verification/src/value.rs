//! The document model: a YAML value tree, its mathematical view, and the
//! mapping operations (lookup and insertion with insertion-ordered map
//! semantics) that the rest of the library is written with.
use vstd::prelude::*;

verus! {

/// A YAML node. Mappings keep their entries in insertion order, and the
/// operations of this module never give a mapping two entries with one key.
#[derive(Debug, PartialEq)]
pub enum Value {
    Null,
    Bool(bool),
    /// A number, kept as its textual form.
    Number(String),
    String(String),
    Sequence(Vec<Value>),
    Mapping(Vec<(Value, Value)>),
    Tagged(String, Box<Value>),
}

/// The mathematical view of a [`Value`].
pub enum Doc {
    Null,
    Bool(bool),
    Number(Seq<char>),
    Str(Seq<char>),
    List(Seq<Doc>),
    Table(Seq<(Doc, Doc)>),
    Tagged(Seq<char>, Box<Doc>),
}

/// The views of a sequence of values.
pub open spec fn docs_of(s: Seq<Value>) -> Seq<Doc>
    decreases s,
{
    Seq::new(s.len(), |i: int| if 0 <= i < s.len() { s[i]@ } else { Doc::Null })
}

/// The views of a sequence of mapping entries.
pub open spec fn entries_of(s: Seq<(Value, Value)>) -> Seq<(Doc, Doc)>
    decreases s,
{
    Seq::new(
        s.len(),
        |i: int|
            if 0 <= i < s.len() {
                (s[i].0@, s[i].1@)
            } else {
                (Doc::Null, Doc::Null)
            },
    )
}

impl View for Value {
    type V = Doc;

    open spec fn view(&self) -> Doc
        decreases self,
    {
        match self {
            Value::Null => Doc::Null,
            Value::Bool(b) => Doc::Bool(*b),
            Value::Number(n) => Doc::Number(n@),
            Value::String(s) => Doc::Str(s@),
            Value::Sequence(items) => Doc::List(docs_of(items@)),
            Value::Mapping(entries) => Doc::Table(entries_of(entries@)),
            Value::Tagged(t, v) => Doc::Tagged(t@, Box::new((**v)@)),
        }
    }
}

/// The position of the first entry of `entries` whose key is `key`, or -1.
pub open spec fn first_index(entries: Seq<(Doc, Doc)>, key: Doc) -> int
    decreases entries.len(),
{
    if entries.len() == 0 {
        -1
    } else {
        let i = first_index(entries.drop_last(), key);
        if i >= 0 {
            i
        } else if entries.last().0 == key {
            entries.len() - 1
        } else {
            -1
        }
    }
}

/// The value stored under `key`, as an insertion-ordered map reads it.
pub open spec fn table_get(entries: Seq<(Doc, Doc)>, key: Doc) -> Option<Doc> {
    let i = first_index(entries, key);
    if i >= 0 {
        Some(entries[i].1)
    } else {
        None
    }
}

/// Insertion into an insertion-ordered map: the value of an existing key is
/// replaced where it stands (the key is kept); a new key goes to the end.
pub open spec fn table_set(entries: Seq<(Doc, Doc)>, key: Doc, val: Doc) -> Seq<(Doc, Doc)> {
    let i = first_index(entries, key);
    if i >= 0 {
        entries.update(i, (entries[i].0, val))
    } else {
        entries.push((key, val))
    }
}

/// The value under the string key `name` of a mapping node.
pub open spec fn get(d: Doc, name: Seq<char>) -> Option<Doc> {
    match d {
        Doc::Table(entries) => table_get(entries, Doc::Str(name)),
        _ => None,
    }
}

/// No two entries share a key.
pub open spec fn distinct_keys(entries: Seq<(Doc, Doc)>) -> bool {
    forall|i: int, j: int| 0 <= i < j < entries.len() ==> entries[i].0 != entries[j].0
}

/// `first_index` names the first entry with the key, or says there is none.
pub proof fn lemma_first_index(entries: Seq<(Doc, Doc)>, key: Doc)
    ensures
        -1 <= first_index(entries, key) < entries.len(),
        first_index(entries, key) >= 0 ==> entries[first_index(entries, key)].0 == key,
        forall|j: int|
            0 <= j < entries.len() && (first_index(entries, key) < 0 || j < first_index(
                entries,
                key,
            )) ==> entries[j].0 != key,
    decreases entries.len(),
{
    if entries.len() > 0 {
        let prefix = entries.drop_last();
        lemma_first_index(prefix, key);
        assert forall|j: int|
            0 <= j < entries.len() && (first_index(entries, key) < 0 || j < first_index(
                entries,
                key,
            )) implies entries[j].0 != key by {
            if j < entries.len() - 1 {
                assert(prefix[j] == entries[j]);
            }
        }
        if first_index(prefix, key) >= 0 {
            assert(prefix[first_index(prefix, key)] == entries[first_index(prefix, key)]);
        }
    }
}

/// `first_index` reads only the keys.
pub proof fn lemma_first_index_keys(a: Seq<(Doc, Doc)>, b: Seq<(Doc, Doc)>, key: Doc)
    requires
        a.len() == b.len(),
        forall|j: int| 0 <= j < a.len() ==> a[j].0 == b[j].0,
    ensures
        first_index(a, key) == first_index(b, key),
    decreases a.len(),
{
    if a.len() > 0 {
        let (pa, pb) = (a.drop_last(), b.drop_last());
        assert forall|j: int| 0 <= j < pa.len() implies pa[j].0 == pb[j].0 by {
            assert(pa[j] == a[j]);
            assert(pb[j] == b[j]);
        }
        lemma_first_index_keys(pa, pb, key);
    }
}

/// Reading a key back after inserting it gives the inserted value, other keys
/// read as before, and distinct keys stay distinct.
pub proof fn lemma_table_set(entries: Seq<(Doc, Doc)>, key: Doc, val: Doc)
    ensures
        table_get(table_set(entries, key, val), key) == Some(val),
        forall|k: Doc| k != key ==> table_get(table_set(entries, key, val), k) == table_get(entries, k),
        distinct_keys(entries) ==> distinct_keys(table_set(entries, key, val)),
{
    let r = table_set(entries, key, val);
    let i = first_index(entries, key);
    lemma_first_index(entries, key);
    if i >= 0 {
        assert forall|k: Doc| #[trigger] first_index(r, k) == first_index(entries, k) by {
            lemma_first_index_keys(r, entries, k);
        }
        assert forall|k: Doc| k != key implies table_get(r, k) == table_get(entries, k) by {
            lemma_first_index(entries, k);
            assert(first_index(r, k) == first_index(entries, k));
        }
        assert(first_index(r, key) == i);
    } else {
        assert(r.drop_last() =~= entries);
        assert(first_index(r, key) == entries.len());
        assert forall|k: Doc| k != key implies table_get(r, k) == table_get(entries, k) by {
            lemma_first_index(entries, k);
            if first_index(entries, k) >= 0 {
                assert(r[first_index(entries, k)] == entries[first_index(entries, k)]);
            }
        }
        if distinct_keys(entries) {
            assert forall|a: int, b: int| 0 <= a < b < r.len() implies r[a].0 != r[b].0 by {
                if b == entries.len() {
                    assert(r[a] == entries[a]);
                } else {
                    assert(r[a] == entries[a]);
                    assert(r[b] == entries[b]);
                }
            }
        }
    }
}

/// Setting a key to the value it already reads changes nothing.
pub proof fn lemma_table_set_same(entries: Seq<(Doc, Doc)>, key: Doc, val: Doc)
    requires
        table_get(entries, key) == Some(val),
    ensures
        table_set(entries, key, val) == entries,
{
    lemma_first_index(entries, key);
    let i = first_index(entries, key);
    assert(entries.update(i, (entries[i].0, val)) =~= entries);
}

/// Inserting an entry with another key at any position leaves what a key
/// reads unchanged.
pub proof fn lemma_insert_get(es: Seq<(Doc, Doc)>, p: int, e: (Doc, Doc), k: Doc)
    requires
        0 <= p <= es.len(),
        e.0 != k,
    ensures
        table_get(es.insert(p, e), k) == table_get(es, k),
{
    let r = es.insert(p, e);
    lemma_first_index(es, k);
    lemma_first_index(r, k);
    let fi = first_index(es, k);
    let fr = first_index(r, k);
    if fi < 0 {
        if fr >= 0 {
            if fr < p {
                assert(r[fr] == es[fr]);
            } else if fr > p {
                assert(r[fr] == es[fr - 1]);
            }
        }
    } else {
        let c = if fi < p {
            fi
        } else {
            fi + 1
        };
        assert(r[c] == es[fi]);
        if fr >= 0 && fr < c {
            if fr < p {
                assert(r[fr] == es[fr]);
            } else if fr > p {
                assert(r[fr] == es[fr - 1]);
            }
        }
        assert(fr == c);
    }
}

/// An exec copy of a value, equal in view to the original.
pub fn copy_value(v: &Value) -> (r: Value)
    ensures
        r@ == v@,
    decreases v,
{
    match v {
        Value::Null => Value::Null,
        Value::Bool(b) => Value::Bool(*b),
        Value::Number(n) => Value::Number(n.clone()),
        Value::String(s) => Value::String(s.clone()),
        Value::Sequence(items) => {
            let mut out: Vec<Value> = Vec::new();
            let mut i: usize = 0;
            while i < items.len()
                invariant
                    i <= items.len(),
                    *v == Value::Sequence(*items),
                    out.len() == i,
                    forall|j: int| 0 <= j < i ==> out[j]@ == items[j]@,
                decreases items.len() - i,
            {
                proof {
                    assert(decreases_to!(*v => v->Sequence_0));
                    assert(decreases_to!(*items => items[i as int]));
                }
                let c = copy_value(&items[i]);
                out.push(c);
                i = i + 1;
            }
            assert(docs_of(out@) =~= docs_of(items@));
            Value::Sequence(out)
        },
        Value::Mapping(entries) => {
            let out = copy_entries(v, entries);
            let r = Value::Mapping(out);
            assert(r@->Table_0 =~= v@->Table_0);
            r
        },
        Value::Tagged(t, inner) => Value::Tagged(t.clone(), Box::new(copy_value(inner))),
    }
}

fn copy_entries(v: &Value, entries: &Vec<(Value, Value)>) -> (out: Vec<(Value, Value)>)
    requires
        *v == Value::Mapping(*entries),
    ensures
        entries_of(out@) == entries_of(entries@),
    decreases v, 0nat,
{
    let mut out: Vec<(Value, Value)> = Vec::new();
    let mut i: usize = 0;
    while i < entries.len()
        invariant
            i <= entries.len(),
            *v == Value::Mapping(*entries),
            out.len() == i,
            forall|j: int|
                0 <= j < i ==> out[j].0@ == entries[j].0@ && out[j].1@ == entries[j].1@,
        decreases entries.len() - i,
    {
        proof {
            assert(decreases_to!(*v => v->Mapping_0));
            assert(decreases_to!(*entries => entries[i as int]));
            assert(decreases_to!(entries[i as int] => entries[i as int].0));
            assert(decreases_to!(entries[i as int] => entries[i as int].1));
        }
        let k = copy_value(&entries[i].0);
        let x = copy_value(&entries[i].1);
        out.push((k, x));
        i = i + 1;
    }
    assert(entries_of(out@) =~= entries_of(entries@));
    out
}

/// Whether a node is the string `text`.
pub fn is_text(v: &Value, text: &str) -> (r: bool)
    ensures
        r == (v@ == Doc::Str(text@)),
{
    match v {
        Value::String(s) => {
            let t = String::from_str(text);
            *s == t
        },
        _ => false,
    }
}

/// The position of the first entry whose key is the string `key`.
pub fn find_key(entries: &Vec<(Value, Value)>, key: &str) -> (r: Option<usize>)
    ensures
        match r {
            Some(i) => i < entries.len() && i as int == first_index(
                entries_of(entries@),
                Doc::Str(key@),
            ),
            None => first_index(entries_of(entries@), Doc::Str(key@)) == -1,
        },
{
    let ghost es = entries_of(entries@);
    proof {
        lemma_first_index(es, Doc::Str(key@));
    }
    let mut i: usize = 0;
    while i < entries.len()
        invariant
            i <= entries.len(),
            es == entries_of(entries@),
            forall|j: int| 0 <= j < i ==> es[j].0 != Doc::Str(key@),
            -1 <= first_index(es, Doc::Str(key@)) < es.len(),
            first_index(es, Doc::Str(key@)) >= 0 ==> es[first_index(es, Doc::Str(key@))].0
                == Doc::Str(key@),
            forall|j: int|
                0 <= j < es.len() && (first_index(es, Doc::Str(key@)) < 0 || j < first_index(
                    es,
                    Doc::Str(key@),
                )) ==> es[j].0 != Doc::Str(key@),
        decreases entries.len() - i,
    {
        assert(es[i as int].0 == entries[i as int].0@);
        if is_text(&entries[i].0, key) {
            return Some(i);
        }
        i = i + 1;
    }
    None
}

/// The value under the string key `key` of a mapping node.
pub fn get_value<'a>(v: &'a Value, key: &str) -> (r: Option<&'a Value>)
    ensures
        match r {
            Some(x) => get(v@, key@) == Some(x@),
            None => get(v@, key@) is None,
        },
{
    match v {
        Value::Mapping(entries) => {
            let ghost es = entries_of(entries@);
            match find_key(entries, key) {
                Some(i) => {
                    assert(es[i as int].1 == entries[i as int].1@);
                    Some(&entries[i].1)
                },
                None => None,
            }
        },
        _ => None,
    }
}

/// A string node.
pub fn text(s: &str) -> (r: Value)
    ensures
        r@ == Doc::Str(s@),
{
    Value::String(String::from_str(s))
}

/// Copies a sequence of entries.
pub fn copy_table(entries: &Vec<(Value, Value)>) -> (out: Vec<(Value, Value)>)
    ensures
        entries_of(out@) == entries_of(entries@),
{
    let mut out: Vec<(Value, Value)> = Vec::new();
    let mut i: usize = 0;
    while i < entries.len()
        invariant
            i <= entries.len(),
            out.len() == i,
            forall|j: int|
                0 <= j < i ==> out[j].0@ == entries[j].0@ && out[j].1@ == entries[j].1@,
        decreases entries.len() - i,
    {
        let k = copy_value(&entries[i].0);
        let x = copy_value(&entries[i].1);
        out.push((k, x));
        i = i + 1;
    }
    assert(entries_of(out@) =~= entries_of(entries@));
    out
}

/// Copies a sequence of values.
pub fn copy_items(items: &Vec<Value>) -> (out: Vec<Value>)
    ensures
        docs_of(out@) == docs_of(items@),
{
    let mut out: Vec<Value> = Vec::new();
    let mut i: usize = 0;
    while i < items.len()
        invariant
            i <= items.len(),
            out.len() == i,
            forall|j: int| 0 <= j < i ==> out[j]@ == items[j]@,
        decreases items.len() - i,
    {
        out.push(copy_value(&items[i]));
        i = i + 1;
    }
    assert(docs_of(out@) =~= docs_of(items@));
    out
}

/// Inserts `val` under the string key `key`, with insertion-ordered map
/// semantics (see [`table_set`]).
pub fn set_entry(entries: &mut Vec<(Value, Value)>, key: &str, val: Value)
    ensures
        entries_of(final(entries)@) == table_set(entries_of(old(entries)@), Doc::Str(key@), val@),
{
    let ghost es = entries_of(entries@);
    match find_key(entries, key) {
        Some(i) => {
            let k = copy_value(&entries[i].0);
            entries.set(i, (k, val));
            assert(entries_of(entries@) =~= table_set(es, Doc::Str(key@), val@));
        },
        None => {
            entries.push((text(key), val));
            assert(entries_of(entries@) =~= table_set(es, Doc::Str(key@), val@));
        },
    }
}

/// Whether two values are equal (in view).
pub fn values_equal(a: &Value, b: &Value) -> (r: bool)
    ensures
        r == (a@ == b@),
    decreases a,
{
    match (a, b) {
        (Value::Null, Value::Null) => true,
        (Value::Bool(x), Value::Bool(y)) => *x == *y,
        (Value::Number(x), Value::Number(y)) => *x == *y,
        (Value::String(x), Value::String(y)) => *x == *y,
        (Value::Sequence(xs), Value::Sequence(ys)) => {
            if xs.len() != ys.len() {
                assert(docs_of(xs@).len() != docs_of(ys@).len());
                return false;
            }
            let mut i: usize = 0;
            while i < xs.len()
                invariant
                    i <= xs.len(),
                    xs.len() == ys.len(),
                    *a == Value::Sequence(*xs),
                    *b == Value::Sequence(*ys),
                    forall|j: int| 0 <= j < i ==> xs[j]@ == ys[j]@,
                decreases xs.len() - i,
            {
                proof {
                    assert(decreases_to!(*a => a->Sequence_0));
                    assert(decreases_to!(*xs => xs[i as int]));
                }
                if !values_equal(&xs[i], &ys[i]) {
                    assert(docs_of(xs@)[i as int] != docs_of(ys@)[i as int]);
                    return false;
                }
                i = i + 1;
            }
            assert(docs_of(xs@) =~= docs_of(ys@));
            true
        },
        (Value::Mapping(xs), Value::Mapping(ys)) => {
            if xs.len() != ys.len() {
                assert(entries_of(xs@).len() != entries_of(ys@).len());
                return false;
            }
            let mut i: usize = 0;
            while i < xs.len()
                invariant
                    i <= xs.len(),
                    xs.len() == ys.len(),
                    *a == Value::Mapping(*xs),
                    *b == Value::Mapping(*ys),
                    forall|j: int| 0 <= j < i ==> xs[j].0@ == ys[j].0@ && xs[j].1@ == ys[j].1@,
                decreases xs.len() - i,
            {
                proof {
                    assert(decreases_to!(*a => a->Mapping_0));
                    assert(decreases_to!(*xs => xs[i as int]));
                    assert(decreases_to!(xs[i as int] => xs[i as int].0));
                    assert(decreases_to!(xs[i as int] => xs[i as int].1));
                }
                if !values_equal(&xs[i].0, &ys[i].0) || !values_equal(&xs[i].1, &ys[i].1) {
                    assert(entries_of(xs@)[i as int] != entries_of(ys@)[i as int]);
                    return false;
                }
                i = i + 1;
            }
            assert(entries_of(xs@) =~= entries_of(ys@));
            true
        },
        (Value::Tagged(t, x), Value::Tagged(u, y)) => *t == *u && values_equal(x, y),
        _ => false,
    }
}

/// Inserts `val` under the key `key`, with insertion-ordered map semantics
/// (see [`table_set`]).
pub fn insert_entry(entries: &mut Vec<(Value, Value)>, key: &Value, val: Value)
    ensures
        entries_of(final(entries)@) == table_set(entries_of(old(entries)@), key@, val@),
{
    let ghost es = entries_of(entries@);
    proof {
        lemma_first_index(es, key@);
    }
    let mut i: usize = 0;
    while i < entries.len()
        invariant
            i <= entries.len(),
            entries@ == old(entries)@,
            es == entries_of(entries@),
            forall|j: int| 0 <= j < i ==> es[j].0 != key@,
            -1 <= first_index(es, key@) < es.len(),
            first_index(es, key@) >= 0 ==> es[first_index(es, key@)].0 == key@,
            forall|j: int|
                0 <= j < es.len() && (first_index(es, key@) < 0 || j < first_index(es, key@))
                    ==> es[j].0 != key@,
        decreases entries.len() - i,
    {
        assert(es[i as int].0 == entries[i as int].0@);
        if values_equal(&entries[i].0, key) {
            assert(first_index(es, key@) == i);
            let k = copy_value(&entries[i].0);
            entries.set(i, (k, val));
            assert(entries_of(entries@) =~= table_set(es, key@, val@));
            return;
        }
        i = i + 1;
    }
    entries.push((copy_value(key), val));
    assert(entries_of(entries@) =~= table_set(es, key@, val@));
}

/// The view of a map from names to values.
pub open spec fn named_entries(s: Seq<(String, Value)>) -> Seq<(Doc, Doc)> {
    Seq::new(s.len(), |i: int| (Doc::Str(s[i].0@), s[i].1@))
}

/// Inserts `val` under `name` in a map from names to values, with
/// insertion-ordered map semantics.
pub fn set_named(entries: &mut Vec<(String, Value)>, name: String, val: Value)
    ensures
        named_entries(final(entries)@) == table_set(
            named_entries(old(entries)@),
            Doc::Str(name@),
            val@,
        ),
{
    let ghost es = named_entries(entries@);
    let ghost key = Doc::Str(name@);
    proof {
        lemma_first_index(es, key);
    }
    let mut i: usize = 0;
    while i < entries.len()
        invariant
            i <= entries.len(),
            entries@ == old(entries)@,
            es == named_entries(entries@),
            key == Doc::Str(name@),
            forall|j: int| 0 <= j < i ==> es[j].0 != key,
            -1 <= first_index(es, key) < es.len(),
            first_index(es, key) >= 0 ==> es[first_index(es, key)].0 == key,
            forall|j: int|
                0 <= j < es.len() && (first_index(es, key) < 0 || j < first_index(es, key))
                    ==> es[j].0 != key,
        decreases entries.len() - i,
    {
        assert(es[i as int].0 == Doc::Str(entries[i as int].0@));
        if entries[i].0 == name {
            assert(first_index(es, key) == i);
            entries.set(i, (name, val));
            assert(named_entries(entries@) =~= table_set(es, key, val@));
            return;
        }
        i = i + 1;
    }
    entries.push((name, val));
    assert(named_entries(entries@) =~= table_set(es, key, val@));
}

} // verus!
