//! The generator's collection of specifications, keyed by title, and the data
//! it hands to the templates.
use vstd::prelude::*;
use crate::value::{
    Doc, Value, copy_table, copy_value, entries_of, get, get_value, named_entries,
    set_entry, set_named, table_set, text, insert_entry, table_get, distinct_keys,
    lemma_table_set, first_index, lemma_first_index,
};
use crate::locate::text_view;
use crate::naming::{snake_case, to_snake_case};
use crate::parse::{parsed_specification, parse_specification_text};
use crate::paths::{insert_all, is_path_key, component_schemas};
use crate::walk::is_path_key_value;

verus! {

/// The title a specification is filed under: the snake case of
/// `info.title`.
pub open spec fn spec_title(spec: Doc) -> Option<Seq<char>> {
    match get(spec, "info"@) {
        Some(info) => match get(info, "title"@) {
            Some(Doc::Str(t)) => Some(snake_case(t)),
            _ => None,
        },
        None => None,
    }
}

/// A specification with the path of the file it was read from recorded
/// under `file_path`.
pub open spec fn with_file_path(spec: Doc, file_path: Seq<char>) -> Doc {
    match spec {
        Doc::Table(es) => Doc::Table(table_set(es, Doc::Str("file_path"@), Doc::Str(file_path))),
        _ => spec,
    }
}

/// The entries of `es` whose keys name paths, in order.
pub open spec fn keep_paths(es: Seq<(Doc, Doc)>) -> Seq<(Doc, Doc)>
    decreases es.len(),
{
    if es.len() == 0 {
        Seq::empty()
    } else if is_path_key(es.last().0) {
        keep_paths(es.drop_last()).push(es.last())
    } else {
        keep_paths(es.drop_last())
    }
}

/// The path items of a specification, by path.
pub open spec fn paths_section(spec: Doc) -> Doc {
    match get(spec, "paths"@) {
        Some(Doc::Table(es)) => Doc::Table(keep_paths(es)),
        _ => Doc::Table(Seq::empty()),
    }
}

/// The path items of every specification, by title.
pub open spec fn paths_table(specs: Seq<(Doc, Doc)>) -> Seq<(Doc, Doc)>
    decreases specs.len(),
{
    if specs.len() == 0 {
        Seq::empty()
    } else {
        table_set(paths_table(specs.drop_last()), specs.last().0, paths_section(specs.last().1))
    }
}

/// The schemas of the `components/schemas` sections of every
/// specification, by name; a later specification's schema replaces an
/// earlier one of the same name.
pub open spec fn schemas_table(specs: Seq<(Doc, Doc)>) -> Seq<(Doc, Doc)>
    decreases specs.len(),
{
    if specs.len() == 0 {
        Seq::empty()
    } else {
        insert_all(schemas_table(specs.drop_last()), component_schemas(specs.last().1))
    }
}

/// The data handed to the templates: the paths, the component schemas and
/// the generator's version.
pub open spec fn template_data(specs: Seq<(Doc, Doc)>, version: Seq<char>) -> Doc {
    Doc::Table(
        seq![
            (Doc::Str("paths"@), Doc::Table(paths_table(specs))),
            (
                Doc::Str("components"@),
                Doc::Table(seq![(Doc::Str("schemas"@), Doc::Table(schemas_table(specs)))]),
            ),
            (Doc::Str("openapi_generator_version"@), Doc::Str(version)),
        ],
    )
}

/// The template data lists, under each title, the path items of the
/// specification filed under it.
pub proof fn law_template_paths(specs: Seq<(Doc, Doc)>, i: int)
    requires
        distinct_keys(specs),
        0 <= i < specs.len(),
    ensures
        table_get(paths_table(specs), specs[i].0) == Some(paths_section(specs[i].1)),
    decreases specs.len(),
{
    let sd = specs.drop_last();
    let last = specs.last();
    lemma_table_set(paths_table(sd), last.0, paths_section(last.1));
    if i < specs.len() - 1 {
        assert(sd[i] == specs[i]);
        assert(specs[i].0 != last.0);
        assert forall|a: int, b: int| 0 <= a < b < sd.len() implies sd[a].0 != sd[b].0 by {
            assert(sd[a] == specs[a]);
            assert(sd[b] == specs[b]);
        }
        law_template_paths(sd, i);
    }
}

/// The path items handed to the templates are exactly the entries of a
/// specification's `paths` whose keys name paths, in their order.
pub proof fn law_paths_section(es: Seq<(Doc, Doc)>)
    ensures
        forall|j: int| 0 <= j < keep_paths(es).len() ==> is_path_key(#[trigger] keep_paths(es)[j].0),
        forall|j: int|
            0 <= j < es.len() && is_path_key(es[j].0) ==> keep_paths(es).contains(#[trigger] es[j]),
    decreases es.len(),
{
    if es.len() > 0 {
        let d = es.drop_last();
        law_paths_section(d);
        let kd = keep_paths(d);
        assert forall|j: int|
            0 <= j < es.len() && is_path_key(es[j].0) implies keep_paths(es).contains(
            #[trigger] es[j],
        ) by {
            if j < es.len() - 1 {
                assert(d[j] == es[j]);
                let w = choose|w: int| 0 <= w < kd.len() && kd[w] == d[j];
                if is_path_key(es.last().0) {
                    assert(keep_paths(es)[w] == kd[w]);
                }
            } else {
                assert(keep_paths(es)[kd.len() as int] == es[j]);
            }
        }
    }
}

/// Every key of the paths table is the title of a specification.
proof fn lemma_paths_table_keys(specs: Seq<(Doc, Doc)>, k: Doc)
    requires
        table_get(paths_table(specs), k) is Some,
    ensures
        exists|j: int| 0 <= j < specs.len() && #[trigger] specs[j].0 == k,
    decreases specs.len(),
{
    let sd = specs.drop_last();
    let last = specs.last();
    lemma_table_set(paths_table(sd), last.0, paths_section(last.1));
    if k == last.0 {
        assert(specs[specs.len() - 1].0 == k);
    } else {
        lemma_paths_table_keys(sd, k);
        let j = choose|j: int| 0 <= j < sd.len() && #[trigger] sd[j].0 == k;
        assert(specs[j] == sd[j]);
    }
}

/// The data handed to the templates holds, under `paths`, for each title
/// exactly the path items of the specification filed under it (the entries
/// of its `paths` keyed by a path, see [`law_paths_section`]) and no other
/// entry; under `components/schemas` the merged component schemas; and the
/// generator's version.
pub proof fn law_template_data(specs: Seq<(Doc, Doc)>, version: Seq<char>, i: int)
    requires
        distinct_keys(specs),
        0 <= i < specs.len(),
    ensures
        get(template_data(specs, version), "paths"@) matches Some(Doc::Table(t)) && table_get(
            t,
            specs[i].0,
        ) == Some(paths_section(specs[i].1)),
        paths_section(specs[i].1) == match get(specs[i].1, "paths"@) {
            Some(Doc::Table(es)) => Doc::Table(keep_paths(es)),
            _ => Doc::Table(Seq::empty()),
        },
        forall|k: Doc|
            #![trigger table_get(get(template_data(specs, version), "paths"@)->Some_0->Table_0, k)]
            table_get(get(template_data(specs, version), "paths"@)->Some_0->Table_0, k) is Some
                ==> exists|j: int| 0 <= j < specs.len() && #[trigger] specs[j].0 == k,
        get(template_data(specs, version), "components"@) matches Some(c) && get(c, "schemas"@)
            == Some(Doc::Table(schemas_table(specs))),
        get(template_data(specs, version), "openapi_generator_version"@) == Some(
            Doc::Str(version),
        ),
{
    reveal_strlit("paths");
    reveal_strlit("components");
    reveal_strlit("schemas");
    reveal_strlit("openapi_generator_version");
    assert("paths"@.len() == 5 && "components"@.len() == 10);
    assert("openapi_generator_version"@.len() == 25);
    let td = template_data(specs, version);
    let es = td->Table_0;
    let pk = Doc::Str("paths"@);
    let ck = Doc::Str("components"@);
    let vk = Doc::Str("openapi_generator_version"@);
    assert(pk != ck && pk != vk && ck != vk);
    lemma_first_index(es, pk);
    lemma_first_index(es, ck);
    lemma_first_index(es, vk);
    assert(es[0].0 == pk && es[1].0 == ck && es[2].0 == vk);
    assert(first_index(es, pk) == 0);
    assert(first_index(es, ck) == 1);
    assert(first_index(es, vk) == 2);
    let cs = es[1].1->Table_0;
    lemma_first_index(cs, Doc::Str("schemas"@));
    assert(first_index(cs, Doc::Str("schemas"@)) == 0);
    law_template_paths(specs, i);
    assert forall|k: Doc|
        #![trigger table_get(get(template_data(specs, version), "paths"@)->Some_0->Table_0, k)]
        table_get(get(template_data(specs, version), "paths"@)->Some_0->Table_0, k) is Some
        implies exists|j: int| 0 <= j < specs.len() && #[trigger] specs[j].0 == k by {
        lemma_paths_table_keys(specs, k);
    }
}

/// A key reads a value after inserting a map exactly where it read one
/// before or the inserted map has it.
proof fn lemma_insert_all_some(s: Seq<(Doc, Doc)>, known: Seq<(Doc, Doc)>, k: Doc)
    ensures
        table_get(insert_all(s, known), k) is Some <==> (table_get(s, k) is Some || table_get(
            known,
            k,
        ) is Some),
    decreases known.len(),
{
    if known.len() > 0 {
        let d = known.drop_last();
        lemma_insert_all_some(s, d, k);
        lemma_table_set(insert_all(s, d), known.last().0, known.last().1);
        lemma_first_index(known, k);
        lemma_first_index(d, k);
        if first_index(d, k) >= 0 {
            assert(known[first_index(d, k)] == d[first_index(d, k)]);
        }
        if first_index(known, k) >= 0 && first_index(known, k) < known.len() - 1 {
            assert(known[first_index(known, k)] == d[first_index(known, k)]);
        }
    }
}

/// The merged component schemas hold a name exactly where some
/// specification's `components/schemas` holds it; where the last
/// specification holds it (with distinct names), its schema is the one kept.
pub proof fn law_schemas_table(specs: Seq<(Doc, Doc)>, k: Doc)
    ensures
        table_get(schemas_table(specs), k) is Some <==> exists|i: int|
            0 <= i < specs.len() && (#[trigger] table_get(component_schemas(specs[i].1), k)) is Some,
        specs.len() > 0 && distinct_keys(component_schemas(specs.last().1)) && table_get(
            component_schemas(specs.last().1),
            k,
        ) is Some ==> table_get(schemas_table(specs), k) == table_get(
            component_schemas(specs.last().1),
            k,
        ),
    decreases specs.len(),
{
    if specs.len() > 0 {
        let d = specs.drop_last();
        let cs = component_schemas(specs.last().1);
        law_schemas_table(d, k);
        lemma_insert_all_some(schemas_table(d), cs, k);
        if distinct_keys(cs) {
            crate::paths::lemma_insert_all(schemas_table(d), cs, k);
        }
        if exists|i: int| 0 <= i < d.len() && (#[trigger] table_get(component_schemas(d[i].1), k)) is Some {
            let i = choose|i: int| 0 <= i < d.len() && (#[trigger] table_get(component_schemas(d[i].1), k)) is Some;
            assert(specs[i] == d[i]);
        }
        if exists|i: int| 0 <= i < specs.len() && (#[trigger] table_get(component_schemas(specs[i].1), k)) is Some {
            let i = choose|i: int| 0 <= i < specs.len() && (#[trigger] table_get(component_schemas(specs[i].1), k)) is Some;
            if i < specs.len() - 1 {
                assert(specs[i] == d[i]);
            }
        }
        if table_get(cs, k) is Some {
            assert(table_get(component_schemas(specs[specs.len() - 1].1), k) is Some);
        }
    }
}

/// The title a specification is filed under is the snake case of its
/// `info.title`; a specification without one has none.
pub proof fn law_spec_title(spec: Doc)
    ensures
        spec_title(spec) == match get(spec, "info"@) {
            Some(info) => match get(info, "title"@) {
                Some(Doc::Str(t)) => Some(snake_case(t)),
                _ => None,
            },
            None => None,
        },
{
}

/// Recording the file path of a specification sets `file_path` to it and
/// leaves every other field as it reads.
pub proof fn law_with_file_path(spec: Doc, file_path: Seq<char>)
    requires
        spec is Table,
    ensures
        get(with_file_path(spec, file_path), "file_path"@) == Some(Doc::Str(file_path)),
        forall|k: Seq<char>|
            k != "file_path"@ ==> #[trigger] get(with_file_path(spec, file_path), k) == get(
                spec,
                k,
            ),
{
    lemma_table_set(spec->Table_0, Doc::Str("file_path"@), Doc::Str(file_path));
}

/// The specifications a generator works from, by title (an
/// insertion-ordered map).
pub struct OpenApiGenerator {
    pub specs: Vec<(String, Value)>,
}

impl OpenApiGenerator {
    /// A generator without specifications.
    pub fn new() -> (g: Self)
        ensures
            g.specs@.len() == 0,
    {
        OpenApiGenerator { specs: Vec::new() }
    }

    /// The title a specification is filed under (see [`spec_title`]).
    pub fn specification_title(spec: &Value) -> (r: Option<String>)
        ensures
            text_view(r) == spec_title(spec@),
    {
        match get_value(spec, "info") {
            Some(info) => match get_value(info, "title") {
                Some(Value::String(t)) => Some(to_snake_case(t.as_str())),
                _ => None,
            },
            None => None,
        }
    }

    /// Parses the text of a specification file: its title (see
    /// [`spec_title`]) and the specification, in the form `openapiv3` gives
    /// it (see [`parsed_specification`]). An error where the text does not
    /// parse, or (which a parsed specification never shows) where it has no
    /// title.
    pub fn parse_specification(text: &str) -> (r: Result<(String, Value), String>)
        ensures
            match parsed_specification(text@) {
                None => r is Err,
                Some(d) => match spec_title(d) {
                    None => r is Err,
                    Some(t) => r matches Ok((title, spec)) && title@ == t && spec@ == d,
                },
            },
    {
        let spec = match parse_specification_text(text) {
            Ok(v) => v,
            Err(e) => return Err(e),
        };
        match Self::specification_title(&spec) {
            Some(title) => Ok((title, spec)),
            None => Err(String::from_str("the specification has no title")),
        }
    }

    /// Files a specification read from `file_path` under its title, with
    /// that path recorded in it; a specification already filed under the
    /// title is replaced. `false`, with nothing changed, where the
    /// specification has no title.
    pub fn add_specification(&mut self, spec: &Value, file_path: &str) -> (r: bool)
        ensures
            r == spec_title(spec@) is Some,
            r ==> named_entries(final(self).specs@) == table_set(
                named_entries(old(self).specs@),
                Doc::Str(spec_title(spec@)->Some_0),
                with_file_path(spec@, file_path@),
            ),
            !r ==> final(self).specs@ == old(self).specs@,
            distinct_keys(named_entries(old(self).specs@)) ==> distinct_keys(
                named_entries(final(self).specs@),
            ),
    {
        let title = match Self::specification_title(spec) {
            Some(t) => t,
            None => {
                return false;
            },
        };
        self.file_specification(title, spec, file_path);
        true
    }

    /// Files a specification read from `file_path` under `title`, with that
    /// path recorded in it; a specification already filed under the title is
    /// replaced.
    pub fn file_specification(&mut self, title: String, spec: &Value, file_path: &str)
        ensures
            named_entries(final(self).specs@) == table_set(
                named_entries(old(self).specs@),
                Doc::Str(title@),
                with_file_path(spec@, file_path@),
            ),
            distinct_keys(named_entries(old(self).specs@)) ==> distinct_keys(
                named_entries(final(self).specs@),
            ),
    {
        let recorded = match spec {
            Value::Mapping(es) => {
                let mut out = copy_table(es);
                set_entry(&mut out, "file_path", text(file_path));
                Value::Mapping(out)
            },
            _ => copy_value(spec),
        };
        let ghost before = named_entries(self.specs@);
        let ghost key = Doc::Str(title@);
        set_named(&mut self.specs, title, recorded);
        proof {
            lemma_table_set(before, key, recorded@);
        }
    }

    /// The number of specifications.
    pub fn spec_count(&self) -> (n: usize)
        ensures
            n == self.specs@.len(),
    {
        self.specs.len()
    }

    /// A copy of the `i`-th specification.
    pub fn spec_at(&self, i: usize) -> (r: Value)
        requires
            i < self.specs@.len(),
        ensures
            r@ == self.specs@[i as int].1@,
    {
        copy_value(&self.specs[i].1)
    }

    /// Replaces the `i`-th specification, keeping its title.
    pub fn replace_spec(&mut self, i: usize, spec: Value)
        requires
            i < old(self).specs@.len(),
        ensures
            named_entries(final(self).specs@) == named_entries(old(self).specs@).update(
                i as int,
                (named_entries(old(self).specs@)[i as int].0, spec@),
            ),
    {
        let title = self.specs[i].0.clone();
        let ghost before = self.specs@;
        self.specs.set(i, (title, spec));
        assert(named_entries(self.specs@) =~= named_entries(before).update(
            i as int,
            (named_entries(before)[i as int].0, spec@),
        ));
    }

    /// The path items of every specification, by title (see
    /// [`paths_table`]).
    pub fn get_paths(&self) -> (r: Value)
        ensures
            r@ == Doc::Table(paths_table(named_entries(self.specs@))),
    {
        let ghost sv = named_entries(self.specs@);
        let mut paths: Vec<(Value, Value)> = Vec::new();
        let mut i: usize = 0;
        assert(sv.take(0) =~= Seq::<(Doc, Doc)>::empty());
        while i < self.specs.len()
            invariant
                i <= self.specs.len(),
                sv == named_entries(self.specs@),
                entries_of(paths@) == paths_table(sv.take(i as int)),
            decreases self.specs.len() - i,
        {
            let section = paths_section_of(&self.specs[i].1);
            set_entry(&mut paths, self.specs[i].0.as_str(), section);
            proof {
                let t = sv.take(i + 1);
                assert(t.drop_last() =~= sv.take(i as int));
                assert(t.last() == sv[i as int]);
            }
            i = i + 1;
        }
        assert(sv.take(self.specs.len() as int) =~= sv);
        Value::Mapping(paths)
    }

    /// The component schemas of every specification, by name (see
    /// [`schemas_table`]).
    pub fn get_schemas(&self) -> (r: Value)
        ensures
            r@ == Doc::Table(schemas_table(named_entries(self.specs@))),
    {
        let ghost sv = named_entries(self.specs@);
        let mut schemas: Vec<(Value, Value)> = Vec::new();
        let mut i: usize = 0;
        assert(sv.take(0) =~= Seq::<(Doc, Doc)>::empty());
        while i < self.specs.len()
            invariant
                i <= self.specs.len(),
                sv == named_entries(self.specs@),
                entries_of(schemas@) == schemas_table(sv.take(i as int)),
            decreases self.specs.len() - i,
        {
            insert_component_schemas(&mut schemas, &self.specs[i].1);
            proof {
                let t = sv.take(i + 1);
                assert(t.drop_last() =~= sv.take(i as int));
                assert(t.last() == sv[i as int]);
            }
            i = i + 1;
        }
        assert(sv.take(self.specs.len() as int) =~= sv);
        Value::Mapping(schemas)
    }

    /// The data handed to the templates (see [`template_data`]); `version`
    /// is the generator's version.
    pub fn get_template_data(&self, version: &str) -> (r: Value)
        ensures
            r@ == template_data(named_entries(self.specs@), version@),
    {
        let mut components: Vec<(Value, Value)> = Vec::new();
        components.push((text("schemas"), self.get_schemas()));
        let ghost cv = components@;
        let mut root: Vec<(Value, Value)> = Vec::new();
        root.push((text("paths"), self.get_paths()));
        root.push((text("components"), Value::Mapping(components)));
        root.push((text("openapi_generator_version"), text(version)));
        let r = Value::Mapping(root);
        assert(entries_of(cv) =~= seq![
            (Doc::Str("schemas"@), Doc::Table(schemas_table(named_entries(self.specs@)))),
        ]);
        assert(entries_of(root@) =~= template_data(named_entries(self.specs@), version@)->Table_0);
        r
    }
}

/// The path items of a specification, by path (see [`paths_section`]).
fn paths_section_of(spec: &Value) -> (r: Value)
    ensures
        r@ == paths_section(spec@),
{
    let mut out: Vec<(Value, Value)> = Vec::new();
    match get_value(spec, "paths") {
        Some(Value::Mapping(es)) => {
            let ghost esv = entries_of(es@);
            let mut i: usize = 0;
            assert(esv.take(0) =~= Seq::<(Doc, Doc)>::empty());
            while i < es.len()
                invariant
                    i <= es.len(),
                    esv == entries_of(es@),
                    entries_of(out@) == keep_paths(esv.take(i as int)),
                decreases es.len() - i,
            {
                assert(esv[i as int] == (es[i as int].0@, es[i as int].1@));
                let is_path = is_path_key_value(&es[i].0);
                let ghost before = out@;
                if is_path {
                    out.push((copy_value(&es[i].0), copy_value(&es[i].1)));
                    assert(entries_of(out@) =~= entries_of(before).push(esv[i as int]));
                }
                proof {
                    let t = esv.take(i + 1);
                    assert(t.drop_last() =~= esv.take(i as int));
                    assert(t.last() == esv[i as int]);
                }
                i = i + 1;
            }
            assert(esv.take(es.len() as int) =~= esv);
            Value::Mapping(out)
        },
        _ => {
            assert(entries_of(out@) =~= Seq::<(Doc, Doc)>::empty());
            Value::Mapping(out)
        },
    }
}

/// Inserts the component schemas of a specification into `schemas`, in
/// order.
fn insert_component_schemas(schemas: &mut Vec<(Value, Value)>, spec: &Value)
    ensures
        entries_of(final(schemas)@) == insert_all(
            entries_of(old(schemas)@),
            component_schemas(spec@),
        ),
{
    let ghost s0 = entries_of(schemas@);
    let section: Option<&Vec<(Value, Value)>> = match get_value(spec, "components") {
        Some(c) => match get_value(c, "schemas") {
            Some(Value::Mapping(s)) => Some(s),
            _ => None,
        },
        None => None,
    };
    match section {
        Some(s) => {
            let ghost sv = entries_of(s@);
            assert(sv == component_schemas(spec@));
            let mut i: usize = 0;
            assert(sv.take(0) =~= Seq::<(Doc, Doc)>::empty());
            while i < s.len()
                invariant
                    i <= s.len(),
                    sv == entries_of(s@),
                    entries_of(schemas@) == insert_all(s0, sv.take(i as int)),
                decreases s.len() - i,
            {
                assert(sv[i as int] == (s[i as int].0@, s[i as int].1@));
                insert_entry(schemas, &s[i].0, copy_value(&s[i].1));
                proof {
                    let t = sv.take(i + 1);
                    assert(t.drop_last() =~= sv.take(i as int));
                    assert(t.last() == sv[i as int]);
                }
                i = i + 1;
            }
            assert(sv.take(s.len() as int) =~= sv);
        },
        None => {
            assert(component_schemas(spec@) =~= Seq::<(Doc, Doc)>::empty());
        },
    }
}

} // verus!
