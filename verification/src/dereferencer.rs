//! The dereferencer: rewrites the references of a specification that point
//! into other files, and drives the loading of those files.
use vstd::prelude::*;
use crate::value::{
    Doc, Value, copy_value, copy_table, entries_of, find_key, get_value, set_entry, table_get,
    table_set, named_entries, set_named, distinct_keys, lemma_table_set,
};
use crate::paths::{
    deref_spec_doc, supported_spec, spec_base_url, insert_all, add_components_doc,
    component_schemas, law_recorded_schemas,
};
use crate::locate::{url_from_file_path, copy_url, copy_path};
use url::Url;
use std::path::PathBuf;
use crate::support::{is_supported_spec, is_supported_nested};
use crate::parse::{parsed_schema, parse_schema_text};
use crate::schema::{Load, LoadRequest, loads_of, supported_nested, deref_nested_doc};

verus! {

/// A piece of pending work: a file to load, or a resolved schema to record.
#[derive(Debug)]
pub enum Task {
    Load(LoadRequest),
    Record(String, Value),
}

/// The view of a [`Task`].
pub enum Step {
    Load(Load),
    Record(Seq<char>, Doc),
}

impl View for Task {
    type V = Step;

    open spec fn view(&self) -> Step {
        match self {
            Task::Load(q) => Step::Load(q@),
            Task::Record(n, v) => Step::Record(n@, v@),
        }
    }
}

/// The views of a sequence of tasks.
pub open spec fn steps_of(s: Seq<Task>) -> Seq<Step> {
    s.map_values(|t: Task| t@)
}

/// The tasks that load `qs`, stacked so that the first of them is on top
/// (last).
pub open spec fn load_steps(qs: Seq<Load>) -> Seq<Step> {
    Seq::new(qs.len(), |i: int| Step::Load(qs[qs.len() - 1 - i]))
}

/// Records the schemas on top of the stack `st` into `known`, until a file
/// to load is on top or the stack is empty.
pub open spec fn run_records(known: Seq<(Doc, Doc)>, st: Seq<Step>) -> (Seq<(Doc, Doc)>, Seq<Step>)
    decreases st.len(),
{
    if st.len() == 0 {
        (known, st)
    } else {
        match st.last() {
            Step::Record(n, d) => run_records(table_set(known, Doc::Str(n), d), st.drop_last()),
            Step::Load(_) => (known, st),
        }
    }
}

/// Rewrites the references of specifications that point into other files and
/// records the schemas loaded from those files.
///
/// Loading a file is left to the caller: [`Dereferencer::deref_spec`]
/// rewrites a specification and stacks the files it needs;
/// [`Dereferencer::next_load`] names the next file to load (recording the
/// schemas whose files are all resolved); [`Dereferencer::supply`] takes the
/// schema read from that file; [`Dereferencer::finish_spec`] records the
/// resolved schemas in the specification.
#[derive(Debug)]
pub struct Dereferencer {
    /// The schemas recorded so far, by name (an insertion-ordered map).
    pub known_refs: Vec<(String, Value)>,
    /// The pending work, a stack whose top is the last element.
    pub pending: Vec<Task>,
    /// Whether the specification being dereferenced has a base URL (only
    /// then are the recorded schemas added to it).
    pub resolving: bool,
}

/// Recording schemas never loses a name: every name recorded before stays
/// recorded, and so does the name of a schema on top of the pending work;
/// names stay distinct.
pub proof fn law_records_keep_names(known: Seq<(Doc, Doc)>, st: Seq<Step>)
    ensures
        forall|k: Doc|
            table_get(known, k) is Some ==> #[trigger] table_get(run_records(known, st).0, k) is Some,
        st.len() > 0 && st.last() is Record ==> table_get(
            run_records(known, st).0,
            Doc::Str(st.last()->Record_0),
        ) is Some,
        distinct_keys(known) ==> distinct_keys(run_records(known, st).0),
    decreases st.len(),
{
    if st.len() > 0 {
        match st.last() {
            Step::Record(n, d) => {
                let k2 = table_set(known, Doc::Str(n), d);
                lemma_table_set(known, Doc::Str(n), d);
                law_records_keep_names(k2, st.drop_last());
            },
            Step::Load(_) => {},
        }
    }
}

/// The name a step records or will record.
pub open spec fn step_name(s: Step) -> Seq<char> {
    match s {
        Step::Load(q) => q.name,
        Step::Record(n, _) => n,
    }
}

/// The names recorded or owed: those of `known` and those of the pending
/// steps.
pub open spec fn owed_names(known: Seq<(Doc, Doc)>, st: Seq<Step>) -> Set<Doc> {
    Set::new(
        |k: Doc|
            table_get(known, k) is Some || exists|i: int|
                0 <= i < st.len() && k == Doc::Str(step_name(#[trigger] st[i])),
    )
}

/// Recording the schemas on top of the pending work neither adds nor drops
/// an owed name.
pub proof fn law_records_keep_owed(known: Seq<(Doc, Doc)>, st: Seq<Step>)
    ensures
        owed_names(run_records(known, st).0, run_records(known, st).1) == owed_names(known, st),
    decreases st.len(),
{
    if st.len() > 0 {
        match st.last() {
            Step::Record(n, d) => {
                let k2 = table_set(known, Doc::Str(n), d);
                let sd = st.drop_last();
                law_records_keep_owed(k2, sd);
                lemma_table_set(known, Doc::Str(n), d);
                assert forall|k: Doc| owed_names(k2, sd).contains(k) == owed_names(
                    known,
                    st,
                ).contains(k) by {
                    if k == Doc::Str(n) {
                        assert(st[st.len() - 1] == st.last());
                    }
                    if exists|i: int| 0 <= i < sd.len() && k == Doc::Str(step_name(#[trigger] sd[i])) {
                        let i = choose|i: int| 0 <= i < sd.len() && k == Doc::Str(step_name(#[trigger] sd[i]));
                        assert(st[i] == sd[i]);
                    }
                    if exists|i: int| 0 <= i < st.len() && k == Doc::Str(step_name(#[trigger] st[i])) {
                        let i = choose|i: int| 0 <= i < st.len() && k == Doc::Str(step_name(#[trigger] st[i]));
                        if i < st.len() - 1 {
                            assert(st[i] == sd[i]);
                        }
                    }
                }
                assert(owed_names(k2, sd) =~= owed_names(known, st));
            },
            Step::Load(_) => {},
        }
    }
}

/// Taking the schema of the file on top of the pending work keeps every owed
/// name owed: the file's name moves to the schema to record.
pub proof fn law_supply_keeps_owed(
    known: Seq<(Doc, Doc)>,
    st: Seq<Step>,
    resolved: Doc,
    qs: Seq<Load>,
)
    requires
        st.len() > 0,
        st.last() is Load,
    ensures
        owed_names(known, st).subset_of(
            owed_names(
                known,
                st.drop_last().push(Step::Record(st.last()->Load_0.name, resolved)) + load_steps(
                    qs,
                ),
            ),
        ),
{
    let st2 = st.drop_last().push(Step::Record(st.last()->Load_0.name, resolved)) + load_steps(qs);
    assert forall|k: Doc| owed_names(known, st).contains(k) implies owed_names(known, st2).contains(
        k,
    ) by {
        if table_get(known, k) is None {
            let i = choose|i: int| 0 <= i < st.len() && k == Doc::Str(step_name(#[trigger] st[i]));
            if i < st.len() - 1 {
                assert(st2[i] == st[i]);
            } else {
                assert(step_name(st2[st.len() - 1]) == step_name(st[i]));
            }
        }
    }
}

/// The work left on the stack `st` carried out to the end, with `files`
/// giving the schema each file holds: what [`Dereferencer::next_load`] and
/// [`Dereferencer::supply`] do, step by step; `None` where `fuel` steps do
/// not suffice.
pub open spec fn complete_run(
    known: Seq<(Doc, Doc)>,
    st: Seq<Step>,
    files: spec_fn(PathBuf) -> Doc,
    fuel: nat,
) -> Option<Seq<(Doc, Doc)>>
    decreases fuel,
{
    let (k1, st1) = run_records(known, st);
    if st1.len() == 0 {
        Some(k1)
    } else if fuel == 0 {
        None
    } else {
        let q = st1.last()->Load_0;
        let (d, qs) = deref_nested_doc(q.url, files(q.file_path));
        complete_run(
            k1,
            st1.drop_last().push(Step::Record(q.name, d)) + load_steps(qs),
            files,
            (fuel - 1) as nat,
        )
    }
}

/// After the top of the stack has been recorded, the top is a file to load
/// or the stack is empty.
proof fn lemma_run_records_top(known: Seq<(Doc, Doc)>, st: Seq<Step>)
    ensures
        run_records(known, st).1.len() > 0 ==> run_records(known, st).1.last() is Load,
    decreases st.len(),
{
    if st.len() > 0 {
        match st.last() {
            Step::Record(n, d) => lemma_run_records_top(
                table_set(known, Doc::Str(n), d),
                st.drop_last(),
            ),
            Step::Load(_) => {},
        }
    }
}

/// Whatever the files hold, once the pending work is carried out to the end,
/// every name that was recorded or owed is recorded: each file asked for has
/// its schema recorded under its name.
pub proof fn law_complete_run(
    known: Seq<(Doc, Doc)>,
    st: Seq<Step>,
    files: spec_fn(PathBuf) -> Doc,
    fuel: nat,
)
    requires
        complete_run(known, st, files, fuel) is Some,
    ensures
        forall|k: Doc|
            owed_names(known, st).contains(k) ==> (#[trigger] table_get(
                complete_run(known, st, files, fuel)->Some_0,
                k,
            )) is Some,
    decreases fuel,
{
    let (k1, st1) = run_records(known, st);
    law_records_keep_owed(known, st);
    lemma_run_records_top(known, st);
    if st1.len() == 0 {
        assert forall|k: Doc| owed_names(known, st).contains(k) implies (#[trigger] table_get(
            complete_run(known, st, files, fuel)->Some_0,
            k,
        )) is Some by {
            assert(owed_names(k1, st1).contains(k));
        }
    } else {
        let q = st1.last()->Load_0;
        let (d, qs) = deref_nested_doc(q.url, files(q.file_path));
        let st2 = st1.drop_last().push(Step::Record(q.name, d)) + load_steps(qs);
        law_supply_keeps_owed(k1, st1, d, qs);
        law_complete_run(k1, st2, files, (fuel - 1) as nat);
        assert forall|k: Doc| owed_names(known, st).contains(k) implies (#[trigger] table_get(
            complete_run(known, st, files, fuel)->Some_0,
            k,
        )) is Some by {
            assert(owed_names(k1, st1).contains(k));
            assert(owed_names(k1, st2).contains(k));
        }
    }
}

/// Every file that dereferencing a specification asks for is owed: its name
/// is among the names to record.
pub proof fn law_requested_names_owed(known: Seq<(Doc, Doc)>, qs: Seq<Load>)
    ensures
        forall|i: int|
            0 <= i < qs.len() ==> owed_names(known, load_steps(qs)).contains(
                Doc::Str(#[trigger] qs[i].name),
            ),
{
    assert forall|i: int| 0 <= i < qs.len() implies owed_names(known, load_steps(qs)).contains(
        Doc::Str(#[trigger] qs[i].name),
    ) by {
        let st = load_steps(qs);
        let j = qs.len() - 1 - i;
        assert(st[j] == Step::Load(qs[i]));
        assert(step_name(st[j]) == qs[i].name);
    }
}

/// Carrying out the pending work keeps the recorded names distinct.
proof fn lemma_complete_run_distinct(
    known: Seq<(Doc, Doc)>,
    st: Seq<Step>,
    files: spec_fn(PathBuf) -> Doc,
    fuel: nat,
)
    requires
        complete_run(known, st, files, fuel) is Some,
        distinct_keys(known),
    ensures
        distinct_keys(complete_run(known, st, files, fuel)->Some_0),
    decreases fuel,
{
    law_records_keep_names(known, st);
    let (k1, st1) = run_records(known, st);
    if st1.len() > 0 {
        let q = st1.last()->Load_0;
        let (d, qs) = deref_nested_doc(q.url, files(q.file_path));
        lemma_complete_run_distinct(
            k1,
            st1.drop_last().push(Step::Record(q.name, d)) + load_steps(qs),
            files,
            (fuel - 1) as nat,
        );
    }
}

/// Whatever the files hold, once the files that dereferencing a
/// specification asks for have all been loaded and the specification is
/// finished, each of them has its schema under `components/schemas`, under
/// the name that its references were rewritten to (see
/// [`law_reference_rewrite`](crate::schema::law_reference_rewrite)).
pub proof fn law_requested_schemas_recorded(
    known: Seq<(Doc, Doc)>,
    base: Url,
    root: Doc,
    files: spec_fn(PathBuf) -> Doc,
    fuel: nat,
)
    requires
        distinct_keys(known),
        root is Table,
        complete_run(known, load_steps(deref_spec_doc(base, root).1), files, fuel) is Some,
    ensures
        forall|i: int|
            0 <= i < deref_spec_doc(base, root).1.len() ==> (#[trigger] table_get(
                component_schemas(
                    add_components_doc(
                        deref_spec_doc(base, root).0,
                        complete_run(
                            known,
                            load_steps(deref_spec_doc(base, root).1),
                            files,
                            fuel,
                        )->Some_0,
                    ),
                ),
                Doc::Str(deref_spec_doc(base, root).1[i].name),
            )) is Some,
{
    let (out, qs) = deref_spec_doc(base, root);
    let st = load_steps(qs);
    let k = complete_run(known, st, files, fuel)->Some_0;
    law_requested_names_owed(known, qs);
    law_complete_run(known, st, files, fuel);
    lemma_complete_run_distinct(known, st, files, fuel);
    assert forall|i: int| 0 <= i < qs.len() implies (#[trigger] table_get(
        component_schemas(add_components_doc(out, k)),
        Doc::Str(qs[i].name),
    )) is Some by {
        let n = Doc::Str(qs[i].name);
        assert(owed_names(known, st).contains(n));
        assert(table_get(k, n) is Some);
        assert(k.len() > 0);
        law_recorded_schemas(out, k, n);
    }
}

/// The files that loading `q` asks for, with `files` giving the schema each
/// file holds (see [`Dereferencer::supply`]).
pub open spec fn requested_by(q: Load, files: spec_fn(PathBuf) -> Doc) -> Seq<Load> {
    deref_nested_doc(q.url, files(q.file_path)).1
}

/// The files asked for form no cycle: `rank` strictly decreases from each
/// file to every file that loading it asks for.
pub open spec fn ranked(files: spec_fn(PathBuf) -> Doc, rank: spec_fn(Load) -> nat) -> bool {
    forall|q: Load, i: int|
        0 <= i < requested_by(q, files).len() ==> rank(#[trigger] requested_by(q, files)[i])
            < rank(q)
}

/// The number of loads that carrying out the requests `qs` takes, counting
/// only requests of rank below `bound` (and, under them, what they ask for).
pub open spec fn loads_below(
    qs: Seq<Load>,
    files: spec_fn(PathBuf) -> Doc,
    rank: spec_fn(Load) -> nat,
    bound: nat,
) -> nat
    decreases bound, qs.len(),
{
    if qs.len() == 0 {
        0
    } else {
        let q = qs.last();
        loads_below(qs.drop_last(), files, rank, bound) + if rank(q) < bound {
            1 + loads_below(requested_by(q, files), files, rank, rank(q))
        } else {
            0
        }
    }
}

/// The number of loads that carrying out the request `q` takes: itself and
/// those of the files it asks for.
pub open spec fn load_weight(q: Load, files: spec_fn(PathBuf) -> Doc, rank: spec_fn(Load) -> nat) -> nat {
    1 + loads_below(requested_by(q, files), files, rank, rank(q))
}

/// The number of loads left in the pending work `st`.
pub open spec fn stack_weight(
    st: Seq<Step>,
    files: spec_fn(PathBuf) -> Doc,
    rank: spec_fn(Load) -> nat,
) -> nat
    decreases st.len(),
{
    if st.len() == 0 {
        0
    } else {
        stack_weight(st.drop_last(), files, rank) + match st.last() {
            Step::Load(q) => load_weight(q, files, rank),
            Step::Record(_, _) => 0,
        }
    }
}

/// The weights of two stacks put together add up.
proof fn lemma_stack_weight_concat(
    a: Seq<Step>,
    b: Seq<Step>,
    files: spec_fn(PathBuf) -> Doc,
    rank: spec_fn(Load) -> nat,
)
    ensures
        stack_weight(a + b, files, rank) == stack_weight(a, files, rank) + stack_weight(
            b,
            files,
            rank,
        ),
    decreases b.len(),
{
    if b.len() > 0 {
        lemma_stack_weight_concat(a, b.drop_last(), files, rank);
        assert((a + b).drop_last() =~= a + b.drop_last());
        assert((a + b).last() == b.last());
    }
}

/// The weight of stacked requests is the number of loads they take, where
/// every request is of rank below `bound`.
proof fn lemma_load_steps_weight(
    qs: Seq<Load>,
    files: spec_fn(PathBuf) -> Doc,
    rank: spec_fn(Load) -> nat,
    bound: nat,
)
    requires
        forall|i: int| 0 <= i < qs.len() ==> rank(#[trigger] qs[i]) < bound,
    ensures
        stack_weight(load_steps(qs), files, rank) == loads_below(qs, files, rank, bound),
    decreases qs.len(),
{
    if qs.len() > 0 {
        let front = qs.drop_last();
        let q = qs.last();
        assert forall|i: int| 0 <= i < front.len() implies rank(#[trigger] front[i]) < bound by {
            assert(front[i] == qs[i]);
        }
        lemma_load_steps_weight(front, files, rank, bound);
        let one = seq![Step::Load(q)];
        assert(load_steps(qs) =~= one + load_steps(front));
        lemma_stack_weight_concat(one, load_steps(front), files, rank);
        assert(one.drop_last() =~= Seq::<Step>::empty());
        assert(one.len() == 1 && one.last() == Step::Load(q));
        assert(stack_weight(one.drop_last(), files, rank) == 0);
        assert(stack_weight(one, files, rank) == load_weight(q, files, rank));
        assert(rank(qs[qs.len() - 1]) < bound);
        assert(loads_below(qs, files, rank, bound) == loads_below(front, files, rank, bound)
            + load_weight(q, files, rank));
    }
}

/// Recording schemas leaves the weight of the pending work as it is.
proof fn lemma_records_weight(
    known: Seq<(Doc, Doc)>,
    st: Seq<Step>,
    files: spec_fn(PathBuf) -> Doc,
    rank: spec_fn(Load) -> nat,
)
    ensures
        stack_weight(run_records(known, st).1, files, rank) == stack_weight(st, files, rank),
    decreases st.len(),
{
    if st.len() > 0 {
        match st.last() {
            Step::Record(n, d) => lemma_records_weight(
                table_set(known, Doc::Str(n), d),
                st.drop_last(),
                files,
                rank,
            ),
            Step::Load(_) => {},
        }
    }
}

/// With at least as much fuel as the pending work takes loads, carrying it
/// out comes to an end.
proof fn lemma_run_ends(
    known: Seq<(Doc, Doc)>,
    st: Seq<Step>,
    files: spec_fn(PathBuf) -> Doc,
    rank: spec_fn(Load) -> nat,
    fuel: nat,
)
    requires
        ranked(files, rank),
        stack_weight(st, files, rank) <= fuel,
    ensures
        complete_run(known, st, files, fuel) is Some,
    decreases fuel,
{
    let (k1, st1) = run_records(known, st);
    lemma_records_weight(known, st, files, rank);
    lemma_run_records_top(known, st);
    if st1.len() > 0 {
        let q = st1.last()->Load_0;
        let qs = requested_by(q, files);
        let rest = st1.drop_last().push(Step::Record(q.name, deref_nested_doc(q.url, files(q.file_path)).0));
        assert(st1.drop_last().push(st1.last()) =~= st1);
        assert(rest.drop_last() =~= st1.drop_last());
        assert forall|i: int| 0 <= i < qs.len() implies rank(#[trigger] qs[i]) < rank(q) by {
            assert(rank(requested_by(q, files)[i]) < rank(q));
        }
        lemma_load_steps_weight(qs, files, rank, rank(q));
        lemma_stack_weight_concat(rest, load_steps(qs), files, rank);
        lemma_run_ends(k1, rest + load_steps(qs), files, rank, (fuel - 1) as nat);
    }
}

/// Where the files asked for form no cycle, carrying out the pending work
/// comes to an end: with as much fuel as it takes loads, every file gets
/// loaded and every schema recorded.
pub proof fn law_acyclic_run_ends(
    known: Seq<(Doc, Doc)>,
    st: Seq<Step>,
    files: spec_fn(PathBuf) -> Doc,
    rank: spec_fn(Load) -> nat,
)
    requires
        ranked(files, rank),
    ensures
        complete_run(known, st, files, stack_weight(st, files, rank)) is Some,
{
    lemma_run_ends(known, st, files, rank, stack_weight(st, files, rank));
}

/// A copy of a load request.
fn copy_request(q: &LoadRequest) -> (r: LoadRequest)
    ensures
        r@ == q@,
{
    LoadRequest { name: q.name.clone(), url: copy_url(&q.url), file_path: copy_path(&q.file_path) }
}

/// Stacks the requests `reqs` so that the first of them is on top.
fn push_loads(pending: &mut Vec<Task>, reqs: Vec<LoadRequest>)
    ensures
        steps_of(final(pending)@) == steps_of(old(pending)@) + load_steps(loads_of(reqs@)),
{
    let ghost orig = reqs@;
    let ghost p0 = pending@;
    let ghost all = load_steps(loads_of(orig));
    let mut reqs = reqs;
    assert(steps_of(pending@) =~= steps_of(p0) + all.take(0));
    assert(reqs@ =~= orig.take(orig.len() as int));
    while reqs.len() > 0
        invariant
            reqs.len() <= orig.len(),
            reqs@ == orig.take(reqs.len() as int),
            all == load_steps(loads_of(orig)),
            steps_of(pending@) == steps_of(p0) + all.take(orig.len() - reqs.len()),
        decreases reqs.len(),
    {
        let ghost m = reqs.len() as int;
        let ghost before = pending@;
        match reqs.pop() {
            Some(q) => {
                assert(q == orig[m - 1]);
                pending.push(Task::Load(q));
                assert(all[orig.len() - m] == Step::Load(loads_of(orig)[m - 1]));
                assert(steps_of(pending@) =~= steps_of(before).push(Task::Load(q)@));
                assert(all.take(orig.len() - m + 1) =~= all.take(orig.len() - m).push(
                    all[orig.len() - m],
                ));
                assert(reqs@ =~= orig.take(reqs.len() as int));
            },
            None => {},
        }
    }
    assert(all.take(orig.len() as int) =~= all);
}

impl Dereferencer {
    /// A dereferencer with nothing recorded and nothing pending.
    pub fn new() -> (d: Self)
        ensures
            d.known_refs@.len() == 0,
            d.pending@.len() == 0,
            !d.resolving,
    {
        Dereferencer { known_refs: Vec::new(), pending: Vec::new(), resolving: false }
    }

    /// The base URL of a specification (see [`spec_base_url`]).
    pub fn base_url(spec: &Value) -> (r: Option<Url>)
        ensures
            r == spec_base_url(spec@),
    {
        match get_value(spec, "file_path") {
            Some(Value::String(p)) => url_from_file_path(p.as_str()),
            _ => None,
        }
    }

    /// Starts dereferencing a specification: where it has a base URL, its
    /// path items are rewritten (shared parameters appended to each
    /// operation, references into other files turned into references into
    /// `components/schemas`) and the files those references need are stacked,
    /// the first on top; where it has none, nothing changes.
    pub fn deref_spec(&mut self, spec: &mut Value)
        requires
            old(self).pending@.len() == 0,
            spec_base_url(old(spec)@) is Some ==> supported_spec(old(spec)@),
        ensures
            final(self).known_refs@ == old(self).known_refs@,
            match spec_base_url(old(spec)@) {
                None => final(spec)@ == old(spec)@ && final(self).pending@.len() == 0
                    && !final(self).resolving,
                Some(b) => final(spec)@ == deref_spec_doc(b, old(spec)@).0 && steps_of(
                    final(self).pending@,
                ) == load_steps(deref_spec_doc(b, old(spec)@).1) && final(self).resolving,
            },
    {
        let base = match Self::base_url(spec) {
            Some(b) => b,
            None => {
                self.resolving = false;
                return;
            },
        };
        let (new_spec, reqs) = Self::deref_spec_paths(&base, spec);
        *spec = new_spec;
        let ghost p0 = self.pending@;
        push_loads(&mut self.pending, reqs);
        assert(steps_of(p0) =~= Seq::<Step>::empty());
        assert(steps_of(p0) + load_steps(loads_of(reqs@)) =~= load_steps(loads_of(reqs@)));
        self.resolving = true;
    }

    /// [`Dereferencer::deref_spec`] where every schema it would meet is
    /// supported; `false`, with nothing changed, where the specification has a
    /// base URL and holds a schema that is not supported.
    pub fn try_deref_spec(&mut self, spec: &mut Value) -> (r: bool)
        requires
            old(self).pending@.len() == 0,
        ensures
            r == (spec_base_url(old(spec)@) is None || supported_spec(old(spec)@)),
            !r ==> final(spec)@ == old(spec)@ && final(self).known_refs@ == old(self).known_refs@
                && final(self).pending@ == old(self).pending@ && final(self).resolving == old(
                self,
            ).resolving,
            r ==> final(self).known_refs@ == old(self).known_refs@,
            r ==> match spec_base_url(old(spec)@) {
                None => final(spec)@ == old(spec)@ && final(self).pending@.len() == 0
                    && !final(self).resolving,
                Some(b) => final(spec)@ == deref_spec_doc(b, old(spec)@).0 && steps_of(
                    final(self).pending@,
                ) == load_steps(deref_spec_doc(b, old(spec)@).1) && final(self).resolving,
            },
    {
        let has_base = match Self::base_url(spec) {
            Some(_) => true,
            None => false,
        };
        if has_base && !is_supported_spec(spec) {
            return false;
        }
        self.deref_spec(spec);
        true
    }

    /// Records the resolved schemas on top of the pending work (see
    /// [`run_records`]) and names the next file to load, leaving it on top;
    /// `None` once nothing is pending.
    pub fn next_load(&mut self) -> (r: Option<LoadRequest>)
        ensures
            (named_entries(final(self).known_refs@), steps_of(final(self).pending@)) == run_records(
                named_entries(old(self).known_refs@),
                steps_of(old(self).pending@),
            ),
            final(self).resolving == old(self).resolving,
            distinct_keys(named_entries(old(self).known_refs@)) ==> distinct_keys(
                named_entries(final(self).known_refs@),
            ),
            match r {
                Some(q) => final(self).pending@.len() > 0 && steps_of(final(self).pending@).last()
                    == Step::Load(q@),
                None => final(self).pending@.len() == 0,
            },
    {
        let ghost target = run_records(
            named_entries(self.known_refs@),
            steps_of(self.pending@),
        );
        proof {
            law_records_keep_names(named_entries(self.known_refs@), steps_of(self.pending@));
        }
        loop
            invariant
                run_records(named_entries(self.known_refs@), steps_of(self.pending@)) == target,
                target == run_records(
                    named_entries(old(self).known_refs@),
                    steps_of(old(self).pending@),
                ),
                distinct_keys(named_entries(old(self).known_refs@)) ==> distinct_keys(target.0),
                self.resolving == old(self).resolving,
            decreases self.pending.len(),
        {
            let ghost st = steps_of(self.pending@);
            let ghost known = named_entries(self.known_refs@);
            match self.pending.pop() {
                None => {
                    assert(st.len() == 0);
                    return None;
                },
                Some(Task::Record(name, schema)) => {
                    assert(st.last() == Step::Record(name@, schema@));
                    assert(steps_of(self.pending@) =~= st.drop_last());
                    set_named(&mut self.known_refs, name, schema);
                },
                Some(Task::Load(q)) => {
                    assert(st.last() == Step::Load(q@));
                    let c = copy_request(&q);
                    self.pending.push(Task::Load(q));
                    assert(steps_of(self.pending@) =~= st);
                    return Some(c);
                },
            }
        }
    }

    /// Takes the schema read from the file on top of the pending work: it is
    /// resolved against that file's URL (see [`deref_nested_doc`]) and stacked
    /// to be recorded under the file's name once the files it needs, stacked
    /// above it with the first on top, are resolved.
    pub fn supply(&mut self, schema: &Value)
        requires
            old(self).pending@.len() > 0,
            steps_of(old(self).pending@).last() is Load,
            supported_nested(schema@),
        ensures
            steps_of(final(self).pending@) == steps_of(old(self).pending@).drop_last().push(
                Step::Record(
                    steps_of(old(self).pending@).last()->Load_0.name,
                    deref_nested_doc(
                        steps_of(old(self).pending@).last()->Load_0.url,
                        schema@,
                    ).0,
                ),
            ) + load_steps(
                deref_nested_doc(steps_of(old(self).pending@).last()->Load_0.url, schema@).1,
            ),
            final(self).known_refs@ == old(self).known_refs@,
            final(self).resolving == old(self).resolving,
    {
        let ghost st = steps_of(self.pending@);
        let q = match self.pending.pop() {
            Some(Task::Load(q)) => q,
            Some(Task::Record(name, schema)) => {
                proof {
                    assert(st.last() == Step::Record(name@, schema@));
                }
                return;
            },
            None => {
                return;
            },
        };
        assert(st.last() == Step::Load(q@));
        assert(steps_of(self.pending@) =~= st.drop_last());
        let (resolved, reqs) = Self::deref_nested_schemas(&q.url, schema);
        let ghost p1 = self.pending@;
        self.pending.push(Task::Record(q.name, resolved));
        assert(steps_of(self.pending@) =~= steps_of(p1).push(Step::Record(q@.name, resolved@)));
        push_loads(&mut self.pending, reqs);
    }

    /// Takes the text of the file on top of the pending work: the schema it
    /// holds (see [`parsed_schema`]) is supplied as by
    /// [`Dereferencer::supply`]. An error, with nothing changed, where the
    /// text does not parse as a schema or the schema is of a kind that is not
    /// supported (see [`supported_nested`]).
    pub fn supply_text(&mut self, text: &str) -> (r: Result<(), String>)
        requires
            old(self).pending@.len() > 0,
            steps_of(old(self).pending@).last() is Load,
        ensures
            match parsed_schema(text@) {
                Some(d) if supported_nested(d) => r is Ok && steps_of(final(self).pending@)
                    == steps_of(old(self).pending@).drop_last().push(
                    Step::Record(
                        steps_of(old(self).pending@).last()->Load_0.name,
                        deref_nested_doc(steps_of(old(self).pending@).last()->Load_0.url, d).0,
                    ),
                ) + load_steps(
                    deref_nested_doc(steps_of(old(self).pending@).last()->Load_0.url, d).1,
                ),
                _ => r is Err && final(self).pending@ == old(self).pending@,
            },
            final(self).known_refs@ == old(self).known_refs@,
            final(self).resolving == old(self).resolving,
    {
        let schema = match parse_schema_text(text) {
            Ok(v) => v,
            Err(e) => return Err(e),
        };
        if !is_supported_nested(&schema) {
            return Err(String::from_str("the schema is of a kind that is not supported"));
        }
        self.supply(&schema);
        Ok(())
    }

    /// Ends the dereferencing of a specification: where it had a base URL,
    /// every recorded schema is added to its `components/schemas` section
    /// (see [`add_components_doc`]).
    pub fn finish_spec(&mut self, spec: &mut Value)
        requires
            old(self).pending@.len() == 0,
        ensures
            final(spec)@ == if old(self).resolving {
                add_components_doc(old(spec)@, named_entries(old(self).known_refs@))
            } else {
                old(spec)@
            },
            final(self).known_refs@ == old(self).known_refs@,
            final(self).pending@.len() == 0,
            !final(self).resolving,
    {
        if self.resolving {
            let updated = add_components(spec, &self.known_refs);
            *spec = updated;
        }
        self.resolving = false;
    }
}

/// A specification with the schemas `known` recorded in its
/// `components/schemas` section (see [`add_components_doc`]).
fn add_components(spec: &Value, known: &Vec<(String, Value)>) -> (r: Value)
    ensures
        r@ == add_components_doc(spec@, named_entries(known@)),
{
    if known.len() == 0 {
        return copy_value(spec);
    }
    match spec {
        Value::Mapping(es) => {
            let ghost esv = entries_of(es@);
            let mut comps: Vec<(Value, Value)> = match get_value(spec, "components") {
                Some(Value::Mapping(c)) => copy_table(c),
                _ => Vec::new(),
            };
            let ghost cv = entries_of(comps@);
            assert(cv == match table_get(esv, Doc::Str("components"@)) {
                Some(Doc::Table(c)) => c,
                _ => Seq::<(Doc, Doc)>::empty(),
            });
            let mut schemas: Vec<(Value, Value)> = match find_key(&comps, "schemas") {
                Some(i) => {
                    assert(cv[i as int].1 == comps[i as int].1@);
                    match &comps[i].1 {
                        Value::Mapping(s) => copy_table(s),
                        _ => Vec::new(),
                    }
                },
                None => Vec::new(),
            };
            let ghost s0 = entries_of(schemas@);
            assert(s0 == match table_get(cv, Doc::Str("schemas"@)) {
                Some(Doc::Table(s)) => s,
                _ => Seq::<(Doc, Doc)>::empty(),
            });
            let ghost kv = named_entries(known@);
            let mut j: usize = 0;
            while j < known.len()
                invariant
                    j <= known.len(),
                    kv == named_entries(known@),
                    entries_of(schemas@) == insert_all(s0, kv.take(j as int)),
                decreases known.len() - j,
            {
                set_entry(&mut schemas, known[j].0.as_str(), copy_value(&known[j].1));
                proof {
                    let t = kv.take(j + 1);
                    assert(t.drop_last() =~= kv.take(j as int));
                    assert(t.last() == kv[j as int]);
                }
                j = j + 1;
            }
            assert(kv.take(known.len() as int) =~= kv);
            set_entry(&mut comps, "schemas", Value::Mapping(schemas));
            let mut out = copy_table(es);
            set_entry(&mut out, "components", Value::Mapping(comps));
            Value::Mapping(out)
        },
        _ => copy_value(spec),
    }
}

impl Default for Dereferencer {
    fn default() -> (d: Self)
        ensures
            d.known_refs@.len() == 0,
            d.pending@.len() == 0,
            !d.resolving,
    {
        Dereferencer::new()
    }
}

} // verus!
