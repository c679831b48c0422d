//! Deciding the obligations of a refinement job.

use vstd::prelude::*;
use crate::eval::error::Error as EvalError;
use crate::eval::error::error_text;
use crate::eval::evaluator::{cost, last_binding, meaning, Evaluator, State, NESTING};
use crate::eval::value::VV;
use crate::eval::graph::{lemma_holds_view, lemma_record_from, lemma_set_from, lookup, record_from, set_from};
use crate::eval::spec::{load_agrees, spec_is_standard, standalone, Spec};
use crate::eval::value::{copy, value_text, Value};
use crate::oracle::schema::{decode, decode_state, decoded, decoded_state, Json, Schema};
use crate::eval::value::{holds, view_fields, view_list, view_of};
use crate::syntax::lexical::source_tokens;
use crate::syntax::parser::{agrees_parse, g_module, lexed, literal_v, module_is, stands_for, whole_expression, DEFAULT_NESTING_LIMIT};
use crate::syntax::token::Token;
use crate::syntax::Error as SyntaxError;
use crate::syntax::{parse_expression, Expr};
use crate::text::{append, push_int, str_eq, text};
use crate::eval::ops::equal;

verus! {

/// A refinement job: a specification, the implementation's reachable state
/// graph, and the outcomes it must reach.
pub struct Job {
    /// The specification's source, not a path: the caller decides where it
    /// comes from and the oracle never touches the filesystem.
    pub spec: String,
    pub init_op: String,
    pub next_op: String,
    pub constants: Vec<(String, ConstantSpec)>,
    pub schema: Vec<(String, Schema)>,
    pub states: Vec<Json>,
    /// `(source, target, label)`, as the explorer reports it.
    pub edges: Vec<(usize, usize, String)>,
    /// Predicates over `Reached`, the set of states the implementation
    /// visited, by name.
    pub outcomes: Vec<(String, String)>,
}

/// A constant's value, and how to read it.
pub struct ConstantSpec {
    pub value: Json,
    pub schema: Schema,
}

/// The verdict of a job.
#[derive(Debug, Clone, Copy, PartialEq, Eq, Structural)]
pub enum Status {
    Pass,
    /// The root is not a legal initial state.
    Init,
    /// Some edge is not a step the specification permits.
    Refines,
    /// A required outcome is unreachable.
    Coverage,
    /// The implementation's states do not have the shape the specification
    /// and schema call for.
    Contract,
    /// The job itself could not be carried out: an unparsable specification,
    /// a constant with no value, a predicate that is not ground.
    Error,
}

/// The edge that failed.
#[derive(Debug, Clone, PartialEq, Eq)]
pub struct EdgeReport {
    pub index: usize,
    pub source: usize,
    pub target: usize,
    pub label: String,
}

/// How much of the job was looked at.
#[derive(Debug, Clone, Copy, PartialEq, Eq, Structural)]
pub struct Stats {
    pub states: usize,
    pub edges: usize,
    pub edges_checked: usize,
    pub outcomes_checked: usize,
}

/// What the oracle concluded, and why.
#[derive(Debug, Clone, PartialEq, Eq)]
pub struct Report {
    pub status: Status,
    pub detail: String,
    pub edge: Option<EdgeReport>,
    pub outcome: Option<String>,
    pub stats: Stats,
}

impl Report {
    /// Did every obligation hold?
    pub fn passed(&self) -> (r: bool)
        ensures
            r == (self.status == Status::Pass),
    {
        self.status == Status::Pass
    }

    fn of(status: Status, detail: String, stats: Stats) -> (r: Report)
        ensures
            r.status == status,
            r.detail == detail,
            r.stats == stats,
            r.edge is None,
            r.outcome is None,
    {
        Report { status, detail, edge: None, outcome: None, stats }
    }
}

/// A type error means the state does not fit the shape the specification
/// reads it with: the schema let it through, but the specification cannot
/// use it.
pub fn classify(e: &EvalError) -> (s: Status)
    ensures
        s == (if e is Type { Status::Contract } else { Status::Error }),
{
    match e {
        EvalError::Type(_) => Status::Contract,
        _ => Status::Error,
    }
}

/// `x = 1, y = 2`: each binding as its name and its value.
pub open spec fn bindings_text(b: Seq<(String, Value)>) -> Seq<char>
    decreases b.len(),
{
    if b.len() == 0 {
        Seq::empty()
    } else {
        let item = b.last().0@ + " = "@ + value_text(b.last().1@);
        if b.len() == 1 { item } else { bindings_text(b.drop_last()) + ", "@ + item }
    }
}

/// `[x = 1, y = 2]`.
pub fn render(state: &State) -> (s: String)
    ensures
        s@ == "["@ + bindings_text(state@) + "]"@,
{
    let mut s = text("[");
    let ghost start = s@;
    let mut i: usize = 0;
    proof { assert(state@.take(0) =~= Seq::<(String, Value)>::empty()); assert(start + Seq::<char>::empty() =~= start); }
    while i < state.len()
        invariant
            i <= state.len(),
            start == "["@,
            s@ == start + bindings_text(state@.take(i as int)),
        decreases state.len() - i,
    {
        if i > 0 {
            append(&mut s, ", ");
        }
        append(&mut s, state[i].0.as_str());
        append(&mut s, " = ");
        append(&mut s, state[i].1.to_string().as_str());
        proof {
            let t = state@.take(i + 1);
            assert(t.drop_last() =~= state@.take(i as int));
            assert(t.last() == state@[i as int]);
            assert(s@ =~= start + bindings_text(t));
        }
        i = i + 1;
    }
    append(&mut s, "]");
    proof { assert(state@.take(state.len() as int) =~= state@); }
    s
}

/// The truth value the named definition takes at `from`, or at the step
/// `from -> to`, where its meaning is defined and is a truth value.
pub open spec fn obligation_value(ev: Evaluator, name: Seq<char>, from: Seq<(String, Value)>,
    to: Option<Seq<(String, Value)>>) -> Option<bool>
{
    let root = ev.spec_of().root_at();
    match ev.spec_of().definition_of(root, name) {
        Some((_, d)) => if d.params.len() == 0 && cost(ev, d.body, root, 0) + 1 < NESTING {
            match meaning(ev, d.body, root, from, to, false, Seq::empty(), Seq::empty(), 0) {
                Some(Ok(VV::Bool(b))) => Some(b),
                _ => None,
            }
        } else {
            None
        },
        None => None,
    }
}

/// Whether edge `i` is a step of `[Next]_vars`: a step that changes nothing
/// always is; any other is when `Next` says so. `None` where that is not
/// decided: an index outside the states, or a meaning that is not known.
pub open spec fn edge_value(ev: Evaluator, job: Job, states: Seq<State>, i: int) -> Option<bool> {
    let (s, t) = (job.edges@[i].0 as int, job.edges@[i].1 as int);
    if !(0 <= s < states.len() && 0 <= t < states.len()) {
        None
    } else if view_fields(states[s]@) == view_fields(states[t]@) {
        Some(true)
    } else {
        obligation_value(ev, job.next_op@, states[s]@, Some(states[t]@))
    }
}

/// The truth value of an outcome with nothing but constants in scope, where
/// its meaning is defined and is a truth value.
pub open spec fn outcome_value(ev: Evaluator, e: Expr) -> Option<bool> {
    let root = ev.spec_of().root_at();
    if cost(ev, e, root, 0) < NESTING {
        match meaning(ev, e, root, Seq::empty(), None, false, Seq::empty(), Seq::empty(), 0) {
            Some(Ok(VV::Bool(b))) => Some(b),
            _ => None,
        }
    } else {
        None
    }
}

/// Every declared constant of the root module has a value.
pub open spec fn constants_complete(spec: Spec, constants: Seq<(String, Value)>) -> bool {
    forall|k: int| 0 <= k < spec.root_constants().len()
        ==> last_binding(constants, (#[trigger] spec.root_constants()[k])@) is Some
}

/// Source that is one literal and nothing more.
pub open spec fn single_literal(src: Seq<char>) -> bool {
    source_tokens(src) matches Some(ts) && ts.len() == 2 && literal_v(ts[0].0)
}

/// `"{name}: {message}"` for an evaluation error.
fn prefixed(name: &str, e: &EvalError) -> (m: String)
    ensures
        m@ == name@ + ": "@ + error_text(*e),
{
    let mut m = text(name);
    append(&mut m, ": ");
    append(&mut m, e.to_string().as_str());
    m
}

#[verifier::loop_isolation(false)]
fn decode_constants(given: &Vec<(String, ConstantSpec)>) -> (r: Result<Vec<(String, Value)>, String>)
    ensures
        r matches Ok(c) ==> c.len() == given.len(),
        r is Ok <==> forall|k: int| 0 <= k < given.len()
            ==> (#[trigger] decoded(given@[k].1.value, given@[k].1.schema)) is Some,
        r matches Ok(c) ==> forall|k: int| 0 <= k < given.len() ==> (#[trigger] c@[k]).0 == given@[k].0
            && decoded(given@[k].1.value, given@[k].1.schema) == Some(c@[k].1@),
{
    let mut out: Vec<(String, Value)> = Vec::new();
    let mut i: usize = 0;
    while i < given.len()
        invariant
            i <= given.len(),
            out.len() == i,
            forall|k: int| 0 <= k < i ==> (#[trigger] decoded(given@[k].1.value, given@[k].1.schema)) is Some,
            forall|k: int| 0 <= k < i ==> (#[trigger] out@[k]).0 == given@[k].0
                && decoded(given@[k].1.value, given@[k].1.schema) == Some(out@[k].1@),
        decreases given.len() - i,
    {
        match decode(&given[i].1.value, &given[i].1.schema, given[i].0.as_str()) {
            Ok(v) => out.push((given[i].0.clone(), v)),
            Err(e) => {
                proof { assert(decoded(given@[i as int].1.value, given@[i as int].1.schema) is None); }
                let mut m = text("constant ");
                append(&mut m, e.to_string().as_str());
                return Err(m);
            },
        }
        i = i + 1;
    }
    Ok(out)
}

#[verifier::loop_isolation(false)]
fn decode_states(job: &Job) -> (r: Result<Vec<State>, String>)
    ensures
        r matches Ok(s) ==> s.len() == job.states.len(),
        r is Ok <==> forall|k: int| 0 <= k < job.states.len()
            ==> (#[trigger] decoded_state(job.states@[k], job.schema@)) is Some,
        r matches Ok(s) ==> forall|k: int| 0 <= k < job.states.len()
            ==> decoded_state(job.states@[k], job.schema@) == Some(view_fields((#[trigger] s@[k])@)),
{
    let mut out: Vec<State> = Vec::new();
    let mut i: usize = 0;
    while i < job.states.len()
        invariant
            i <= job.states.len(),
            out.len() == i,
            forall|k: int| 0 <= k < i ==> (#[trigger] decoded_state(job.states@[k], job.schema@)) is Some,
            forall|k: int| 0 <= k < i
                ==> decoded_state(job.states@[k], job.schema@) == Some(view_fields((#[trigger] out@[k])@)),
        decreases job.states.len() - i,
    {
        let mut path = text("state[");
        if (i as u64) <= (i64::MAX as u64) {
            push_int(&mut path, i as i64);
        }
        append(&mut path, "]");
        match decode_state(&job.states[i], &job.schema, path.as_str()) {
            Ok(s) => out.push(s),
            Err(e) => {
                proof { assert(decoded_state(job.states@[i as int], job.schema@) is None); }
                return Err(e.to_string());
            },
        }
        i = i + 1;
    }
    Ok(out)
}

#[verifier::loop_isolation(false)]
fn parse_outcomes(job: &Job) -> (r: Result<Vec<(String, Expr)>, String>)
    ensures
        r matches Ok(o) ==> o.len() == job.outcomes.len(),
        r matches Ok(o) ==> forall|k: int| 0 <= k < o.len() ==> (#[trigger] o@[k]).0 == job.outcomes@[k].0,
        r matches Ok(o) ==> forall|k: int| 0 <= k < o.len()
            ==> (source_tokens(job.outcomes@[k].1@) matches Some(ts) ==> (ts.len() == 2 && literal_v(ts[0].0)
            ==> stands_for(ts[0].0, (#[trigger] o@[k]).1))),
        (exists|k: int| 0 <= k < job.outcomes.len() && (#[trigger] source_tokens(job.outcomes@[k].1@)) is None)
            ==> r is Err,
        (forall|k: int| 0 <= k < job.outcomes.len() ==> #[trigger] single_literal(job.outcomes@[k].1@)) ==> r is Ok,
        r matches Ok(o) ==> forall|k: int| 0 <= k < o.len() ==> outcome_read(job.outcomes@[k].1@, (#[trigger] o@[k]).1),
        (forall|k: int| 0 <= k < job.outcomes.len() ==> #[trigger] outcome_parses(job.outcomes@[k].1@)) ==> r is Ok,
{
    let mut out: Vec<(String, Expr)> = Vec::new();
    let mut i: usize = 0;
    while i < job.outcomes.len()
        invariant
            i <= job.outcomes.len(),
            out.len() == i,
            forall|k: int| 0 <= k < i ==> (#[trigger] out@[k]).0 == job.outcomes@[k].0,
            forall|k: int| 0 <= k < i
                ==> (source_tokens(job.outcomes@[k].1@) matches Some(ts) ==> (ts.len() == 2 && literal_v(ts[0].0)
                ==> stands_for(ts[0].0, (#[trigger] out@[k]).1))),
            forall|k: int| 0 <= k < i ==> (#[trigger] source_tokens(job.outcomes@[k].1@)) is Some,
            forall|k: int| 0 <= k < i ==> outcome_read(job.outcomes@[k].1@, (#[trigger] out@[k]).1),
        decreases job.outcomes.len() - i,
    {
        match parse_expression(job.outcomes[i].1.as_str()) {
            Ok(e) => {
                proof {
                    assert(outcome_read(job.outcomes@[i as int].1@, e));
                }
                out.push((job.outcomes[i].0.clone(), e));
            },
            Err(e) => {
                proof {
                    assert(!single_literal(job.outcomes@[i as int].1@));
                    if source_tokens(job.outcomes@[i as int].1@) is Some {
                        let toks = choose|toks: Seq<Token>| #[trigger] lexed(job.outcomes@[i as int].1@, toks)
                            && agrees_parse(Err::<Expr, SyntaxError>(e), whole_expression(toks, DEFAULT_NESTING_LIMIT as int));
                    }
                    assert(!outcome_parses(job.outcomes@[i as int].1@));
                }
                let mut m = text("outcome `");
                append(&mut m, job.outcomes[i].0.as_str());
                append(&mut m, "`: ");
                append(&mut m, e.to_string().as_str());
                return Err(m);
            },
        }
        i = i + 1;
    }
    Ok(out)
}

/// `e` is the tree the expression grammar reads from `src`, where it reads
/// one.
pub open spec fn outcome_read(src: Seq<char>, e: Expr) -> bool {
    exists|toks: Seq<Token>| #[trigger] lexed(src, toks)
        && agrees_parse(Ok::<Expr, SyntaxError>(e), whole_expression(toks, DEFAULT_NESTING_LIMIT as int))
}

/// The expression grammar reads all of `src` as one expression.
pub open spec fn outcome_parses(src: Seq<char>) -> bool {
    &&& source_tokens(src) is Some
    &&& forall|toks: Seq<Token>| #[trigger] lexed(src, toks)
        ==> (whole_expression(toks, DEFAULT_NESTING_LIMIT as int) matches Some(Ok(_)))
}

/// Do the two states give every variable the same value?
fn same_state(a: &State, b: &State) -> (r: bool)
    ensures
        r == (view_fields(a@) == view_fields(b@)),
{
    proof {
        crate::eval::value::lemma_view_fields_len(a@);
        crate::eval::value::lemma_view_fields_len(b@);
    }
    if a.len() != b.len() {
        return false;
    }
    let mut i: usize = 0;
    while i < a.len()
        invariant
            i <= a.len(),
            a.len() == b.len(),
            view_fields(a@).len() == a.len(),
            view_fields(b@).len() == b.len(),
            forall|k: int| 0 <= k < i ==> #[trigger] view_fields(a@)[k] == view_fields(b@)[k],
        decreases a.len() - i,
    {
        proof {
            crate::eval::value::lemma_view_fields_len(a@);
            crate::eval::value::lemma_view_fields_len(b@);
        }
        if !str_eq(a[i].0.as_str(), b[i].0.as_str()) || !equal(&a[i].1, &b[i].1) {
            assert(view_fields(a@)[i as int] != view_fields(b@)[i as int]);
            return false;
        }
        i = i + 1;
    }
    assert(view_fields(a@) =~= view_fields(b@));
    true
}

fn copy_state(s: &State) -> (r: State)
    ensures
        r.len() == s.len(),
        view_fields(r@) == view_fields(s@),
{
    let mut out: State = Vec::new();
    let mut i: usize = 0;
    proof { assert(s@.take(0) =~= Seq::<(String, Value)>::empty()); }
    while i < s.len()
        invariant
            i <= s.len(),
            out.len() == i,
            view_fields(out@) == view_fields(s@.take(i as int)),
        decreases s.len() - i,
    {
        let ghost before = out@;
        out.push((s[i].0.clone(), copy(&s[i].1)));
        proof {
            assert(out@.drop_last() =~= before);
            assert(s@.take(i + 1).drop_last() =~= s@.take(i as int));
        }
        i = i + 1;
    }
    proof { assert(s@.take(i as int) =~= s@); }
    out
}

/// The value `Reached` stands for: the set of the states, each as a record.
pub open spec fn reached_view(states: Seq<State>) -> VV {
    VV::FiniteSet(set_from(Seq::new(states.len(), |k: int| VV::Record(record_from(view_fields(states[k]@))))))
}

/// `Reached` holds every reported state, each as the record of its
/// variables, and nothing but those.
pub proof fn law_reached_holds_every_state(states: Seq<State>)
    ensures
        forall|i: int| 0 <= i < states.len()
            ==> reached_view(states)->FiniteSet_0.contains(VV::Record(record_from(view_fields((#[trigger] states[i])@)))),
        forall|y: VV| #[trigger] reached_view(states)->FiniteSet_0.contains(y)
            ==> exists|i: int| 0 <= i < states.len() && y == VV::Record(record_from(view_fields((#[trigger] states[i])@))),
{
    let rs = Seq::new(states.len(), |k: int| VV::Record(record_from(view_fields(states[k]@))));
    crate::eval::graph::lemma_set_from_holds(rs);
    assert forall|i: int| 0 <= i < states.len()
        implies reached_view(states)->FiniteSet_0.contains(VV::Record(record_from(view_fields((#[trigger] states[i])@)))) by {
        assert(rs[i] == VV::Record(record_from(view_fields(states[i]@))));
        assert(rs.contains(rs[i]));
    }
    assert forall|y: VV| #[trigger] reached_view(states)->FiniteSet_0.contains(y)
        implies exists|i: int| 0 <= i < states.len() && y == VV::Record(record_from(view_fields((#[trigger] states[i])@))) by {
        assert(rs.contains(y));
        let k = choose|k: int| 0 <= k < rs.len() && rs[k] == y;
        assert(y == VV::Record(record_from(view_fields(states[k]@))));
    }
}

/// The constants a coverage predicate is read with: those given, and then
/// `Reached`.
pub open spec fn reached_constants(w: Seq<(String, Value)>, constants: Seq<(String, Value)>, states: Seq<State>) -> bool {
    view_fields(w) == view_fields(constants).push(("Reached"@, reached_view(states)))
}

/// The last binding of a name is read off the bindings' views.
proof fn lemma_last_binding_view(b: Seq<(String, Value)>, n: Seq<char>)
    ensures
        last_binding(b, n) == lookup(view_fields(b), n),
    decreases b.len(),
{
    if b.len() > 0 {
        lemma_last_binding_view(b.drop_last(), n);
        let v = view_fields(b);
        assert(v == view_fields(b.drop_last()).push((b.last().0@, view_of(b.last().1))));
        assert(v.drop_last() =~= view_fields(b.drop_last()));
        assert(v.last() == (b.last().0@, view_of(b.last().1)));
    }
}

/// Every edge must be a step the specification permits; the first that is
/// not is reported.
#[verifier::loop_isolation(false)]
fn check_edges(job: &Job, evaluator: &Evaluator, states: &Vec<State>, stats: &mut Stats) -> (r: Option<Report>)
    requires
        old(stats).edges_checked == 0,
    ensures
        final(stats).states == old(stats).states,
        final(stats).edges == old(stats).edges,
        final(stats).outcomes_checked == old(stats).outcomes_checked,
        r is None ==> final(stats).edges_checked == job.edges.len(),
        r is None ==> forall|k: int| 0 <= k < job.edges.len()
            ==> #[trigger] edge_value(*evaluator, *job, states@, k) != Some(false),
        r matches Some(report) ==> exists|i: int| 0 <= i < job.edges.len()
            && (forall|k: int| 0 <= k < i ==> #[trigger] edge_value(*evaluator, *job, states@, k) != Some(false))
            && (report.status == Status::Refines ==> (edge_value(*evaluator, *job, states@, i) != Some(true)
                && (report.edge matches Some(edge) && edge.index == i)))
            && (report.status != Status::Refines ==> edge_value(*evaluator, *job, states@, i) is None),
        r matches Some(report) ==> report.status == Status::Refines || report.status == Status::Error
            || report.status == Status::Contract,
        r matches Some(report) ==> report.stats == *final(stats) && report.status != Status::Pass
            && report.status != Status::Coverage
            && (report.status == Status::Refines ==> (report.edge matches Some(edge)
                && edge.index < job.edges.len()
                && edge.source == job.edges@[edge.index as int].0
                && edge.target == job.edges@[edge.index as int].1
                && edge.label == job.edges@[edge.index as int].2)),
{
    let mut index: usize = 0;
    while index < job.edges.len()
        invariant
            index <= job.edges.len(),
            stats.states == old(stats).states,
            stats.edges == old(stats).edges,
            stats.outcomes_checked == old(stats).outcomes_checked,
            stats.edges_checked == index,
            forall|k: int| 0 <= k < index ==> #[trigger] edge_value(*evaluator, *job, states@, k) != Some(false),
        decreases job.edges.len() - index,
    {
        let (source, target) = (job.edges[index].0, job.edges[index].1);
        if source >= states.len() || target >= states.len() {
            let mut m = text("edge ");
            if (index as u64) <= (i64::MAX as u64) {
                push_int(&mut m, index as i64);
            }
            append(&mut m, " refers to a state index outside the graph");
            proof { assert(edge_value(*evaluator, *job, states@, index as int) is None); }
            return Some(Report::of(Status::Error, m, *stats));
        }
        stats.edges_checked = index + 1;
        // `[Next]_vars`: a step that changes nothing is a stuttering step,
        // which the specification always permits.
        if same_state(&states[source], &states[target]) {
            index = index + 1;
            continue;
        }
        match evaluator.step_allowed(job.next_op.as_str(), &states[source], &states[target]) {
            Ok(true) => {},
            Ok(false) => {
                let mut m = text("no action of the specification takes ");
                append(&mut m, render(&states[source]).as_str());
                append(&mut m, " to ");
                append(&mut m, render(&states[target]).as_str());
                let mut report = Report::of(Status::Refines, m, *stats);
                report.edge = Some(EdgeReport { index, source, target, label: job.edges[index].2.clone() });
                proof { assert(edge_value(*evaluator, *job, states@, index as int) != Some(true)); }
                return Some(report);
            },
            Err(e) => {
                proof { assert(edge_value(*evaluator, *job, states@, index as int) is None); }
                return Some(Report::of(classify(&e), prefixed(job.next_op.as_str(), &e), *stats));
            },
        }
        index = index + 1;
    }
    None
}

/// Every required outcome must hold of the states reached; the first that
/// does not is reported.
#[verifier::loop_isolation(false)]
fn check_outcomes(job: &Job, coverage: &Evaluator, outcomes: &Vec<(String, Expr)>, stats: &mut Stats) -> (r: Option<Report>)
    requires
        outcomes.len() == job.outcomes.len(),
        old(stats).outcomes_checked == 0,
    ensures
        final(stats).states == old(stats).states,
        final(stats).edges == old(stats).edges,
        final(stats).edges_checked == old(stats).edges_checked,
        r is None ==> final(stats).outcomes_checked == job.outcomes.len(),
        r is None ==> forall|k: int| 0 <= k < outcomes.len() ==> #[trigger] outcome_value(*coverage, outcomes@[k].1) != Some(false),
        (forall|k: int| 0 <= k < outcomes.len() ==> #[trigger] outcome_value(*coverage, outcomes@[k].1) == Some(true)) ==> r is None,
        forall|i: int| 0 <= i < outcomes.len()
            && (forall|k: int| 0 <= k < i ==> #[trigger] outcome_value(*coverage, outcomes@[k].1) == Some(true))
            && outcome_value(*coverage, outcomes@[i].1) == Some(false)
            ==> (r matches Some(report) && report.status == Status::Coverage && report.outcome == Some(job.outcomes@[i].0)),
        r matches Some(report) ==> report.stats == *final(stats) && report.status != Status::Pass
            && (report.status == Status::Error || report.status == Status::Coverage)
            && (report.status == Status::Coverage ==> (report.outcome matches Some(name)
                && exists|k: int| 0 <= k < job.outcomes.len() && (#[trigger] job.outcomes@[k]).0 == name)),
{
    let nowhere: State = Vec::new();
    proof { assert(nowhere@ =~= Seq::<(String, Value)>::empty()); }
    let mut n: usize = 0;
    while n < outcomes.len()
        invariant
            n <= outcomes.len(),
            stats.states == old(stats).states,
            stats.edges == old(stats).edges,
            stats.edges_checked == old(stats).edges_checked,
            stats.outcomes_checked == n,
            forall|k: int| 0 <= k < n ==> #[trigger] outcome_value(*coverage, outcomes@[k].1) != Some(false),
            forall|i: int| 0 <= i < outcomes.len()
                && (forall|k: int| 0 <= k < i ==> #[trigger] outcome_value(*coverage, outcomes@[k].1) == Some(true))
                && outcome_value(*coverage, outcomes@[i].1) == Some(false) ==> n <= i,
        decreases outcomes.len() - n,
    {
        stats.outcomes_checked = n + 1;
        let name = outcomes[n].0.as_str();
        match coverage.eval_at(&outcomes[n].1, &nowhere, None) {
            Ok(Value::Bool(true)) => {},
            Ok(Value::Bool(false)) => {
                let mut m = text("every transition is legal, but no reachable state satisfies the required outcome `");
                append(&mut m, name);
                append(&mut m, "`: ");
                append(&mut m, job.outcomes[n].1.as_str());
                let mut report = Report::of(Status::Coverage, m, *stats);
                report.outcome = Some(job.outcomes[n].0.clone());
                proof { assert(outcome_value(*coverage, outcomes@[n as int].1) != Some(true)); }
                return Some(report);
            },
            Ok(other) => {
                let mut m = text("outcome `");
                append(&mut m, name);
                append(&mut m, "` is ");
                append(&mut m, other.to_string().as_str());
                append(&mut m, ", not a boolean");
                proof { assert(outcome_value(*coverage, outcomes@[n as int].1) is None); }
                return Some(Report::of(Status::Error, m, *stats));
            },
            Err(e) => {
                let mut m = text("outcome `");
                append(&mut m, name);
                append(&mut m, "`: ");
                append(&mut m, e.to_string().as_str());
                proof { assert(outcome_value(*coverage, outcomes@[n as int].1) is None); }
                return Some(Report::of(Status::Error, m, *stats));
            },
        }
        n = n + 1;
    }
    None
}

/// The verdict on a job whose specification is `spec` and whose constants,
/// states and outcomes are read: an `Error` where a constant lacks a value;
/// `Init` exactly where the first state fails `init`; `Refines` at the first
/// edge that is not a step; `Coverage` at the first outcome that fails;
/// `Pass` where every obligation holds.
pub open spec fn verdict(job: Job, spec: Spec, constants: Vec<(String, Value)>, states: Seq<State>,
    outcomes: Seq<(String, Expr)>, r: Report) -> bool {
    &&& !constants_complete(spec, constants@) ==> r.status == Status::Error
    &&& ({
            let ev = Evaluator::evaluator_for(&spec, constants);
            let init = obligation_value(ev, job.init_op@, states[0]@, None);
            &&& constants_complete(spec, constants@) && init == Some(false) ==> r.status == Status::Init
            &&& r.status == Status::Init ==> init != Some(true)
            &&& forall|i: int| 0 <= i < job.edges.len() && constants_complete(spec, constants@) && init == Some(true)
                && (forall|k: int| 0 <= k < i ==> #[trigger] edge_value(ev, job, states, k) == Some(true))
                && edge_value(ev, job, states, i) == Some(false)
                ==> (r.status == Status::Refines && (r.edge matches Some(edge) && edge.index == i))
            &&& r.status == Status::Refines ==> constants_complete(spec, constants@) && init != Some(false)
                && (r.edge matches Some(edge) && edge_value(ev, job, states, edge.index as int) != Some(true)
                    && forall|k: int| 0 <= k < edge.index ==> #[trigger] edge_value(ev, job, states, k) != Some(false))
            &&& constants_complete(spec, constants@) && init == Some(true) && outcomes.len() == 0
                && (forall|k: int| 0 <= k < job.edges.len() ==> #[trigger] edge_value(ev, job, states, k) == Some(true))
                ==> r.status == Status::Pass
            &&& r.status == Status::Pass ==> constants_complete(spec, constants@) && init != Some(false)
                && forall|k: int| 0 <= k < job.edges.len() ==> #[trigger] edge_value(ev, job, states, k) != Some(false)
            &&& r.status == Status::Pass && outcomes.len() > 0 ==> exists|w: Vec<(String, Value)>| reached_constants(w@, constants@, states)
                && forall|k: int| 0 <= k < outcomes.len()
                    ==> #[trigger] outcome_value(Evaluator::evaluator_for(&spec, w), outcomes[k].1) != Some(false)
            &&& constants_complete(spec, constants@) && init == Some(true)
                && (forall|k: int| 0 <= k < job.edges.len() ==> #[trigger] edge_value(ev, job, states, k) == Some(true))
                && (forall|w: Vec<(String, Value)>| reached_constants(w@, constants@, states) ==> forall|k: int| 0 <= k < outcomes.len()
                    ==> #[trigger] outcome_value(Evaluator::evaluator_for(&spec, w), outcomes[k].1) == Some(true))
                ==> r.status == Status::Pass
            &&& forall|i: int| 0 <= i < outcomes.len() && constants_complete(spec, constants@) && init == Some(true)
                && (forall|k: int| 0 <= k < job.edges.len() ==> #[trigger] edge_value(ev, job, states, k) == Some(true))
                && (forall|w: Vec<(String, Value)>| reached_constants(w@, constants@, states) ==>
                    (forall|k: int| 0 <= k < i ==> #[trigger] outcome_value(Evaluator::evaluator_for(&spec, w), outcomes[k].1) == Some(true))
                    && outcome_value(Evaluator::evaluator_for(&spec, w), outcomes[i].1) == Some(false))
                ==> (r.status == Status::Coverage && r.outcome == Some(job.outcomes[i].0))
    })
}

/// The module grammar reads the specification's source as one module that
/// extends only standard modules.
pub open spec fn spec_reads(src: Seq<char>) -> bool {
    &&& source_tokens(src) is Some
    &&& forall|toks: Seq<Token>| #[trigger] lexed(src, toks) ==> (g_module(toks, 0, Seq::empty(), 0, DEFAULT_NESTING_LIMIT as int)
        matches Some(Ok((d, _))) && forall|k: int| 0 <= k < d.1.len() ==> spec_is_standard(#[trigger] d.1[k]@))
}

/// Everything the job hands over can be read: its specification, every
/// constant and every state, at least one state, and every outcome.
pub open spec fn job_readable(job: Job) -> bool {
    &&& spec_reads(job.spec@)
    &&& forall|k: int| 0 <= k < job.constants.len() ==> (#[trigger] decoded(job.constants@[k].1.value, job.constants@[k].1.schema)) is Some
    &&& forall|k: int| 0 <= k < job.states.len() ==> (#[trigger] decoded_state(job.states@[k], job.schema@)) is Some
    &&& job.states.len() > 0
    &&& forall|k: int| 0 <= k < job.outcomes.len() ==> #[trigger] outcome_parses(job.outcomes@[k].1@)
}

/// `spec`, `constants`, `states` and `outcomes` are what reading the job
/// gives: the specification whose root is the module its source holds, and
/// the decoded constants, states and outcome expressions.
pub open spec fn read_job(job: Job, spec: Spec, constants: Vec<(String, Value)>, states: Seq<State>,
    outcomes: Seq<(String, Expr)>) -> bool {
    &&& exists|toks: Seq<Token>| #[trigger] lexed(job.spec@, toks)
        && (g_module(toks, 0, Seq::empty(), 0, DEFAULT_NESTING_LIMIT as int) matches Some(Ok((d, _)))
        && module_is(spec.module_at(spec.root_at()), d) && (!spec_is_standard(d.0@) ==> standalone(spec)))
    &&& constants.len() == job.constants.len()
    &&& forall|k: int| 0 <= k < job.constants.len() ==> (#[trigger] constants@[k]).0 == job.constants@[k].0
        && decoded(job.constants@[k].1.value, job.constants@[k].1.schema) == Some(constants@[k].1@)
    &&& states.len() == job.states.len()
    &&& forall|k: int| 0 <= k < job.states.len() ==> decoded_state(job.states@[k], job.schema@) == Some(view_fields((#[trigger] states[k])@))
    &&& outcomes.len() == job.outcomes.len()
    &&& forall|k: int| 0 <= k < outcomes.len() ==> (#[trigger] outcomes[k]).0 == job.outcomes@[k].0
        && outcome_read(job.outcomes@[k].1@, outcomes[k].1)
}

/// A stuttering step, whose source and target are the same state, is a step
/// of `[Next]_vars`: the edge a `Refines` verdict reports never is one.
pub proof fn law_stuttering_is_never_refused(job: Job, spec: Spec, constants: Vec<(String, Value)>,
    states: Seq<State>, outcomes: Seq<(String, Expr)>, r: Report)
    requires
        verdict(job, spec, constants, states, outcomes, r),
        r.status == Status::Refines,
    ensures
        r.edge matches Some(edge) && {
            let (s, t) = (job.edges@[edge.index as int].0 as int, job.edges@[edge.index as int].1 as int);
            0 <= s < states.len() && 0 <= t < states.len() ==> view_fields(states[s]@) != view_fields(states[t]@)
        },
{
}

/// Decide the job: `init`, then every edge, then every required outcome.
#[verifier::loop_isolation(false)]
pub fn check(job: &Job) -> (r: Report)
    ensures
        r.stats.states == job.states.len(),
        r.stats.edges == job.edges.len(),
        r.status == Status::Pass ==> r.stats.edges_checked == job.edges.len()
            && r.stats.outcomes_checked == job.outcomes.len(),
        r.status == Status::Refines ==> (r.edge matches Some(edge) && edge.index < job.edges.len()
            && edge.source == job.edges@[edge.index as int].0 && edge.target == job.edges@[edge.index as int].1
            && edge.label == job.edges@[edge.index as int].2),
        r.status == Status::Coverage ==> (r.outcome matches Some(name)
            && exists|k: int| 0 <= k < job.outcomes.len() && (#[trigger] job.outcomes@[k]).0 == name),
        r.status == Status::Contract && job.states.len() == 0 ==> r.edge is None,
        !(forall|k: int| 0 <= k < job.constants.len()
            ==> (#[trigger] decoded(job.constants@[k].1.value, job.constants@[k].1.schema)) is Some) ==> r.status == Status::Error,
        job_readable(*job) ==> exists|spec: Spec, constants: Vec<(String, Value)>, states: Vec<State>, outcomes: Vec<(String, Expr)>|
            read_job(*job, spec, constants, states@, outcomes@) && #[trigger] verdict(*job, spec, constants, states@, outcomes@, r),
{
    let stats = Stats { states: job.states.len(), edges: job.edges.len(), edges_checked: 0, outcomes_checked: 0 };

    let read = Spec::parse(job.spec.as_str());
    let ghost toks = choose|toks: Seq<Token>| #[trigger] lexed(job.spec@, toks)
        && load_agrees(read, g_module(toks, 0, Seq::empty(), 0, DEFAULT_NESTING_LIMIT as int));
    let spec = match read {
        Ok(s) => s,
        Err(e) => return Report::of(Status::Error, prefixed("specification", &e), stats),
    };
    proof {
        if job_readable(*job) {
            assert(lexed(job.spec@, toks));
        }
    }
    let constants = match decode_constants(&job.constants) {
        Ok(c) => c,
        Err(detail) => return Report::of(Status::Error, detail, stats),
    };
    let states = match decode_states(job) {
        Ok(s) => s,
        Err(detail) => return Report::of(Status::Contract, detail, stats),
    };
    if states.len() == 0 {
        return Report::of(Status::Contract, text("the implementation reported no states at all"), stats);
    }
    let outcomes = match parse_outcomes(job) {
        Ok(o) => o,
        Err(detail) => return Report::of(Status::Error, detail, stats),
    };
    let ghost (spec_v, constants_v, states_v, outcomes_v) = (spec, constants, states, outcomes);
    let r = decide(job, &spec, constants, &states, &outcomes);
    proof {
        if job_readable(*job) {
            assert(read_job(*job, spec_v, constants_v, states_v@, outcomes_v@));
            assert(verdict(*job, spec_v, constants_v, states_v@, outcomes_v@, r));
        }
    }
    r
}

/// Decide a job whose specification is read and whose constants, states and
/// outcomes are decoded: the constants must all have values, the first state
/// must satisfy `init`, every edge must be a step of `[Next]_vars`, and every
/// outcome must hold of the states reached. Where the meanings involved are
/// truth values, the verdict is exactly the first obligation that fails.
#[verifier::loop_isolation(false)]
pub fn decide(job: &Job, spec: &Spec, constants: Vec<(String, Value)>, states: &Vec<State>,
    outcomes: &Vec<(String, Expr)>) -> (r: Report)
    requires
        states.len() > 0,
        outcomes.len() == job.outcomes.len(),
    ensures
        r.stats.states == job.states.len(),
        r.stats.edges == job.edges.len(),
        r.status == Status::Pass ==> r.stats.edges_checked == job.edges.len()
            && r.stats.outcomes_checked == job.outcomes.len(),
        r.status == Status::Refines ==> (r.edge matches Some(edge) && edge.index < job.edges.len()
            && edge.source == job.edges@[edge.index as int].0 && edge.target == job.edges@[edge.index as int].1
            && edge.label == job.edges@[edge.index as int].2),
        r.status == Status::Coverage ==> (r.outcome matches Some(name)
            && exists|k: int| 0 <= k < job.outcomes.len() && (#[trigger] job.outcomes@[k]).0 == name),
        verdict(*job, *spec, constants, states@, outcomes@, r),
{
    let ghost ev = Evaluator::evaluator_for(spec, constants);
    let ghost given_values = constants@;
    let mut stats = Stats { states: job.states.len(), edges: job.edges.len(), edges_checked: 0, outcomes_checked: 0 };
    let mut with_reached: Vec<(String, Value)> = Vec::new();
    let mut i: usize = 0;
    proof { assert(constants@.take(0) =~= Seq::<(String, Value)>::empty()); }
    while i < constants.len()
        invariant
            i <= constants.len(),
            view_fields(with_reached@) == view_fields(constants@.take(i as int)),
        decreases constants.len() - i,
    {
        let ghost before = with_reached@;
        with_reached.push((constants[i].0.clone(), copy(&constants[i].1)));
        proof {
            assert(with_reached@.drop_last() =~= before);
            assert(constants@.take(i + 1).drop_last() =~= constants@.take(i as int));
        }
        i = i + 1;
    }
    proof { assert(constants@.take(i as int) =~= constants@); }
    let evaluator = match Evaluator::new(spec, constants) {
        Ok(e) => e,
        Err(e) => return Report::of(Status::Error, e.to_string(), stats),
    };
    proof { assert(evaluator == ev); }

    match evaluator.holds_at(job.init_op.as_str(), &states[0]) {
        Ok(true) => {},
        Ok(false) => {
            let mut m = text("the first state the implementation reports is not a legal initial state of the specification: ");
            append(&mut m, render(&states[0]).as_str());
            return Report::of(Status::Init, m, stats);
        },
        Err(e) => return Report::of(classify(&e), prefixed(job.init_op.as_str(), &e), stats),
    }

    let found = check_edges(job, &evaluator, states, &mut stats);
    if let Some(failure) = found {
        proof {
            let j = choose|j: int| 0 <= j < job.edges.len()
                && (forall|k: int| 0 <= k < j ==> #[trigger] edge_value(ev, *job, states@, k) != Some(false))
                && (failure.status == Status::Refines ==> (edge_value(ev, *job, states@, j) != Some(true)
                    && (failure.edge matches Some(edge) && edge.index == j)))
                && (failure.status != Status::Refines ==> edge_value(ev, *job, states@, j) is None);
            assert forall|i2: int| 0 <= i2 < job.edges.len()
                && (forall|k: int| 0 <= k < i2 ==> #[trigger] edge_value(ev, *job, states@, k) == Some(true))
                && edge_value(ev, *job, states@, i2) == Some(false)
                implies (failure.status == Status::Refines && (failure.edge matches Some(edge) && edge.index == i2)) by {
                if j < i2 {
                    assert(edge_value(ev, *job, states@, j) == Some(true));
                } else if j > i2 {
                    assert(edge_value(ev, *job, states@, i2) != Some(false));
                }
            }
            if failure.status == Status::Refines {
                let edge = failure.edge->Some_0;
                assert(edge.index == j);
                assert(edge_value(ev, *job, states@, edge.index as int) != Some(true));
            }
        }
        return failure;
    }

    if outcomes.len() == 0 {
        return Report::of(Status::Pass, text("all obligations discharged"), stats);
    }

    // `Reached` is what a coverage predicate quantifies over, and it behaves
    // exactly like a constant: fixed for the whole check, mentioning no
    // variable.
    let ghost rs = Seq::new(states@.len(), |j: int| VV::Record(record_from(view_fields(states@[j]@))));
    let mut records: Vec<Value> = Vec::new();
    let mut k: usize = 0;
    while k < states.len()
        invariant
            k <= states.len(),
            rs == Seq::new(states@.len(), |j: int| VV::Record(record_from(view_fields(states@[j]@)))),
            view_list(records@) == rs.take(k as int),
        decreases states.len() - k,
    {
        let rec = Value::record(copy_state(&states[k]));
        proof {
            lemma_record_from(view_fields(rec->Record_0@), view_fields(states@[k as int]@));
            assert(rec@ == rs[k as int]);
        }
        let ghost before = records@;
        records.push(rec);
        proof {
            crate::eval::value::lemma_view_list_push(before, rec);
            assert(rs.take(k + 1) =~= rs.take(k as int).push(rs[k as int]));
        }
        k = k + 1;
    }
    proof { assert(rs.take(k as int) =~= rs); }
    let ghost listed = records@;
    let reached = Value::set(records);
    proof {
        assert forall|y: VV| #[trigger] holds(reached->FiniteSet_0@, y) <==> rs.contains(y) by {
            lemma_holds_view(listed, y);
        }
        lemma_set_from(reached->FiniteSet_0@, rs);
        assert(reached@ == reached_view(states@));
    }
    let ghost before = with_reached@;
    let name = text("Reached");
    with_reached.push((name, reached));
    proof {
        assert(with_reached@.drop_last() =~= before);
        assert(reached_constants(with_reached@, constants@, states@));
        assert forall|c: int| 0 <= c < spec.root_constants().len()
            implies last_binding(with_reached@, (#[trigger] spec.root_constants()[c])@) is Some by {
            let n = spec.root_constants()[c]@;
            lemma_last_binding_view(with_reached@, n);
            lemma_last_binding_view(given_values, n);
            let vw = view_fields(with_reached@);
            assert(vw.drop_last() =~= view_fields(given_values));
            assert(last_binding(given_values, n) is Some);
        }
    }
    let ghost w = with_reached;
    let coverage = match Evaluator::new(spec, with_reached) {
        Ok(e) => e,
        Err(e) => return Report::of(Status::Error, e.to_string(), stats),
    };
    proof { assert(coverage == Evaluator::evaluator_for(spec, w)); }
    if let Some(failure) = check_outcomes(job, &coverage, outcomes, &mut stats) {
        return failure;
    }
    Report::of(Status::Pass, text("all obligations discharged"), stats)
}

} // verus!
