//! Reading JSON by a schema, and the verdicts of a refinement job.

use tlatools::eval::Value;
use tlatools::oracle::{check, decode, decode_state, ConstantSpec, Job, Json, Schema, Status};

fn num(n: i64) -> Json {
    Json::Number(Some(n))
}

fn array(items: Vec<Json>) -> Json {
    Json::Array(items)
}

fn object(members: Vec<(&str, Json)>) -> Json {
    Json::Object(members.into_iter().map(|(k, v)| (k.to_string(), v)).collect())
}

fn ints() -> Schema {
    Schema::SeqOf { of: Box::new(Schema::Int) }
}

#[test]
fn scalars_decode_by_their_schema() {
    assert_eq!(decode(&num(3), &Schema::Int, "v").unwrap(), Value::Int(3));
    assert_eq!(decode(&Json::Bool(true), &Schema::Bool, "v").unwrap(), Value::Bool(true));
    assert_eq!(
        decode(&Json::Text("a".to_string()), &Schema::Str, "v").unwrap(),
        Value::string("a")
    );
    let e = decode(&Json::Bool(true), &Schema::Int, "v").unwrap_err();
    assert_eq!(e.to_string(), "v: expected an integer, got a boolean");
    let e = decode(&Json::Number(None), &Schema::Int, "v").unwrap_err();
    assert_eq!(e.message, "expected an integer, got a number");
}

#[test]
fn a_set_has_no_repeats() {
    let set = Schema::SetOf { of: Box::new(Schema::Int) };
    assert_eq!(
        decode(&array(vec![num(2), num(1)]), &set, "s").unwrap(),
        Value::set(vec![Value::Int(1), Value::Int(2)])
    );
    let e = decode(&array(vec![num(1), num(1)]), &set, "s").unwrap_err();
    assert_eq!(e.message, "element 1 is a duplicate; a set has no repeats");
}

#[test]
fn a_sequence_keeps_its_order_and_reports_the_element_at_fault() {
    assert_eq!(
        decode(&array(vec![num(2), num(1)]), &ints(), "q").unwrap(),
        Value::Sequence(vec![Value::Int(2), Value::Int(1)])
    );
    let e = decode(&array(vec![num(2), Json::Null]), &ints(), "q").unwrap_err();
    assert_eq!(e.path, "q[1]");
    assert_eq!(e.message, "expected an integer, got null");
}

#[test]
fn records_must_have_exactly_their_fields() {
    let rec = Schema::Rec {
        fields: vec![("a".to_string(), Schema::Int), ("b".to_string(), Schema::Bool)],
    };
    let v = decode(&object(vec![("a", num(1)), ("b", Json::Bool(false))]), &rec, "r").unwrap();
    assert_eq!(v.apply(&Value::string("a")), Some(Value::Int(1)));
    let e = decode(&object(vec![("a", num(1)), ("c", num(2))]), &rec, "r").unwrap_err();
    assert_eq!(e.message, "field mismatch (missing=[\"b\"], unexpected=[\"c\"])");
}

#[test]
fn a_union_tries_each_alternative() {
    let either = Schema::Union { of: vec![Schema::Int, Schema::Str] };
    assert_eq!(decode(&num(4), &either, "u").unwrap(), Value::Int(4));
    assert_eq!(
        decode(&Json::Text("s".to_string()), &either, "u").unwrap(),
        Value::string("s")
    );
    let e = decode(&Json::Bool(true), &either, "u").unwrap_err();
    assert_eq!(
        e.message,
        "matches no alternative (expected an integer, got a boolean; expected a string, got a boolean)"
    );
}

#[test]
fn a_state_names_exactly_the_variables() {
    let schema = vec![("x".to_string(), Schema::Int)];
    let s = decode_state(&object(vec![("x", num(1))]), &schema, "state").unwrap();
    assert_eq!(s, vec![("x".to_string(), Value::Int(1))]);
    let e = decode_state(&object(vec![("y", num(1))]), &schema, "state").unwrap_err();
    assert!(e.message.starts_with("state keys must be exactly"), "{}", e.message);
}

const COUNTER: &str = "---- MODULE Counter ----
EXTENDS Naturals
CONSTANT Limit
VARIABLE n
Init == n = 0
Next == n < Limit /\\ n' = n + 1
====";

fn job(states: Vec<i64>, edges: Vec<(usize, usize)>, outcomes: Vec<(&str, &str)>) -> Job {
    Job {
        spec: COUNTER.to_string(),
        init_op: "Init".to_string(),
        next_op: "Next".to_string(),
        constants: vec![(
            "Limit".to_string(),
            ConstantSpec { value: num(2), schema: Schema::Int },
        )],
        schema: vec![("n".to_string(), Schema::Int)],
        states: states.into_iter().map(|n| object(vec![("n", num(n))])).collect(),
        edges: edges.into_iter().map(|(a, b)| (a, b, "inc".to_string())).collect(),
        outcomes: outcomes
            .into_iter()
            .map(|(k, v)| (k.to_string(), v.to_string()))
            .collect(),
    }
}

#[test]
fn a_legal_graph_passes() {
    let report = check(&job(vec![0, 1, 2], vec![(0, 1), (1, 2)], vec![("Full", "\\E s \\in Reached : s.n = 2")]));
    assert_eq!(report.status, Status::Pass, "{}", report.detail);
    assert!(report.passed());
    assert_eq!(report.stats.edges_checked, 2);
    assert_eq!(report.stats.outcomes_checked, 1);
}

#[test]
fn an_illegal_root_fails_init() {
    let report = check(&job(vec![1], vec![], vec![]));
    assert_eq!(report.status, Status::Init, "{}", report.detail);
    assert!(report.detail.ends_with("[n = 1]"), "{}", report.detail);
}

#[test]
fn an_illegal_edge_is_named() {
    let report = check(&job(vec![0, 1, 2, 3], vec![(0, 1), (1, 2), (2, 3)], vec![]));
    assert_eq!(report.status, Status::Refines, "{}", report.detail);
    let edge = report.edge.expect("the edge is reported");
    assert_eq!((edge.index, edge.source, edge.target), (2, 2, 3));
    assert_eq!(report.stats.edges_checked, 3);
}

#[test]
fn an_unreached_outcome_fails_coverage() {
    let report = check(&job(vec![0, 1], vec![(0, 1)], vec![("Full", "\\E s \\in Reached : s.n = 2")]));
    assert_eq!(report.status, Status::Coverage, "{}", report.detail);
    assert_eq!(report.outcome.as_deref(), Some("Full"));
}

#[test]
fn a_malformed_state_is_a_contract_violation() {
    let mut j = job(vec![0], vec![], vec![]);
    j.states = vec![object(vec![("n", Json::Bool(true))])];
    let report = check(&j);
    assert_eq!(report.status, Status::Contract, "{}", report.detail);
    let empty = check(&job(vec![], vec![], vec![]));
    assert_eq!(empty.status, Status::Contract);
}

#[test]
fn a_broken_job_is_an_error() {
    let mut j = job(vec![0], vec![], vec![]);
    j.spec = "not a module".to_string();
    assert_eq!(check(&j).status, Status::Error);
    let outside = check(&job(vec![0, 1], vec![(0, 5)], vec![]));
    assert_eq!(outside.status, Status::Error);
    assert_eq!(outside.detail, "edge 0 refers to a state index outside the graph");
}

#[test]
fn a_map_reads_every_member_and_keeps_the_last_of_a_repeated_key() {
    let map = Schema::MapOf { of: Box::new(Schema::Int) };
    let v = decode(&object(vec![("b", num(2)), ("a", num(1)), ("b", num(3))]), &map, "m").unwrap();
    assert_eq!(v, Value::record(vec![("a".to_string(), Value::Int(1)), ("b".to_string(), Value::Int(3))]));
    let e = decode(&object(vec![("a", Json::Null)]), &map, "m").unwrap_err();
    assert_eq!(e.path, "m.a");
}

#[test]
fn nested_sets_are_sorted_at_every_level() {
    let sets = Schema::SetOf { of: Box::new(Schema::SetOf { of: Box::new(Schema::Int) }) };
    let v = decode(&array(vec![array(vec![num(3), num(1)]), array(vec![num(0)])]), &sets, "s").unwrap();
    assert_eq!(
        v,
        Value::FiniteSet(vec![
            Value::FiniteSet(vec![Value::Int(0)]),
            Value::FiniteSet(vec![Value::Int(1), Value::Int(3)]),
        ])
    );
}

#[test]
fn a_stuttering_edge_is_a_step_of_the_specification() {
    let report = check(&job(vec![0, 1], vec![(0, 1), (1, 1), (0, 0)], vec![]));
    assert_eq!(report.status, Status::Pass, "{}", report.detail);
    assert_eq!(report.stats.edges_checked, 3);
}

#[test]
fn a_state_with_the_wrong_keys_names_them() {
    let schema = vec![("x".to_string(), Schema::Int), ("y".to_string(), Schema::Int)];
    let e = decode_state(&object(vec![("y", num(1)), ("z", num(2))]), &schema, "states[0]").unwrap_err();
    assert_eq!(e.path, "states[0]");
    assert_eq!(
        e.message,
        "state keys must be exactly the specification's variables (missing=[\"x\"], unexpected=[\"z\"])"
    );
}
