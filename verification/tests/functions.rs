//! Function values: one representation for each function, and reading back
//! what a graph was built from.

use tlatools::eval::{Evaluator, Spec, Value};
use tlatools::syntax::parse_expression;

fn num(n: i64) -> Value {
    Value::Int(n)
}

fn text(s: &str) -> Value {
    Value::Str(s.to_string())
}

#[test]
fn a_graph_over_one_to_n_is_a_sequence() {
    let f = Value::function(vec![(num(2), text("b")), (num(1), text("a"))]);
    assert_eq!(f, Value::Sequence(vec![text("a"), text("b")]));
}

#[test]
fn a_graph_over_strings_is_a_record() {
    let f = Value::function(vec![(text("y"), num(2)), (text("x"), num(1))]);
    assert_eq!(f, Value::Record(vec![("x".to_string(), num(1)), ("y".to_string(), num(2))]));
}

#[test]
fn any_other_graph_is_a_general_function_sorted_by_argument() {
    let f = Value::function(vec![(num(3), text("c")), (num(1), text("a"))]);
    assert_eq!(f, Value::Func(vec![(num(1), text("a")), (num(3), text("c"))]));
}

#[test]
fn the_empty_graph_is_the_empty_sequence() {
    assert_eq!(Value::function(Vec::new()), Value::Sequence(Vec::new()));
}

#[test]
fn the_last_pair_for_an_argument_wins() {
    let f = Value::function(vec![(num(5), text("old")), (num(5), text("new"))]);
    assert_eq!(f.apply(&num(5)), Some(text("new")));
    let r = Value::record(vec![("a".to_string(), num(1)), ("a".to_string(), num(2))]);
    assert_eq!(r, Value::Record(vec![("a".to_string(), num(2))]));
}

#[test]
fn two_ways_of_writing_a_function_give_one_value() {
    let a = Value::function(vec![(num(1), text("a")), (num(2), text("b"))]);
    let b = Value::function(vec![(num(2), text("b")), (num(1), text("a"))]);
    assert_eq!(a, b);
}

#[test]
fn entries_read_back_the_sorted_graph() {
    let f = Value::function(vec![(num(7), num(70)), (num(3), num(30))]);
    assert_eq!(f.entries(), Some(vec![(num(3), num(30)), (num(7), num(70))]));
    assert_eq!(f.domain(), Some(vec![num(3), num(7)]));
    let s = Value::Sequence(vec![text("x"), text("y")]);
    assert_eq!(s.entries(), Some(vec![(num(1), text("x")), (num(2), text("y"))]));
    assert_eq!(s.domain(), Some(vec![num(1), num(2)]));
    assert_eq!(num(1).entries(), None);
}

#[test]
fn application_outside_the_domain_is_nothing() {
    let f = Value::function(vec![(num(3), num(30))]);
    assert_eq!(f.apply(&num(3)), Some(num(30)));
    assert_eq!(f.apply(&num(4)), None);
    let r = Value::record(vec![("a".to_string(), num(1))]);
    assert_eq!(r.apply(&text("a")), Some(num(1)));
    assert_eq!(r.apply(&text("b")), None);
    assert_eq!(r.apply(&num(1)), None);
    assert_eq!(num(3).apply(&num(1)), None);
}

fn value(expr: &str) -> Value {
    let parsed = parse_expression(expr).unwrap();
    let m = Spec::parse("---- MODULE T ----\nEXTENDS Naturals\n====").unwrap();
    let e = Evaluator::new(&m, Vec::new()).unwrap();
    e.eval_at(&parsed, &Vec::new(), None).unwrap()
}

#[test]
fn records_and_fields_evaluate() {
    assert_eq!(value("[a |-> 1, b |-> 2].b"), num(2));
    assert_eq!(value("[a |-> 1, a |-> 2].a"), num(2));
    assert_eq!(value("<<10, 20, 30>>[2]"), num(20));
    assert_eq!(value("{3, 1, 3, 2}"), Value::FiniteSet(vec![num(1), num(2), num(3)]));
}

#[test]
fn case_takes_the_first_arm_that_holds() {
    assert_eq!(value("CASE 1 = 2 -> 10 [] 2 = 2 -> 20 [] 3 = 3 -> 30"), num(20));
    assert_eq!(value("CASE 1 = 2 -> 10 [] OTHER -> 0"), num(0));
}
