//! Evaluation at a state and at a step: the connectives, priming,
//! definitions, the depth limit, and the diagnosis of a refused step.

use tlatools::eval::{Error, Evaluator, Spec, Value};
use tlatools::syntax::parse_expression;

fn spec(body: &str) -> Spec {
    let src = format!(
        "---- MODULE T ----\nEXTENDS Naturals, Sequences\nCONSTANT Limit\nVARIABLES x, y\n{body}\n===="
    );
    Spec::parse(&src).unwrap_or_else(|e| panic!("{}", e.to_string()))
}

fn at(x: i64, y: i64) -> Vec<(String, Value)> {
    vec![("x".to_string(), Value::Int(x)), ("y".to_string(), Value::Int(y))]
}

fn limit(n: i64) -> Vec<(String, Value)> {
    vec![("Limit".to_string(), Value::Int(n))]
}

#[test]
fn a_false_guard_protects_what_follows_it() {
    let m = spec("Guarded == Len(<<>>) > 0 /\\ Head(<<>>) = 1\nUnguarded == Head(<<>>) = 1");
    let e = Evaluator::new(&m, limit(3)).unwrap();
    assert_eq!(e.holds_at("Guarded", &at(0, 0)).unwrap(), false);
    assert!(e.holds_at("Unguarded", &at(0, 0)).is_err());
}

#[test]
fn a_true_disjunct_decides_and_a_false_premise_implies_anything() {
    let m = spec("D == x = 0 \\/ Head(<<>>) = 1\nI == x = 1 => Head(<<>>) = 1");
    let e = Evaluator::new(&m, limit(3)).unwrap();
    assert_eq!(e.holds_at("D", &at(0, 0)).unwrap(), true);
    assert_eq!(e.holds_at("I", &at(0, 0)).unwrap(), true);
    assert!(e.holds_at("D", &at(1, 0)).is_err());
}

#[test]
fn a_definition_means_its_body() {
    let m = spec("Small == x < Limit\nBoth == Small /\\ y = 0");
    let e = Evaluator::new(&m, limit(3)).unwrap();
    assert_eq!(e.holds_at("Both", &at(2, 0)).unwrap(), true);
    assert_eq!(e.holds_at("Both", &at(3, 0)).unwrap(), false);
    assert_eq!(e.holds_at("Both", &at(2, 1)).unwrap(), false);
}

#[test]
fn a_definition_that_never_ends_is_reported() {
    let m = spec("Loop == Loop");
    let e = Evaluator::new(&m, limit(3)).unwrap();
    let err = e.value_of("Loop", &at(0, 0)).unwrap_err();
    assert!(matches!(err, Error::Malformed(_)), "{}", err.to_string());
    assert!(err.to_string().contains("recursed more than 512 deep"), "{}", err.to_string());
}

#[test]
fn a_prime_reads_the_successor_state() {
    let m = spec("Step == x' = x + 1 /\\ UNCHANGED y\nBoxed == [x' = x + 1]_<<x, y>>");
    let e = Evaluator::new(&m, limit(3)).unwrap();
    assert!(e.step_allowed("Step", &at(0, 5), &at(1, 5)).unwrap());
    assert!(!e.step_allowed("Step", &at(0, 5), &at(1, 6)).unwrap());
    assert!(!e.step_allowed("Step", &at(0, 5), &at(2, 5)).unwrap());
    // `[A]_v` also allows a step that changes nothing in `v`.
    assert!(e.step_allowed("Boxed", &at(4, 5), &at(4, 5)).unwrap());
    assert!(e.step_allowed("Boxed", &at(4, 5), &at(5, 5)).unwrap());
    assert!(!e.step_allowed("Boxed", &at(4, 5), &at(4, 6)).unwrap());
}

#[test]
fn a_primed_variable_at_a_single_state_is_an_action() {
    let m = spec("Step == x' = x + 1");
    let e = Evaluator::new(&m, limit(3)).unwrap();
    let err = e.holds_at("Step", &at(0, 0)).unwrap_err();
    assert!(matches!(err, Error::NoNextState(_)), "{}", err.to_string());
}

#[test]
fn temporal_operators_are_not_decided_at_a_state() {
    let m = spec("E == ENABLED (x' = 1)\nA == [](x = 0)");
    let e = Evaluator::new(&m, limit(3)).unwrap();
    assert!(matches!(e.holds_at("E", &at(0, 0)).unwrap_err(), Error::NotGround(_)));
    assert!(matches!(e.holds_at("A", &at(0, 0)).unwrap_err(), Error::NotGround(_)));
}

#[test]
fn negation_and_minus() {
    let m = spec("N == ~(x = 0)\nM == -x");
    let e = Evaluator::new(&m, limit(3)).unwrap();
    assert_eq!(e.holds_at("N", &at(0, 0)).unwrap(), false);
    assert_eq!(e.value_of("M", &at(7, 0)).unwrap(), Value::Int(-7));
}

#[test]
fn every_constant_needs_a_value() {
    let m = spec("Ok == TRUE");
    let err = match Evaluator::new(&m, Vec::new()) {
        Ok(_) => panic!("Limit has no value"),
        Err(e) => e,
    };
    assert!(matches!(err, Error::Undefined(_)));
    assert!(err.to_string().contains("Limit"), "{}", err.to_string());
    assert!(Evaluator::new(&m, limit(1)).is_ok());
}

#[test]
fn an_undefined_name_and_a_definition_with_parameters_are_refused() {
    let m = spec("F(a) == a + 1");
    let e = Evaluator::new(&m, limit(3)).unwrap();
    assert!(matches!(e.holds_at("Nope", &at(0, 0)).unwrap_err(), Error::Undefined(_)));
    let err = e.holds_at("F", &at(0, 0)).unwrap_err();
    assert!(matches!(err, Error::Malformed(_)));
    assert!(err.to_string().contains("takes 1 argument(s)"), "{}", err.to_string());
}

#[test]
fn a_non_boolean_predicate_is_a_type_error() {
    let m = spec("N == x + 1");
    let e = Evaluator::new(&m, limit(3)).unwrap();
    assert!(matches!(e.holds_at("N", &at(0, 0)).unwrap_err(), Error::Type(_)));
}

#[test]
fn an_expression_is_evaluated_at_a_state() {
    let m = spec("Ok == TRUE");
    let e = Evaluator::new(&m, limit(3)).unwrap();
    let expr = parse_expression("IF x < Limit THEN <<x, y>> ELSE \"full\"").unwrap();
    assert_eq!(
        e.eval_at(&expr, &at(1, 2), None).unwrap(),
        Value::Sequence(vec![Value::Int(1), Value::Int(2)])
    );
    assert_eq!(e.eval_at(&expr, &at(3, 2), None).unwrap(), Value::string("full"));
}

#[test]
fn quantifiers_choose_and_sets_are_evaluated() {
    let m = spec(
        "All == \\A i \\in 1..3 : i > 0\n\
         Some == \\E i \\in 1..3 : i = x\n\
         Least == CHOOSE i \\in {3, 1, 2} : i > 1\n\
         Evens == {i \\in 1..6 : i % 2 = 0}\n\
         Squares == {i * i : i \\in 1..3}",
    );
    let e = Evaluator::new(&m, limit(3)).unwrap();
    assert_eq!(e.holds_at("All", &at(0, 0)).unwrap(), true);
    assert_eq!(e.holds_at("Some", &at(2, 0)).unwrap(), true);
    assert_eq!(e.holds_at("Some", &at(5, 0)).unwrap(), false);
    assert_eq!(e.value_of("Least", &at(0, 0)).unwrap(), Value::Int(2));
    assert_eq!(
        e.value_of("Evens", &at(0, 0)).unwrap(),
        Value::set(vec![Value::Int(2), Value::Int(4), Value::Int(6)])
    );
    assert_eq!(
        e.value_of("Squares", &at(0, 0)).unwrap(),
        Value::set(vec![Value::Int(1), Value::Int(4), Value::Int(9)])
    );
}

#[test]
fn except_let_and_case_are_evaluated() {
    let m = spec(
        "F == [f EXCEPT ![2] = @ + 10] \n\
         f == <<1, 2, 3>>\n\
         L == LET a == x + 1 IN a * a\n\
         C == CASE x = 0 -> \"zero\" [] OTHER -> \"other\"",
    );
    let e = Evaluator::new(&m, limit(3)).unwrap();
    assert_eq!(
        e.value_of("F", &at(0, 0)).unwrap(),
        Value::Sequence(vec![Value::Int(1), Value::Int(12), Value::Int(3)])
    );
    assert_eq!(e.value_of("L", &at(2, 0)).unwrap(), Value::Int(9));
    assert_eq!(e.value_of("C", &at(0, 0)).unwrap(), Value::string("zero"));
    assert_eq!(e.value_of("C", &at(1, 0)).unwrap(), Value::string("other"));
}

#[test]
fn a_refused_step_is_diagnosed() {
    let m = spec(
        "Inc == x < Limit /\\ x' = x + 1 /\\ y' = y\n\
         Reset == x = Limit /\\ x' = 0 /\\ y' = y\n\
         Next == Inc \\/ Reset",
    );
    let e = Evaluator::new(&m, limit(3)).unwrap();
    assert!(e.why_not("Next", &at(0, 0), &at(1, 0)).unwrap().is_empty());
    let blocked = e.why_not("Next", &at(0, 0), &at(2, 0)).unwrap();
    assert_eq!(blocked.len(), 2);
    // `Inc` had its guard and one effect; `Reset` failed at its guard.
    assert_eq!(blocked[0].action, "Inc");
    assert_eq!(blocked[0].satisfied, 2);
    assert_eq!(blocked[0].total, 3);
    assert_eq!(blocked[0].conjunct, "x' = x + 1");
    assert!(blocked[0].about_next_state);
    assert_eq!(blocked[1].action, "Reset");
    assert!(!blocked[1].about_next_state);
}

#[test]
fn formulas_about_behaviours_are_refused_with_a_reason() {
    let m = spec("Ok == TRUE");
    let e = Evaluator::new(&m, limit(3)).unwrap();
    for source in ["[](x = 0)", "<>(x = 0)", "ENABLED (x' = 1)", "x = 0 ~> x = 1", "\\AA z : z = 0", "<<x' = 1>>_x", "WF_x(x' = 1)"] {
        let expr = parse_expression(source).unwrap();
        assert!(matches!(e.eval_at(&expr, &at(0, 0), None), Err(Error::NotGround(_))), "{source}");
    }
}

#[test]
fn an_operator_binds_its_parameters_to_its_arguments() {
    let m = spec("Inc(n) == n + 1\nTwice(n) == Inc(Inc(n))\nShadow(x) == x * 10\nUse == Shadow(y) + x");
    let e = Evaluator::new(&m, limit(3)).unwrap();
    let twice = parse_expression("Twice(3)").unwrap();
    assert_eq!(e.eval_at(&twice, &at(0, 0), None).unwrap(), Value::Int(5));
    // A parameter hides the variable of the same name inside the body only.
    assert_eq!(e.value_of("Use", &at(2, 7)).unwrap(), Value::Int(72));
    let wrong = parse_expression("Inc(1, 2)").unwrap();
    assert!(matches!(e.eval_at(&wrong, &at(0, 0), None), Err(Error::Malformed(_))));
}

#[test]
fn quantifiers_range_over_the_members_of_a_set() {
    let m = spec("All == \\A n \\in 1..x : n > 0\nSome == \\E n \\in 1..x : n = y\nNested == \\A a \\in {1, 2} : \\E b \\in {a, a + 1} : b > a");
    let e = Evaluator::new(&m, limit(3)).unwrap();
    assert_eq!(e.holds_at("All", &at(3, 0)).unwrap(), true);
    assert_eq!(e.holds_at("Some", &at(3, 2)).unwrap(), true);
    assert_eq!(e.holds_at("Some", &at(3, 5)).unwrap(), false);
    assert_eq!(e.holds_at("Nested", &at(0, 0)).unwrap(), true);
    // Over no members at all, every claim holds and none exists.
    assert_eq!(e.holds_at("All", &at(0, 0)).unwrap(), true);
    assert_eq!(e.holds_at("Some", &at(0, 0)).unwrap(), false);
}

#[test]
fn a_quantifier_needs_a_truth_value_and_a_finite_set() {
    let m = spec("NotBool == \\A n \\in {1, 2} : n\nOverNat == \\E n \\in Nat : n = 1\nDecided == \\E n \\in {1, 2} : n = 1 \\/ Head(<<>>) = 1");
    let e = Evaluator::new(&m, limit(3)).unwrap();
    assert!(matches!(e.holds_at("NotBool", &at(0, 0)), Err(Error::Type(_))));
    assert!(matches!(e.holds_at("OverNat", &at(0, 0)), Err(Error::Unbounded(_))));
    // The first member that decides ends the search before the failing one.
    assert_eq!(e.holds_at("Decided", &at(0, 0)).unwrap(), true);
}

#[test]
fn choose_takes_the_least_member_that_satisfies() {
    let m = spec("Pick == CHOOSE n \\in {5, 3, 9, 4} : n > 3\nNone == CHOOSE n \\in {1, 2} : n > 7");
    let e = Evaluator::new(&m, limit(3)).unwrap();
    assert_eq!(e.value_of("Pick", &at(0, 0)).unwrap(), Value::Int(4));
    assert!(matches!(e.value_of("None", &at(0, 0)), Err(Error::Malformed(_))));
}

#[test]
fn set_comprehensions_filter_and_map() {
    let m = spec("Evens == {n \\in 1..6 : n % 2 = 0}\nSquares == {n * n : n \\in {-2, 2, 3}}\nPairs == {a + b : a \\in {1, 2}, b \\in {10, 20}}");
    let e = Evaluator::new(&m, limit(3)).unwrap();
    assert_eq!(e.value_of("Evens", &at(0, 0)).unwrap(), Value::set(vec![Value::Int(2), Value::Int(4), Value::Int(6)]));
    assert_eq!(e.value_of("Squares", &at(0, 0)).unwrap(), Value::set(vec![Value::Int(4), Value::Int(9)]));
    assert_eq!(
        e.value_of("Pairs", &at(0, 0)).unwrap(),
        Value::set(vec![Value::Int(11), Value::Int(12), Value::Int(21), Value::Int(22)])
    );
}

#[test]
fn a_function_definition_maps_each_member() {
    let m = spec("Sq == [n \\in 1..3 |-> n * n]\nAt2 == Sq[2]\nTable == [k \\in {\"a\", \"b\"} |-> x]");
    let e = Evaluator::new(&m, limit(3)).unwrap();
    assert_eq!(
        e.value_of("Sq", &at(0, 0)).unwrap(),
        Value::Sequence(vec![Value::Int(1), Value::Int(4), Value::Int(9)])
    );
    assert_eq!(e.value_of("At2", &at(0, 0)).unwrap(), Value::Int(4));
    let table = parse_expression("Table.a + Table.b").unwrap();
    assert_eq!(e.eval_at(&table, &at(5, 0), None).unwrap(), Value::Int(10));
}

#[test]
fn a_bound_may_name_several_variables() {
    let m = spec("Distinct == \\A i, j \\in 1..3 : i # j => i + j > 2\nCount == {<<i, j>> : i, j \\in {0, 1}}\nOrdered == \\E a \\in {1, 2}, b \\in {a + 1} : b = 3");
    let e = Evaluator::new(&m, limit(3)).unwrap();
    assert_eq!(e.holds_at("Distinct", &at(0, 0)).unwrap(), true);
    assert_eq!(
        e.value_of("Count", &at(0, 0)).unwrap(),
        Value::set(vec![
            Value::Sequence(vec![Value::Int(0), Value::Int(0)]),
            Value::Sequence(vec![Value::Int(0), Value::Int(1)]),
            Value::Sequence(vec![Value::Int(1), Value::Int(0)]),
            Value::Sequence(vec![Value::Int(1), Value::Int(1)]),
        ])
    );
    // A later bound's domain sees the names bound before it.
    assert_eq!(e.holds_at("Ordered", &at(0, 0)).unwrap(), true);
}

#[test]
fn an_infix_operator_a_specification_defines_means_its_definition() {
    let m = spec("a \\oplus b == (a + b) % 10\nSum == x \\oplus y");
    let e = Evaluator::new(&m, limit(3)).unwrap();
    assert_eq!(e.value_of("Sum", &at(7, 5)).unwrap(), Value::Int(2));
}

#[test]
fn except_replaces_the_value_at_an_argument() {
    let m = spec("F == <<1, 2, 3>>\nBump == [F EXCEPT ![2] = @ + 10]\nR == [a |-> 1, b |-> <<4, 5>>]\nDeep == [R EXCEPT !.b[1] = 0, !.a = @ * 7]\nOutside == [F EXCEPT ![7] = 0]");
    let e = Evaluator::new(&m, limit(3)).unwrap();
    assert_eq!(
        e.value_of("Bump", &at(0, 0)).unwrap(),
        Value::Sequence(vec![Value::Int(1), Value::Int(12), Value::Int(3)])
    );
    let a = parse_expression("Deep.a").unwrap();
    assert_eq!(e.eval_at(&a, &at(0, 0), None).unwrap(), Value::Int(7));
    let b = parse_expression("Deep.b").unwrap();
    assert_eq!(e.eval_at(&b, &at(0, 0), None).unwrap(), Value::Sequence(vec![Value::Int(0), Value::Int(5)]));
    assert!(matches!(e.value_of("Outside", &at(0, 0)), Err(Error::Type(_))));
}
