//! The operators the standard modules provide, and the value model underneath
//! them. Each is exercised directly, including at the boundaries where an
//! off-by-one would otherwise go unnoticed.

use tlatools::eval::{Evaluator, Infinite, Spec, Value};

fn source(expr: &str) -> String {
    format!(
        "---- MODULE T ----\n\
         EXTENDS Naturals, Sequences, FiniteSets, TLC\n\
         VARIABLE v\n\
         X == {expr}\n\
         ===="
    )
}

fn value(expr: &str) -> Value {
    let spec = Spec::parse(&source(expr))
        .unwrap_or_else(|e| panic!("parsing `{expr}`: {}", e.to_string()));
    let evaluator = Evaluator::new(&spec, Vec::new()).expect("no constants");
    let state = vec![("v".to_string(), Value::Int(0))];
    evaluator
        .value_of("X", &state)
        .unwrap_or_else(|e| panic!("evaluating `{expr}`: {}", e.to_string()))
}

fn failure(expr: &str) -> String {
    let spec = Spec::parse(&source(expr))
        .unwrap_or_else(|e| panic!("parsing `{expr}`: {}", e.to_string()));
    let evaluator = Evaluator::new(&spec, Vec::new()).expect("no constants");
    let state = vec![("v".to_string(), Value::Int(0))];
    match evaluator.value_of("X", &state) {
        Ok(v) => panic!("`{expr}` gave {} where an error was expected", v.to_string()),
        Err(e) => e.to_string(),
    }
}

fn num(n: i64) -> Value {
    Value::Int(n)
}

fn seq(items: &[i64]) -> Value {
    Value::Sequence(items.iter().copied().map(Value::Int).collect())
}

// ------------------------------------------------------------- FiniteSets

#[test]
fn cardinality_counts_a_set() {
    assert_eq!(value("Cardinality({})"), num(0));
    assert_eq!(value("Cardinality({1, 2, 2, 3})"), num(3));
}

#[test]
fn is_finite_set_distinguishes_the_enumerable() {
    assert_eq!(value("IsFiniteSet({1, 2})"), Value::Bool(true));
    assert_eq!(value("IsFiniteSet(Nat)"), Value::Bool(false));
}

#[test]
fn cardinality_of_an_infinite_set_is_refused() {
    assert!(failure("Cardinality(Nat)").contains("infinite"));
}

// -------------------------------------------------------------- Sequences

#[test]
fn sequence_operators() {
    assert_eq!(value("Len(<<1, 2, 3>>)"), num(3));
    assert_eq!(value("Len(<<>>)"), num(0));
    assert_eq!(value("Head(<<7, 8>>)"), num(7));
    assert_eq!(value("Tail(<<7, 8>>)"), seq(&[8]));
    assert_eq!(value("Tail(<<7>>)"), seq(&[]));
    assert_eq!(value("Append(<<1>>, 2)"), seq(&[1, 2]));
    assert_eq!(value("<<1, 2>> \\o <<3>>"), seq(&[1, 2, 3]));
}

#[test]
fn head_and_tail_of_an_empty_sequence_are_refused() {
    assert!(failure("Head(<<>>)").contains("empty"));
    assert!(failure("Tail(<<>>)").contains("empty"));
}

/// `SubSeq` clamps at both ends and returns nothing when they cross, so the
/// comparison it turns on is checked either side of the boundary.
#[test]
fn subseq_clamps_and_can_be_empty() {
    assert_eq!(value("SubSeq(<<1, 2, 3>>, 2, 3)"), seq(&[2, 3]));
    assert_eq!(value("SubSeq(<<1, 2, 3>>, 2, 2)"), seq(&[2]));
    assert_eq!(value("SubSeq(<<1, 2, 3>>, 3, 2)"), seq(&[]));
    assert_eq!(value("SubSeq(<<1, 2, 3>>, 1, 9)"), seq(&[1, 2, 3]));
    assert_eq!(value("SubSeq(<<1, 2, 3>>, 0, 2)"), seq(&[1, 2]));
}

/// `Seq(S)` is every finite sequence over `S`: membership is decidable,
/// enumeration is not.
#[test]
fn the_set_of_sequences_supports_membership_only() {
    assert_eq!(value("<<1, 2>> \\in Seq({1, 2})"), Value::Bool(true));
    assert_eq!(value("<<1, 3>> \\in Seq({1, 2})"), Value::Bool(false));
    assert_eq!(value("<<>> \\in Seq({1})"), Value::Bool(true));
    assert_eq!(value("5 \\in Seq({1})"), Value::Bool(false));
    assert!(failure("Cardinality(Seq({1}))").contains("infinite"));
}

// --------------------------------------------------------------------- TLC

#[test]
fn assert_passes_or_reports_its_message() {
    assert_eq!(value(r#"Assert(TRUE, "unused")"#), Value::Bool(true));
    assert!(failure(r#"Assert(FALSE, "the reason")"#).contains("the reason"));
}

#[test]
fn printing_operators_pass_their_value_through() {
    assert_eq!(value(r#"Print("label", 42)"#), num(42));
    assert_eq!(value(r#"PrintT("label")"#), Value::Bool(true));
    assert_eq!(value("ToString(<<1, 2>>)"), Value::string("<<1, 2>>"));
}

#[test]
fn a_function_can_be_built_from_pairs() {
    assert_eq!(
        value(r#"("a" :> 1) @@ ("b" :> 2)"#),
        value(r"[a |-> 1, b |-> 2]")
    );
    // `@@` keeps the left-hand value where both define a point.
    assert_eq!(value(r#"("a" :> 1) @@ ("a" :> 9)"#), value(r"[a |-> 1]"));
}

// ------------------------------------------------------- the infinite sets

#[test]
fn the_infinite_sets_decide_membership() {
    assert_eq!(value("3 \\in Nat"), Value::Bool(true));
    assert_eq!(value("-3 \\in Nat"), Value::Bool(false));
    assert_eq!(value("-3 \\in Int"), Value::Bool(true));
    assert_eq!(value(r#""x" \in Int"#), Value::Bool(false));
    assert_eq!(value(r#""x" \in STRING"#), Value::Bool(true));
    assert_eq!(value("TRUE \\in BOOLEAN"), Value::Bool(true));
    assert_eq!(value("1 \\in BOOLEAN"), Value::Bool(false));
}

#[test]
fn an_infinite_set_cannot_be_enumerated() {
    assert!(failure("\\E n \\in Nat : n = 1").contains("cannot be enumerated"));
}

// ------------------------------------------------------- the value model

/// A function's representation follows its domain, so the same value written
/// two ways compares equal.
#[test]
fn functions_records_and_sequences_are_one_thing() {
    assert_eq!(value("[i \\in 1..2 |-> i]"), seq(&[1, 2]));
    assert_eq!(value(r#"[i \in {"a"} |-> 1]"#), value("[a |-> 1]"));
    assert_eq!(value("[i \\in {} |-> i]"), seq(&[]));
    // A domain that is neither `1..n` nor all strings stays a function.
    assert!(matches!(value("[i \\in {2, 4} |-> i]"), Value::Func(_)));
}

#[test]
fn domain_and_application_agree_for_every_representation() {
    let sequence = seq(&[10, 20]);
    assert_eq!(
        sequence.domain(),
        Some(vec![num(1), num(2)]),
        "a sequence is a function on 1..n"
    );
    assert_eq!(sequence.apply(&num(1)), Some(num(10)));
    assert_eq!(sequence.apply(&num(0)), None);
    assert_eq!(sequence.apply(&num(3)), None);

    let record = value("[a |-> 1, b |-> 2]");
    assert_eq!(
        record.domain(),
        Some(vec![Value::string("a"), Value::string("b")])
    );
    assert_eq!(record.apply(&Value::string("b")), Some(num(2)));
    assert_eq!(record.apply(&Value::string("c")), None);

    let function = value("[i \\in {2, 4} |-> i]");
    assert_eq!(function.domain(), Some(vec![num(2), num(4)]));
    assert_eq!(function.apply(&num(4)), Some(num(4)));

    assert_eq!(num(1).domain(), None, "an integer is not a function");
    assert_eq!(num(1).apply(&num(1)), None);
}

#[test]
fn the_graph_of_a_function_can_be_read_back() {
    assert_eq!(
        seq(&[10, 20]).entries(),
        Some(vec![(num(1), num(10)), (num(2), num(20))]),
        "a sequence is indexed from one"
    );
    assert_eq!(
        value("[a |-> 1]").entries(),
        Some(vec![(Value::string("a"), num(1))])
    );
    assert!(value("[i \\in {2, 4} |-> i]").entries().is_some());
    assert_eq!(num(1).entries(), None);
    assert_eq!(Value::set(vec![num(1)]).entries(), None);
}

#[test]
fn values_describe_themselves() {
    for (v, name, printed) in [
        (Value::Bool(true), "a boolean", "TRUE"),
        (Value::Bool(false), "a boolean", "FALSE"),
        (num(-2), "an integer", "-2"),
        (Value::string("s"), "a string", "\"s\""),
        (seq(&[1]), "a sequence", "<<1>>"),
        (Value::set(vec![num(1)]), "a set", "{1}"),
        (value("[a |-> 1]"), "a record", "[a |-> 1]"),
        (
            value("[i \\in {2, 4} |-> i]"),
            "a function",
            "(2 :> 2 @@ 4 :> 4)",
        ),
        (Value::Infinite(Infinite::Nat), "a set", "Nat"),
        (Value::Infinite(Infinite::Int), "a set", "Int"),
        (Value::Infinite(Infinite::Strings), "a set", "STRING"),
        (
            Value::Infinite(Infinite::Sequences(Box::new(Value::set(vec![num(1)])))),
            "a set",
            "Seq({1})",
        ),
    ] {
        assert_eq!(v.kind_name(), name, "{}", v.to_string());
        assert_eq!(v.to_string(), printed);
        assert_eq!(v.is_set(), name == "a set", "{}", v.to_string());
    }
}

// -------------------------------------------------------------- arithmetic

#[test]
fn arithmetic_reports_rather_than_wraps() {
    assert_eq!(value("7 \\div 2"), num(3));
    assert_eq!(value("7 % 2"), num(1));
    assert_eq!(value("2 ^ 10"), num(1024));
    assert!(failure("1 \\div 0").contains("undefined"));
    assert!(failure("2 ^ 1000").contains("overflow"));
}

#[test]
fn set_operators() {
    assert_eq!(value("{1, 2} \\cup {2, 3}"), value("{1, 2, 3}"));
    assert_eq!(value("{1, 2} \\cap {2, 3}"), value("{2}"));
    assert_eq!(value("{1, 2} \\ {2}"), value("{1}"));
    assert_eq!(value("SUBSET {1, 2}"), value("{{}, {1}, {2}, {1, 2}}"));
    assert_eq!(value("UNION {{1}, {2}}"), value("{1, 2}"));
    assert_eq!(value("{1} \\X {2}"), value("{<<1, 2>>}"));
    assert_eq!(value("{1, 2} \\subseteq {1, 2, 3}"), Value::Bool(true));
    assert_eq!(value("{1, 4} \\subseteq {1, 2, 3}"), Value::Bool(false));
}

#[test]
fn cartesian_product_holds_every_pair() {
    assert_eq!(
        value("{1, 2} \\X {\"a\", \"b\"}"),
        value("{<<1, \"a\">>, <<1, \"b\">>, <<2, \"a\">>, <<2, \"b\">>}")
    );
    assert_eq!(value("{1, 2} \\X {}"), value("{}"));
}

#[test]
fn subset_of_a_non_set_fails() {
    assert!(!failure("1 \\subseteq {1}").is_empty());
    assert!(!failure("{1} \\subseteq 2").is_empty());
}

#[test]
fn powerset_over_the_limit_names_its_size() {
    let m = failure("SUBSET (1..21)");
    assert!(
        m.contains("SUBSET would have 2097152 elements, over the 1048576 limit"),
        "{m}"
    );
}

#[test]
fn record_set_holds_every_combination_of_fields() {
    assert_eq!(
        value("[a : {1, 2}, b : {\"x\"}]"),
        value("{[a |-> 1, b |-> \"x\"], [a |-> 2, b |-> \"x\"]}")
    );
    assert_eq!(value("[a : {1}, b : {}]"), value("{}"));
}

#[test]
fn record_set_over_the_limit_fails() {
    let m = failure("[a : 1..2000, b : 1..2000]");
    assert!(m.contains("a record set would have"), "{m}");
}

#[test]
fn function_set_holds_every_function() {
    assert_eq!(
        value("[{1} -> {1, 2}]"),
        value("{[x \\in {1} |-> 1], [x \\in {1} |-> 2]}")
    );
    assert_eq!(
        value("[{\"a\", \"b\"} -> {0, 1}]"),
        value("{[x \\in {\"a\", \"b\"} |-> IF x = \"a\" THEN i ELSE j] : i \\in {0, 1}, j \\in {0, 1}}")
    );
    assert_eq!(value("[{} -> {1}]"), value("{<<>>}"));
    assert_eq!(value("[{1} -> {}]"), value("{}"));
}

#[test]
fn function_set_over_the_limit_fails() {
    let m = failure("[1..21 -> {1, 2}]");
    assert!(m.contains("a function set would have 2097152 elements"), "{m}");
}
