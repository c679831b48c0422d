//! Operators the specification defines itself, operators passed as arguments,
//! and modules built out of other modules.

use tlatools::eval::{Evaluator, Modules, Spec, State, Value};

/// Modules held in memory, so a test can describe a whole specification.
struct Sources(Vec<(&'static str, &'static str)>);

impl Modules for Sources {
    fn source(&self, name: &str) -> Option<String> {
        self.0
            .iter()
            .find(|(k, _)| *k == name)
            .map(|(_, s)| (*s).to_string())
    }
}

fn spec(src: &str) -> Spec {
    Spec::parse(src).unwrap_or_else(|e| panic!("{}\nin:\n{src}", e.to_string()))
}

fn evaluator<'a>(spec: &'a Spec, constants: &[(&str, Value)]) -> Evaluator<'a> {
    let list = constants
        .iter()
        .map(|(k, v)| ((*k).to_string(), v.clone()))
        .collect();
    match Evaluator::new(spec, list) {
        Ok(e) => e,
        Err(e) => panic!("the constants cover the declarations: {}", e.to_string()),
    }
}

fn state(pairs: &[(&str, i64)]) -> State {
    pairs
        .iter()
        .map(|(k, v)| ((*k).to_string(), Value::Int(*v)))
        .collect()
}

// ------------------------------------------------- operators a spec defines

const OPS: &str = r"---- MODULE Ops ----
EXTENDS Naturals
VARIABLE x
a \prec b == a < b
-. a == 0 - a
b ^+ == b + 1
\* `-.` is how a prefix definition is written; the use is plain `-x`.
Small   == x \prec 5
Negated == -x
Bumped  == x^+
====================";

#[test]
fn an_infix_operator_the_spec_defines_is_evaluated() {
    let m = spec(OPS);
    let e = evaluator(&m, &[]);
    assert_eq!(
        e.value_of("Small", &state(&[("x", 3)])).unwrap(),
        Value::Bool(true)
    );
    assert_eq!(
        e.value_of("Small", &state(&[("x", 9)])).unwrap(),
        Value::Bool(false)
    );
}

#[test]
fn prefix_and_postfix_definitions_are_evaluated() {
    let m = spec(OPS);
    let e = evaluator(&m, &[]);
    let at = state(&[("x", 4)]);
    assert_eq!(e.value_of("Negated", &at).unwrap(), Value::Int(-4));
    assert_eq!(e.value_of("Bumped", &at).unwrap(), Value::Int(5));
}

// ------------------------------------------------------ operator arguments

const HIGHER_ORDER: &str = r"---- MODULE HigherOrder ----
EXTENDS Naturals
VARIABLE x
Twice(f(_), v)      == f(f(v))
Combine(op(_, _), a, b) == op(a, b)
Inc(n)   == n + 1
ByName   == Twice(Inc, 1)
ByLambda == Twice(LAMBDA k : k * 2, 3)
BySymbol == Combine(+, 2, 3)
Nested   == Combine(LAMBDA a, b : a * b, x, x)
====================";

#[test]
fn an_operator_may_be_passed_by_name() {
    let m = spec(HIGHER_ORDER);
    let e = evaluator(&m, &[]);
    assert_eq!(
        e.value_of("ByName", &state(&[("x", 0)])).unwrap(),
        Value::Int(3)
    );
}

#[test]
fn a_lambda_may_be_passed_and_applied() {
    let m = spec(HIGHER_ORDER);
    let e = evaluator(&m, &[]);
    assert_eq!(
        e.value_of("ByLambda", &state(&[("x", 0)])).unwrap(),
        Value::Int(12)
    );
}

/// `Combine(+, 2, 3)` passes the operator itself.
#[test]
fn an_operator_symbol_may_be_passed() {
    let m = spec(HIGHER_ORDER);
    let e = evaluator(&m, &[]);
    assert_eq!(
        e.value_of("BySymbol", &state(&[("x", 0)])).unwrap(),
        Value::Int(5)
    );
}

#[test]
fn a_lambda_sees_the_state_it_was_written_in() {
    let m = spec(HIGHER_ORDER);
    let e = evaluator(&m, &[]);
    assert_eq!(
        e.value_of("Nested", &state(&[("x", 6)])).unwrap(),
        Value::Int(36)
    );
}

// -------------------------------------------------------------- extending

#[test]
fn a_module_may_extend_another() {
    let sources = Sources(vec![(
        "Base",
        "---- MODULE Base ----\nEXTENDS Naturals\nCONSTANT Bound\nVARIABLE x\nInRange == x <= Bound\n====",
    )]);
    let m = match Spec::load(
        "---- MODULE Top ----\nEXTENDS Base\nOk == InRange /\\ x >= 0\n====",
        &sources,
    ) {
        Ok(m) => m,
        Err(e) => panic!("Base is found: {}", e.to_string()),
    };

    // A variable and a constant declared in Base belong to Top as well.
    assert_eq!(m.variables(), vec!["x".to_string()]);
    assert_eq!(m.constants(), vec!["Bound".to_string()]);

    let e = evaluator(&m, &[("Bound", Value::Int(5))]);
    assert_eq!(
        e.value_of("Ok", &state(&[("x", 3)])).unwrap(),
        Value::Bool(true)
    );
    assert_eq!(
        e.value_of("Ok", &state(&[("x", 9)])).unwrap(),
        Value::Bool(false)
    );
}

#[test]
fn a_module_that_cannot_be_found_is_reported() {
    let err = match Spec::parse("---- MODULE Top ----\nEXTENDS Missing\nX == 1\n====") {
        Ok(_) => panic!("Missing is not a standard module"),
        Err(e) => e,
    };
    assert!(err.to_string().contains("Missing"), "{}", err.to_string());
}

// -------------------------------------------------------------- instances

/// Two independent counters, each an instance of the same module with its own
/// constant and its own variable.
const COMPOSED: &str = r"---- MODULE Composed ----
EXTENDS Naturals
VARIABLES a, b

---- MODULE Counter ----
EXTENDS Naturals
CONSTANT Limit
VARIABLE n
CInit == n = 0
CNext == n < Limit /\ n' = n + 1
====================

A == INSTANCE Counter WITH Limit <- 3, n <- a
B == INSTANCE Counter WITH Limit <- 5, n <- b

Init == A!CInit /\ B!CInit
Next == \/ A!CNext /\ b' = b
        \/ B!CNext /\ a' = a
====================";

fn composed() -> Spec {
    spec(COMPOSED)
}

#[test]
fn an_instance_substitutes_constants_and_variables() {
    let m = composed();
    let e = evaluator(&m, &[]);
    assert!(e.holds_at("Init", &state(&[("a", 0), ("b", 0)])).unwrap());
    assert!(!e.holds_at("Init", &state(&[("a", 1), ("b", 0)])).unwrap());
}

/// `n' = n + 1` inside `Counter` has to mean `a' = a + 1` here: priming
/// reaches through the substitution, which is why a substitution is held as an
/// expression and not as a value.
#[test]
fn priming_reaches_through_a_substitution() {
    let m = composed();
    let e = evaluator(&m, &[]);
    let start = state(&[("a", 0), ("b", 0)]);
    assert!(e
        .step_allowed("Next", &start, &state(&[("a", 1), ("b", 0)]))
        .unwrap());
    assert!(e
        .step_allowed("Next", &start, &state(&[("a", 0), ("b", 1)]))
        .unwrap());
    assert!(!e
        .step_allowed("Next", &start, &state(&[("a", 2), ("b", 0)]))
        .unwrap());
    assert!(!e
        .step_allowed("Next", &start, &state(&[("a", 1), ("b", 1)]))
        .unwrap());
}

/// The two instances differ only in what was substituted, so the same
/// definition has to give different answers through each.
#[test]
fn instances_of_one_module_keep_their_own_constants() {
    let m = composed();
    let e = evaluator(&m, &[]);
    // `a` has reached A's limit of 3; `b` has not reached B's limit of 5.
    let at = state(&[("a", 3), ("b", 3)]);
    assert!(!e
        .step_allowed("Next", &at, &state(&[("a", 4), ("b", 3)]))
        .unwrap());
    assert!(e
        .step_allowed("Next", &at, &state(&[("a", 3), ("b", 4)]))
        .unwrap());
}

#[test]
fn a_name_the_with_clause_omits_keeps_its_own_name() {
    let sources = Sources(vec![(
        "Inner",
        "---- MODULE Inner ----\nEXTENDS Naturals\nCONSTANTS P, Q\nSum == P + Q\n====",
    )]);
    let m = match Spec::load(
        "---- MODULE Outer ----\nEXTENDS Naturals\nCONSTANT Q\nVARIABLE v\n\
         I == INSTANCE Inner WITH P <- 10\nTotal == I!Sum\n====",
        &sources,
    ) {
        Ok(m) => m,
        Err(e) => panic!("Inner is found: {}", e.to_string()),
    };
    let e = evaluator(&m, &[("Q", Value::Int(7))]);
    assert_eq!(
        e.value_of("Total", &state(&[("v", 0)])).unwrap(),
        Value::Int(17)
    );
}

#[test]
fn instances_may_be_chained() {
    let sources = Sources(vec![
        (
            "Leaf",
            "---- MODULE Leaf ----\nEXTENDS Naturals\nCONSTANT K\nValue == K * 2\n====",
        ),
        (
            "Middle",
            "---- MODULE Middle ----\nEXTENDS Naturals\nCONSTANT M\n\
             L == INSTANCE Leaf WITH K <- M + 1\n====",
        ),
    ]);
    let m = match Spec::load(
        "---- MODULE Top ----\nEXTENDS Naturals\nVARIABLE v\n\
         Mid == INSTANCE Middle WITH M <- 4\nAnswer == Mid!L!Value\n====",
        &sources,
    ) {
        Ok(m) => m,
        Err(e) => panic!("both modules are found: {}", e.to_string()),
    };
    let e = evaluator(&m, &[]);
    assert_eq!(
        e.value_of("Answer", &state(&[("v", 0)])).unwrap(),
        Value::Int(10)
    );
}

#[test]
fn an_unknown_instance_is_reported_by_name() {
    let m = spec("---- MODULE T ----\nVARIABLE v\nX == Nope!Thing\n====");
    let e = evaluator(&m, &[]);
    let err = match e.value_of("X", &state(&[("v", 0)])) {
        Ok(_) => panic!("no such instance"),
        Err(e) => e,
    };
    assert!(err.to_string().contains("Nope"), "{}", err.to_string());
}

#[test]
fn a_specification_that_does_not_lex_is_a_syntax_error() {
    match Spec::parse("---- MODULE T ----\nX == \"open\n====") {
        Ok(_) => panic!("an unterminated string cannot be read"),
        Err(e) => assert!(e.to_string().starts_with("lex error"), "{}", e.to_string()),
    }
}

#[test]
fn an_instance_of_an_unknown_module_is_undefined() {
    match Spec::parse("---- MODULE T ----\nI == INSTANCE Nowhere\n====") {
        Ok(_) => panic!("Nowhere does not exist"),
        Err(e) => assert!(e.to_string().contains("Nowhere"), "{}", e.to_string()),
    }
}

#[test]
fn an_empty_module_loads() {
    let spec = Spec::parse("---- MODULE Empty ----\n====").expect("an empty module is a specification");
    assert_eq!(spec.name(), "Empty");
    assert!(spec.variables().is_empty());
}
