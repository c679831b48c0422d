//! The operators on values called directly, with their errors.

use tlatools::eval::ops::{combine, powerset};
use tlatools::eval::{Error, Evaluator, Spec, Value};
use tlatools::syntax::token::Op;
use tlatools::syntax::lex;

fn s(t: &str) -> Value {
    Value::Str(t.to_string())
}

fn set(items: Vec<Value>) -> Value {
    Value::set(items)
}

#[test]
fn division_by_zero_and_overflow_are_type_errors() {
    match combine(Op::Div, &Value::Int(1), &Value::Int(0)) {
        Err(Error::Type(m)) => assert!(m.contains("undefined"), "{m}"),
        other => panic!("expected a type error, got {:?}", other.map(|v| v.to_string())),
    }
    match combine(Op::Pow, &Value::Int(2), &Value::Int(1000)) {
        Err(Error::Type(m)) => assert!(m.contains("overflow"), "{m}"),
        other => panic!("expected a type error, got {:?}", other.map(|v| v.to_string())),
    }
    match combine(Op::Plus, &Value::Int(i64::MAX), &Value::Int(1)) {
        Err(Error::Type(m)) => assert_eq!(m, "9223372036854775807 + 1 is undefined or overflows"),
        other => panic!("expected a type error, got {:?}", other.map(|v| v.to_string())),
    }
}

#[test]
fn merging_functions_keeps_the_left_value() {
    let a = combine(Op::OneTo, &s("a"), &Value::Int(1)).unwrap();
    let b = combine(Op::OneTo, &s("a"), &Value::Int(9)).unwrap();
    let c = combine(Op::OneTo, &s("b"), &Value::Int(2)).unwrap();
    assert_eq!(a, Value::record(vec![("a".to_string(), Value::Int(1))]));
    assert_eq!(combine(Op::AtAt, &a, &b).unwrap(), Value::record(vec![("a".to_string(), Value::Int(1))]));
    assert_eq!(
        combine(Op::AtAt, &a, &c).unwrap(),
        Value::record(vec![("a".to_string(), Value::Int(1)), ("b".to_string(), Value::Int(2))])
    );
}

#[test]
fn set_operators_on_values() {
    let x = set(vec![Value::Int(1), Value::Int(2)]);
    let y = set(vec![Value::Int(2), Value::Int(3)]);
    assert_eq!(combine(Op::Cup, &x, &y).unwrap(), set(vec![Value::Int(1), Value::Int(2), Value::Int(3)]));
    assert_eq!(combine(Op::Cap, &x, &y).unwrap(), set(vec![Value::Int(2)]));
    assert_eq!(combine(Op::SetMinus, &x, &y).unwrap(), set(vec![Value::Int(1)]));
    assert!(matches!(combine(Op::Cup, &x, &Value::Int(1)), Err(Error::Type(_))));
}

#[test]
fn powerset_holds_every_subset() {
    let items = vec![Value::Int(1), Value::Int(2)];
    let expected = set(vec![
        set(vec![]),
        set(vec![Value::Int(1)]),
        set(vec![Value::Int(2)]),
        set(vec![Value::Int(1), Value::Int(2)]),
    ]);
    assert_eq!(powerset(&items).unwrap(), expected);
    let many: Vec<Value> = (0..21).map(Value::Int).collect();
    assert!(matches!(powerset(&many), Err(Error::Unbounded(_))));
}

#[test]
fn missing_constants_are_named() {
    let spec = Spec::parse("---- MODULE T ----\nCONSTANTS Capacity, Rate\n====").unwrap();
    match Evaluator::new(&spec, vec![("Rate".to_string(), Value::Int(1))]) {
        Err(Error::Undefined(m)) => assert_eq!(m, "constants without a value: Capacity"),
        _ => panic!("Capacity has no value"),
    }
    assert!(Evaluator::new(
        &spec,
        vec![("Capacity".to_string(), Value::Int(1)), ("Rate".to_string(), Value::Int(1)), ("Extra".to_string(), Value::Int(0))]
    )
    .is_ok());
}

#[test]
fn a_byte_order_mark_changes_nothing() {
    for src in ["a", "---- MODULE M ----\nX == 1\n====", "x' = y \\/ z"] {
        let marked = format!("\u{feff}{src}");
        let plain: Vec<_> = lex(src).unwrap().into_iter().map(|t| (t.tok, t.line, t.col)).collect();
        let with: Vec<_> = lex(&marked).unwrap().into_iter().map(|t| (t.tok, t.line, t.col)).collect();
        assert_eq!(plain, with);
    }
}

#[test]
fn control_characters_are_escaped() {
    assert_eq!(s("a\u{1b}b\u{0}c\u{7f}").to_string(), "\"a\\u{1b}b\\0c\\u{7f}\"");
}

#[test]
fn line_ends_of_every_kind_count() {
    let places: Vec<(u32, u32)> = lex("a\r\nb\rc").unwrap().into_iter().map(|t| (t.line, t.col)).collect();
    assert_eq!(places[..3], [(1, 1), (2, 1), (3, 1)]);
}

#[test]
fn the_representation_follows_the_domain() {
    let i = Value::Int;
    let seq_like = Value::function(vec![(i(2), s("b")), (i(1), s("a"))]);
    assert!(matches!(seq_like, Value::Sequence(_)));
    let rec_like = Value::function(vec![(s("y"), i(2)), (s("x"), i(1))]);
    assert!(matches!(rec_like, Value::Record(_)));
    let gap = Value::function(vec![(i(2), i(2)), (i(4), i(4))]);
    assert!(matches!(gap, Value::Func(_)));
    let empty = Value::function(Vec::new());
    assert!(matches!(empty, Value::Sequence(_)));
}

#[test]
fn a_function_rebuilt_from_its_entries_is_itself() {
    let i = Value::Int;
    for f in [
        Value::function(vec![(i(1), s("a")), (i(2), s("b"))]),
        Value::function(vec![(s("x"), i(1))]),
        Value::function(vec![(i(2), i(2)), (i(4), i(4))]),
    ] {
        let entries = f.entries().unwrap();
        let keys: Vec<String> = entries.iter().map(|(k, _)| k.to_string()).collect();
        let domain: Vec<String> = f.domain().unwrap().iter().map(|k| k.to_string()).collect();
        assert_eq!(domain, keys);
        assert_eq!(Value::function(entries), f);
    }
}

#[test]
fn every_subset_of_the_members_is_held() {
    let i = Value::Int;
    let all = powerset(&vec![i(1), i(2), i(3)]).unwrap();
    match all {
        Value::FiniteSet(subsets) => {
            assert_eq!(subsets.len(), 8);
            assert!(subsets.contains(&set(vec![i(1), i(3)])));
            assert!(subsets.contains(&set(vec![])));
            assert!(!subsets.contains(&set(vec![i(4)])));
        },
        _ => panic!("SUBSET gives a set"),
    }
}
