//! The operators of the standard modules, implemented directly:
//! `Naturals`, `Integers`, `Sequences`, `FiniteSets` and `TLC`.

use vstd::prelude::*;
use crate::eval::error::Error;
use crate::eval::ops::about;
use crate::eval::value::{copy, copy_list, count, lemma_view_list_len, lemma_view_list_push, view_list, Infinite, Value, VV};
use crate::text::{append, push_int, str_eq, text};

verus! {

/// `BOOLEAN`: the set of the two booleans.
pub open spec fn booleans() -> VV {
    VV::FiniteSet(seq![VV::Bool(false), VV::Bool(true)])
}

/// The value a standard module gives a name, for the names that are values.
pub open spec fn constant_of(name: Seq<char>) -> Option<VV> {
    if name == "Nat"@ {
        Some(VV::Nat)
    } else if name == "Int"@ {
        Some(VV::Ints)
    } else if name == "STRING"@ {
        Some(VV::Strings)
    } else if name == "BOOLEAN"@ {
        Some(booleans())
    } else {
        None
    }
}

/// `Nat`, `Int`, `STRING` and `BOOLEAN`.
pub fn constant(name: &str) -> (r: Option<Value>)
    ensures
        r matches Some(v) ==> constant_of(name@) == Some(v@),
        r is None ==> constant_of(name@) is None,
{
    if str_eq(name, "Nat") {
        Some(Value::Infinite(Infinite::Nat))
    } else if str_eq(name, "Int") {
        Some(Value::Infinite(Infinite::Int))
    } else if str_eq(name, "STRING") {
        Some(Value::Infinite(Infinite::Strings))
    } else if str_eq(name, "BOOLEAN") {
        let mut items: Vec<Value> = Vec::new();
        items.push(Value::Bool(false));
        items.push(Value::Bool(true));
        proof {
            lemma_view_list_len(items@);
            assert(view_list(items@) =~= seq![VV::Bool(false), VV::Bool(true)]);
        }
        Some(Value::FiniteSet(items))
    } else {
        None
    }
}

/// An operator of a standard module.
#[derive(Debug, Clone, Copy, PartialEq, Eq, Structural)]
pub enum Builtin {
    Cardinality,
    IsFiniteSet,
    Len,
    Head,
    Tail,
    Append,
    SubSeq,
    SeqOf,
    Assert,
    Print,
    PrintT,
    ToString,
}

/// The standard operator a name stands for.
pub open spec fn builtin_named(name: Seq<char>) -> Option<Builtin> {
    if name == "Cardinality"@ { Some(Builtin::Cardinality) }
    else if name == "IsFiniteSet"@ { Some(Builtin::IsFiniteSet) }
    else if name == "Len"@ { Some(Builtin::Len) }
    else if name == "Head"@ { Some(Builtin::Head) }
    else if name == "Tail"@ { Some(Builtin::Tail) }
    else if name == "Append"@ { Some(Builtin::Append) }
    else if name == "SubSeq"@ { Some(Builtin::SubSeq) }
    else if name == "Seq"@ { Some(Builtin::SeqOf) }
    else if name == "Assert"@ { Some(Builtin::Assert) }
    else if name == "Print"@ { Some(Builtin::Print) }
    else if name == "PrintT"@ { Some(Builtin::PrintT) }
    else if name == "ToString"@ { Some(Builtin::ToString) }
    else { None }
}

/// How many arguments each standard operator takes.
pub open spec fn arity_of(b: Builtin) -> nat {
    match b {
        Builtin::Append | Builtin::Assert | Builtin::Print => 2,
        Builtin::SubSeq => 3,
        _ => 1,
    }
}

/// The standard operator `name` stands for, if any.
pub fn lookup(name: &str) -> (r: Option<Builtin>)
    ensures
        r == builtin_named(name@),
{
    if str_eq(name, "Cardinality") { Some(Builtin::Cardinality) }
    else if str_eq(name, "IsFiniteSet") { Some(Builtin::IsFiniteSet) }
    else if str_eq(name, "Len") { Some(Builtin::Len) }
    else if str_eq(name, "Head") { Some(Builtin::Head) }
    else if str_eq(name, "Tail") { Some(Builtin::Tail) }
    else if str_eq(name, "Append") { Some(Builtin::Append) }
    else if str_eq(name, "SubSeq") { Some(Builtin::SubSeq) }
    else if str_eq(name, "Seq") { Some(Builtin::SeqOf) }
    else if str_eq(name, "Assert") { Some(Builtin::Assert) }
    else if str_eq(name, "Print") { Some(Builtin::Print) }
    else if str_eq(name, "PrintT") { Some(Builtin::PrintT) }
    else if str_eq(name, "ToString") { Some(Builtin::ToString) }
    else { None }
}

fn arity(b: Builtin) -> (r: usize)
    ensures
        r == arity_of(b),
{
    match b {
        Builtin::Append | Builtin::Assert | Builtin::Print => 2,
        Builtin::SubSeq => 3,
        _ => 1,
    }
}

/// What a standard operator gives for the given arguments: an error for a
/// name that is none, for the wrong number of arguments and for arguments of
/// the wrong kind. What `ToString` writes is not claimed.
pub open spec fn builtin_meaning(name: Seq<char>, vs: Seq<VV>) -> Option<Result<VV, ()>> {
    match builtin_named(name) {
        None => Some(Err(())),
        Some(b) => if arity_of(b) != vs.len() {
            Some(Err(()))
        } else {
            match b {
                Builtin::Cardinality => match vs[0] {
                    VV::FiniteSet(items) => if items.len() <= i64::MAX {
                        Some(Ok(VV::Int(items.len() as int)))
                    } else {
                        Some(Err(()))
                    },
                    _ => Some(Err(())),
                },
                Builtin::IsFiniteSet => match vs[0] {
                    VV::FiniteSet(_) => Some(Ok(VV::Bool(true))),
                    VV::Nat | VV::Ints | VV::Strings | VV::Sequences(_) => Some(Ok(VV::Bool(false))),
                    _ => Some(Err(())),
                },
                Builtin::Len => match vs[0] {
                    VV::Sequence(items) => if items.len() <= i64::MAX {
                        Some(Ok(VV::Int(items.len() as int)))
                    } else {
                        Some(Err(()))
                    },
                    _ => Some(Err(())),
                },
                Builtin::Head => match vs[0] {
                    VV::Sequence(items) => if items.len() > 0 { Some(Ok(items[0])) } else { Some(Err(())) },
                    _ => Some(Err(())),
                },
                Builtin::Tail => match vs[0] {
                    VV::Sequence(items) => if items.len() > 0 {
                        Some(Ok(VV::Sequence(items.drop_first())))
                    } else {
                        Some(Err(()))
                    },
                    _ => Some(Err(())),
                },
                Builtin::Append => match vs[0] {
                    VV::Sequence(items) => Some(Ok(VV::Sequence(items.push(vs[1])))),
                    _ => Some(Err(())),
                },
                Builtin::SubSeq => match (vs[0], vs[1], vs[2]) {
                    (VV::Sequence(items), VV::Int(m), VV::Int(n)) => Some(Ok(VV::Sequence(subseq_of(items, m, n)))),
                    _ => Some(Err(())),
                },
                Builtin::SeqOf => match vs[0] {
                    VV::FiniteSet(_) | VV::Nat | VV::Ints | VV::Strings | VV::Sequences(_) =>
                        Some(Ok(VV::Sequences(Box::new(vs[0])))),
                    _ => Some(Err(())),
                },
                Builtin::Assert => if vs[0] == VV::Bool(true) { Some(Ok(VV::Bool(true))) } else { Some(Err(())) },
                Builtin::Print => Some(Ok(vs[1])),
                Builtin::PrintT => Some(Ok(VV::Bool(true))),
                Builtin::ToString => None,
            }
        },
    }
}

/// What a call of a standard operator returned agrees with what it gives.
pub proof fn lemma_call_meaning(name: Seq<char>, args: Seq<Value>, r: Result<Value, Error>)
    requires
        builtin_named(name) is None ==> (r matches Err(e) && e is Undefined),
        builtin_named(name) matches Some(b) && arity_of(b) != args.len() ==> (r matches Err(e) && e is Malformed),
        builtin_named(name) == Some(Builtin::Cardinality) && args.len() == 1 ==> (r is Ok <==> (args[0] is FiniteSet && args[0]->FiniteSet_0.len() <= i64::MAX))
            && (r matches Ok(v) ==> v@ == VV::Int(args[0]->FiniteSet_0.len() as int)),
        builtin_named(name) == Some(Builtin::IsFiniteSet) && args.len() == 1 ==> (r is Ok <==> (args[0] is FiniteSet || args[0] is Infinite))
            && (r matches Ok(v) ==> v@ == VV::Bool(args[0] is FiniteSet)),
        builtin_named(name) == Some(Builtin::Len) && args.len() == 1 ==> (r is Ok <==> (args[0] is Sequence && args[0]->Sequence_0.len() <= i64::MAX))
            && (r matches Ok(v) ==> v@ == VV::Int(args[0]->Sequence_0.len() as int)),
        builtin_named(name) == Some(Builtin::Head) && args.len() == 1 ==> (r is Ok <==> (args[0] is Sequence && args[0]->Sequence_0.len() > 0))
            && (r matches Ok(v) ==> v@ == args[0]@->Sequence_0[0]),
        builtin_named(name) == Some(Builtin::Tail) && args.len() == 1 ==> (r is Ok <==> (args[0] is Sequence && args[0]->Sequence_0.len() > 0))
            && (r matches Ok(v) ==> v@ == VV::Sequence(args[0]@->Sequence_0.drop_first())),
        builtin_named(name) == Some(Builtin::Append) && args.len() == 2 ==> (r is Ok <==> args[0] is Sequence)
            && (r matches Ok(v) ==> v@ == VV::Sequence(args[0]@->Sequence_0.push(args[1]@))),
        builtin_named(name) == Some(Builtin::SubSeq) && args.len() == 3 ==> (r is Ok <==> (args[0] is Sequence && args[1] is Int && args[2] is Int))
            && (r matches Ok(v) ==> v@ == VV::Sequence(subseq_of(args[0]@->Sequence_0,
                args[1]->Int_0 as int, args[2]->Int_0 as int))),
        builtin_named(name) == Some(Builtin::SeqOf) && args.len() == 1 ==> (r is Ok <==> (args[0] is FiniteSet || args[0] is Infinite))
            && (r matches Ok(v) ==> v@ == VV::Sequences(Box::new(args[0]@))),
        builtin_named(name) == Some(Builtin::Assert) && args.len() == 2 ==> (r is Ok <==> args[0]@ == VV::Bool(true))
            && (r matches Ok(v) ==> v@ == VV::Bool(true)),
        builtin_named(name) == Some(Builtin::Print) && args.len() == 2 ==> (r matches Ok(v) && v@ == args[1]@),
        builtin_named(name) == Some(Builtin::PrintT) && args.len() == 1 ==> (r matches Ok(v) && v@ == VV::Bool(true)),
    ensures
        match builtin_meaning(name, view_list(args)) {
            Some(Ok(v)) => r is Ok && r->Ok_0@ == v,
            Some(Err(_)) => r is Err,
            None => true,
        },
{
    lemma_view_list_len(args);
    if args.len() > 0 {
        match args[0] {
            Value::FiniteSet(items) => lemma_view_list_len(items@),
            Value::Sequence(items) => lemma_view_list_len(items@),
            _ => {},
        }
    }
}

/// `SubSeq(s, m, n)`: the items from position `m` to `n`, both counted from
/// one, with the bounds clamped to the sequence; empty when they cross.
pub open spec fn subseq_of(s: Seq<VV>, m: int, n: int) -> Seq<VV> {
    let lo = if m < 1 { 1 } else { m };
    let hi = if n > s.len() { s.len() as int } else { n };
    if lo > hi { Seq::empty() } else { s.subrange(lo - 1, hi) }
}

/// Apply an operator of a standard module.
pub fn call(name: &str, args: &Vec<Value>) -> (r: Result<Value, Error>)
    ensures
        builtin_named(name@) is None ==> (r matches Err(e) && e is Undefined),
        builtin_named(name@) matches Some(b) && arity_of(b) != args.len() ==> (r matches Err(e) && e is Malformed),
        builtin_named(name@) == Some(Builtin::Cardinality) && args.len() == 1 ==> (r is Ok <==> (args@[0] is FiniteSet && args@[0]->FiniteSet_0.len() <= i64::MAX))
            && (r matches Ok(v) ==> v@ == VV::Int(args@[0]->FiniteSet_0.len() as int))
            && (args@[0] is Infinite ==> (r matches Err(e) && e is Unbounded)),
        builtin_named(name@) == Some(Builtin::IsFiniteSet) && args.len() == 1 ==> (r is Ok <==> (args@[0] is FiniteSet || args@[0] is Infinite))
            && (r matches Ok(v) ==> v@ == VV::Bool(args@[0] is FiniteSet)),
        builtin_named(name@) == Some(Builtin::Len) && args.len() == 1 ==> (r is Ok <==> (args@[0] is Sequence && args@[0]->Sequence_0.len() <= i64::MAX))
            && (r matches Ok(v) ==> v@ == VV::Int(args@[0]->Sequence_0.len() as int)),
        builtin_named(name@) == Some(Builtin::Head) && args.len() == 1 ==> (r is Ok <==> (args@[0] is Sequence && args@[0]->Sequence_0.len() > 0))
            && (r matches Ok(v) ==> v@ == args@[0]@->Sequence_0[0]),
        builtin_named(name@) == Some(Builtin::Tail) && args.len() == 1 ==> (r is Ok <==> (args@[0] is Sequence && args@[0]->Sequence_0.len() > 0))
            && (r matches Ok(v) ==> v@ == VV::Sequence(args@[0]@->Sequence_0.drop_first())),
        builtin_named(name@) == Some(Builtin::Append) && args.len() == 2 ==> (r is Ok <==> args@[0] is Sequence)
            && (r matches Ok(v) ==> v@ == VV::Sequence(args@[0]@->Sequence_0.push(args@[1]@))),
        builtin_named(name@) == Some(Builtin::SubSeq) && args.len() == 3 ==> (r is Ok <==> (args@[0] is Sequence && args@[1] is Int && args@[2] is Int))
            && (r matches Ok(v) ==> v@ == VV::Sequence(subseq_of(args@[0]@->Sequence_0,
                args@[1]->Int_0 as int, args@[2]->Int_0 as int))),
        builtin_named(name@) == Some(Builtin::SeqOf) && args.len() == 1 ==> (r is Ok <==> (args@[0] is FiniteSet || args@[0] is Infinite))
            && (r matches Ok(v) ==> v@ == VV::Sequences(Box::new(args@[0]@))),
        builtin_named(name@) == Some(Builtin::Assert) && args.len() == 2 ==> (r is Ok <==> args@[0]@ == VV::Bool(true))
            && (r matches Ok(v) ==> v@ == VV::Bool(true)),
        builtin_named(name@) == Some(Builtin::Print) && args.len() == 2 ==> (r matches Ok(v) && v@ == args@[1]@),
        builtin_named(name@) == Some(Builtin::PrintT) && args.len() == 1 ==> (r matches Ok(v) && v@ == VV::Bool(true)),
        builtin_named(name@) == Some(Builtin::ToString) && args.len() == 1 ==> (r matches Ok(v) && v is Str),
{
    let op = match lookup(name) {
        Some(op) => op,
        None => return Err(Error::Undefined(text(name))),
    };
    let wanted = arity(op);
    if wanted != args.len() {
        let mut m = text("`");
        append(&mut m, name);
        append(&mut m, "` takes ");
        push_int(&mut m, wanted as i64);
        append(&mut m, " argument(s), given ");
        if args.len() <= i64::MAX as usize {
            push_int(&mut m, args.len() as i64);
        }
        return Err(Error::Malformed(m));
    }
    let a = &args[0];
    if op == Builtin::Cardinality {
        return match a {
            Value::FiniteSet(items) => {
                if (items.len() as u64) > (i64::MAX as u64) {
                    return Err(Error::Unbounded(text("a set too large to count")));
                }
                Ok(Value::Int(count(items.len())))
            },
            Value::Infinite(_) => Err(Error::Unbounded(about("Cardinality of ", a, ", an infinite set"))),
            other => Err(Error::Type(about("Cardinality of ", other, ", which is not a set"))),
        };
    }
    if op == Builtin::IsFiniteSet {
        return match a {
            Value::FiniteSet(_) => Ok(Value::Bool(true)),
            Value::Infinite(_) => Ok(Value::Bool(false)),
            other => Err(Error::Type(about("IsFiniteSet of ", other, ", which is not a set"))),
        };
    }
    if op == Builtin::Len {
        return match a {
            Value::Sequence(items) => {
                if (items.len() as u64) > (i64::MAX as u64) {
                    return Err(Error::Unbounded(text("a sequence too long to measure")));
                }
                Ok(Value::Int(count(items.len())))
            },
            other => Err(Error::Type(about("Len of ", other, ", which is not a sequence"))),
        };
    }
    if op == Builtin::Head {
        return match a {
            Value::Sequence(items) => {
                if items.len() == 0 {
                    return Err(Error::Type(text("Head of the empty sequence")));
                }
                proof { lemma_view_list_len(items@); }
                Ok(copy(&items[0]))
            },
            other => Err(Error::Type(about("Head of ", other, ", which is not a sequence"))),
        };
    }
    if op == Builtin::Tail {
        return match a {
            Value::Sequence(items) => {
                if items.len() == 0 {
                    return Err(Error::Type(text("Tail of the empty sequence")));
                }
                let out = slice(items, 1, items.len());
                proof {
                    lemma_view_list_len(items@);
                    assert(view_list(items@).subrange(1, items.len() as int) =~= view_list(items@).drop_first());
                }
                Ok(Value::Sequence(out))
            },
            other => Err(Error::Type(about("Tail of ", other, ", which is not a sequence"))),
        };
    }
    if op == Builtin::Append {
        return match a {
            Value::Sequence(items) => {
                let mut out = copy_list(items);
                let ghost before = out@;
                out.push(copy(&args[1]));
                proof {
                    assert(out@ == before.push(out@.last()));
                    lemma_view_list_push(before, out@.last());
                }
                Ok(Value::Sequence(out))
            },
            other => Err(Error::Type(about("Append to ", other, ", which is not a sequence"))),
        };
    }
    if op == Builtin::SubSeq {
        return match (a, &args[1], &args[2]) {
            (Value::Sequence(items), Value::Int(m), Value::Int(n)) => {
                let len = items.len();
                let lo: i128 = if *m < 1 { 1 } else { *m as i128 };
                let hi: i128 = if (*n as i128) > (len as i128) { len as i128 } else { *n as i128 };
                proof { lemma_view_list_len(items@); }
                if lo > hi {
                    proof { assert(view_list(Seq::<Value>::empty()) =~= subseq_of(view_list(items@), *m as int, *n as int)); }
                    return Ok(Value::Sequence(Vec::new()));
                }
                let out = slice(items, (lo - 1) as usize, hi as usize);
                proof { assert(view_list(items@).subrange(lo - 1, hi as int) =~= subseq_of(view_list(items@), *m as int, *n as int)); }
                Ok(Value::Sequence(out))
            },
            _ => Err(Error::Type(text("SubSeq expects a sequence and two integers"))),
        };
    }
    if op == Builtin::SeqOf {
        return match a {
            Value::FiniteSet(_) | Value::Infinite(_) => Ok(Value::Infinite(Infinite::Sequences(Box::new(copy(a))))),
            other => Err(Error::Type(about("Seq of ", other, ", which is not a set"))),
        };
    }
    if op == Builtin::Assert {
        return match a {
            Value::Bool(true) => Ok(Value::Bool(true)),
            _ => {
                let mut m = text("assertion failed: ");
                match &args[1] {
                    Value::Str(s) => append(&mut m, s.as_str()),
                    other => append(&mut m, other.to_string().as_str()),
                }
                Err(Error::Malformed(m))
            },
        };
    }
    if op == Builtin::Print {
        return Ok(copy(&args[1]));
    }
    if op == Builtin::PrintT {
        return Ok(Value::Bool(true));
    }
    Ok(Value::Str(a.to_string()))
}

/// The items from `start` up to `end`, excluded.
fn slice(items: &Vec<Value>, start: usize, end: usize) -> (r: Vec<Value>)
    requires
        start <= end <= items.len(),
    ensures
        view_list(r@) == view_list(items@).subrange(start as int, end as int),
{
    let mut out: Vec<Value> = Vec::new();
    let mut i: usize = start;
    proof { lemma_view_list_len(items@); }
    while i < end
        invariant
            start <= i <= end <= items.len(),
            view_list(items@).len() == items.len(),
            forall|k: int| 0 <= k < items.len() ==> #[trigger] view_list(items@)[k] == items@[k]@,
            view_list(out@) == view_list(items@).subrange(start as int, i as int),
        decreases end - i,
    {
        let ghost before = out@;
        out.push(copy(&items[i]));
        proof {
            assert(out@ == before.push(out@.last()));
            lemma_view_list_push(before, out@.last());
            assert(view_list(out@) =~= view_list(items@).subrange(start as int, i + 1));
        }
        i = i + 1;
    }
    out
}

} // verus!
