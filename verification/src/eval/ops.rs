//! The operators whose meaning depends only on their operands' values.

use vstd::prelude::*;
use vstd::arithmetic::power::pow;
use crate::eval::error::Error;
use crate::eval::value::{
    compare, copy, copy_list, holds, insert_sorted, lemma_vorder_zero, sorted, value_text, view_list, view_of,
    view_pairs, Infinite, Rel, Value, VV,
};
use crate::syntax::token::Op;
use crate::eval::graph::{graph, is_function, lemma_holds_view, lemma_set_from, lookup, set_from, values_sorted};
use crate::eval::evaluator::{agrees, function_from};
use crate::text::{append, int_digits, push_int, text};

verus! {

/// Nothing enumerable is materialized beyond this many elements. The bound
/// exists so a `SUBSET` or `[S -> T]` over an unexpectedly large set reports
/// a limit instead of exhausting memory.
pub const MAX_ELEMENTS: usize = 1048576;

/// A message made of a text, a value, and a second text.
pub fn about(before: &str, v: &Value, after: &str) -> (m: String)
    ensures
        m@ == before@ + crate::eval::value::value_text(v@) + after@,
{
    let mut m = text(before);
    append(&mut m, v.to_string().as_str());
    append(&mut m, after);
    m
}

/// Are the two values equal?
pub fn equal(a: &Value, b: &Value) -> (r: bool)
    ensures
        r == (a@ == b@),
{
    proof { lemma_vorder_zero(a@, b@); }
    match compare(a, b) {
        Rel::Equal => true,
        _ => false,
    }
}

pub fn as_int(v: &Value) -> (r: Result<i64, Error>)
    ensures
        r matches Ok(n) ==> v@ == VV::Int(n as int),
        r is Ok <==> v@ is Int,
        r matches Err(e) ==> e is Type,
{
    match v {
        Value::Int(n) => Ok(*n),
        other => Err(Error::Type(about("expected an integer, got ", other, ""))),
    }
}

pub fn as_bool(v: &Value) -> (r: Result<bool, Error>)
    ensures
        r matches Ok(b) ==> v@ == VV::Bool(b),
        r is Ok <==> v@ is Bool,
        r matches Err(e) ==> e is Type,
{
    match v {
        Value::Bool(b) => Ok(*b),
        other => Err(Error::Type(about("expected a boolean, got ", other, ""))),
    }
}

/// The members of a finite set. An infinite set cannot take part in a set
/// operation; anything else is not a set at all.
pub fn set_items(v: &Value) -> (r: Result<&Vec<Value>, Error>)
    ensures
        r matches Ok(items) ==> *v == Value::FiniteSet(*items),
        r is Ok <==> v is FiniteSet,
        r matches Err(e) ==> (v is Infinite ==> e is Unbounded) && (!(v is Infinite) ==> e is Type),
{
    match v {
        Value::FiniteSet(items) => Ok(items),
        Value::Infinite(_) => Err(Error::Unbounded(about("", v, " cannot take part in a set operation"))),
        other => {
            let mut m = text("expected a set, got ");
            append(&mut m, other.kind_name());
            append(&mut m, " (");
            append(&mut m, other.to_string().as_str());
            append(&mut m, ")");
            Err(Error::Type(m))
        },
    }
}

/// Every member of a set, for the operations that have to visit them all.
/// Membership of an infinite set is decidable where enumeration is not, so
/// the two failures are reported differently.
pub fn elements(v: &Value) -> (r: Result<Vec<Value>, Error>)
    ensures
        r matches Ok(items) ==> v matches Value::FiniteSet(s) && view_list(items@) == view_list(s@),
        r is Ok <==> v is FiniteSet,
        r matches Err(e) ==> (v is Infinite ==> e is Unbounded) && (!(v is Infinite) ==> e is Type),
{
    if let Value::Infinite(_) = v {
        return Err(Error::Unbounded(about("", v, " cannot be enumerated")));
    }
    let items = set_items(v)?;
    Ok(copy_list(items))
}

/// Is `x` among the items?
pub fn contains(items: &Vec<Value>, x: &Value) -> (r: bool)
    ensures
        r == holds(items@, x@),
{
    let mut i: usize = 0;
    while i < items.len()
        invariant
            i <= items.len(),
            forall|k: int| 0 <= k < i ==> view_of(#[trigger] items@[k]) != x@,
        decreases items.len() - i,
    {
        if equal(&items[i], x) {
            return true;
        }
        i = i + 1;
    }
    false
}

/// `Nat` is the non-negative integers: an integer is a member exactly when
/// it is at least zero, nothing but an integer is, and every natural is an
/// integer.
pub proof fn law_nat_is_the_non_negative_integers(e: VV)
    ensures
        e matches VV::Int(n) ==> member_of(e, VV::Nat) == Some(n >= 0),
        !(e is Int) ==> member_of(e, VV::Nat) == Some(false),
        member_of(e, VV::Nat) == Some(true) ==> member_of(e, VV::Ints) == Some(true),
        member_of(VV::Int(0), VV::Nat) == Some(true),
        member_of(VV::Int(-1), VV::Nat) == Some(false),
{
}

/// `Int` holds exactly the integers, `STRING` exactly the strings, and a
/// finite set exactly its members: membership is decided for each of them.
pub proof fn law_membership_of_the_standard_sets(e: VV, items: Seq<VV>)
    ensures
        member_of(e, VV::Ints) == Some(e is Int),
        member_of(e, VV::Strings) == Some(e is Str),
        member_of(e, VV::FiniteSet(items)) == Some(items.contains(e)),
        member_of(e, VV::Nat) == Some(true) ==> member_of(e, VV::Ints) == Some(true),
{
}

/// Membership, where it is decided: `Some(b)`, or `None` when the right-hand
/// side is not a set.
pub open spec fn member_of(e: VV, s: VV) -> Option<bool>
    decreases s, 0nat,
{
    match s {
        VV::FiniteSet(items) => Some(items.contains(e)),
        VV::Nat => Some(e matches VV::Int(n) && n >= 0),
        VV::Ints => Some(e is Int),
        VV::Strings => Some(e is Str),
        VV::Sequences(of) => match e {
            VV::Sequence(xs) => all_members(xs, *of),
            _ => Some(false),
        },
        _ => None,
    }
}

/// Are all of `xs` members of `of`? Decided item by item, so the first
/// item that is not a member settles it.
pub open spec fn all_members(xs: Seq<VV>, of: VV) -> Option<bool>
    decreases of, xs.len() + 1,
{
    if xs.len() == 0 {
        Some(true)
    } else {
        match member_of(xs[0], of) {
            None => None,
            Some(false) => Some(false),
            Some(true) => all_members(xs.drop_first(), of),
        }
    }
}

proof fn lemma_holds_contains(items: Seq<Value>, x: VV)
    ensures
        holds(items, x) == view_list(items).contains(x),
{
    crate::eval::value::lemma_view_list_len(items);
    if view_list(items).contains(x) {
        let i = choose|i: int| 0 <= i < view_list(items).len() && view_list(items)[i] == x;
        assert(view_of(items[i]) == x);
    }
    if holds(items, x) {
        let i = choose|i: int| 0 <= i < items.len() && #[trigger] view_of(items[i]) == x;
        assert(view_list(items)[i] == x);
    }
}

/// `e \in s`.
pub fn member(e: &Value, s: &Value) -> (r: Result<bool, Error>)
    ensures
        r matches Ok(b) ==> member_of(e@, s@) == Some(b),
        r is Err ==> member_of(e@, s@) is None,
    decreases s, 0nat,
{
    match s {
        Value::FiniteSet(items) => {
            proof { lemma_holds_contains(items@, e@); }
            Ok(contains(items, e))
        },
        Value::Infinite(Infinite::Nat) => Ok(match e { Value::Int(n) => *n >= 0, _ => false }),
        Value::Infinite(Infinite::Int) => Ok(matches!(e, Value::Int(_))),
        Value::Infinite(Infinite::Strings) => Ok(matches!(e, Value::Str(_))),
        Value::Infinite(Infinite::Sequences(of)) => match e {
            Value::Sequence(items) => {
                proof { assert(decreases_to!(*s => **of)); }
                members_of_all(items, of)
            },
            _ => Ok(false),
        },
        other => Err(Error::Type(about("\\in expects a set on the right, got ", other, ""))),
    }
}

fn members_of_all(items: &Vec<Value>, of: &Value) -> (r: Result<bool, Error>)
    ensures
        r matches Ok(b) ==> all_members(view_list(items@), of@) == Some(b),
        r is Err ==> all_members(view_list(items@), of@) is None,
    decreases of, 1nat,
{
    let mut i: usize = 0;
    proof {
        crate::eval::value::lemma_view_list_len(items@);
        assert(view_list(items@).skip(0) =~= view_list(items@));
    }
    while i < items.len()
        invariant
            i <= items.len(),
            view_list(items@).len() == items.len(),
            forall|k: int| 0 <= k < items.len() ==> #[trigger] view_list(items@)[k] == view_of(items@[k]),
            all_members(view_list(items@), of@) == all_members(view_list(items@).skip(i as int), of@),
        decreases items.len() - i,
    {
        let ghost rest = view_list(items@).skip(i as int);
        assert(rest[0] == view_of(items@[i as int]));
        assert(rest.drop_first() =~= view_list(items@).skip(i + 1));
        if !member(&items[i], of)? {
            return Ok(false);
        }
        i = i + 1;
    }
    assert(view_list(items@).skip(i as int).len() == 0);
    Ok(true)
}

/// Add every one of `items` to the sorted list `out`.
pub fn insert_all(out: &mut Vec<Value>, b: &Vec<Value>)
    ensures
        forall|y: VV| #[trigger] holds(final(out)@, y) <==> (holds(old(out)@, y) || holds(b@, y)),
        sorted(old(out)@) ==> sorted(final(out)@),
{
    let ghost a = out@;
    let mut i: usize = 0;
    while i < b.len()
        invariant
            i <= b.len(),
            forall|y: VV| #[trigger] holds(out@, y) <==> (holds(a, y) || holds(b@.take(i as int), y)),
            sorted(a) ==> sorted(out@),
        decreases b.len() - i,
    {
        insert_sorted(out, copy(&b[i]));
        proof {
            assert forall|y: VV| #[trigger] holds(b@.take(i + 1), y) <==> (holds(b@.take(i as int), y) || y == b@[i as int]@) by {
                if holds(b@.take(i + 1), y) {
                    let k = choose|k: int| 0 <= k < i + 1 && #[trigger] view_of(b@.take(i + 1)[k]) == y;
                    if k < i {
                        assert(view_of(b@.take(i as int)[k]) == y);
                    }
                }
                if holds(b@.take(i as int), y) {
                    let k = choose|k: int| 0 <= k < i && #[trigger] view_of(b@.take(i as int)[k]) == y;
                    assert(view_of(b@.take(i + 1)[k]) == y);
                }
                if y == b@[i as int]@ {
                    assert(view_of(b@.take(i + 1)[i as int]) == y);
                }
            }
        }
        i = i + 1;
    }
    proof { assert(b@.take(b.len() as int) =~= b@); }
}

/// `a \cup b`.
pub fn union(a: &Vec<Value>, b: &Vec<Value>) -> (r: Vec<Value>)
    ensures
        forall|y: VV| #[trigger] holds(r@, y) <==> (holds(a@, y) || holds(b@, y)),
        sorted(r@),
{
    let mut out: Vec<Value> = Vec::new();
    insert_all(&mut out, a);
    insert_all(&mut out, b);
    out
}

/// The members of `a` for which membership of `b` is `keep`: `a \cap b`
/// when `keep` holds, `a \ b` otherwise.
pub fn filter_by(a: &Vec<Value>, b: &Vec<Value>, keep: bool) -> (r: Vec<Value>)
    ensures
        forall|y: VV| #[trigger] holds(r@, y) <==> (holds(a@, y) && holds(b@, y) == keep),
        sorted(r@),
{
    let mut out: Vec<Value> = Vec::new();
    let mut i: usize = 0;
    while i < a.len()
        invariant
            i <= a.len(),
            forall|y: VV| #[trigger] holds(out@, y) <==> (holds(a@.take(i as int), y) && holds(b@, y) == keep),
            sorted(out@),
        decreases a.len() - i,
    {
        let inside = contains(b, &a[i]);
        if inside == keep {
            insert_sorted(&mut out, copy(&a[i]));
        }
        proof {
            assert forall|y: VV| #[trigger] holds(a@.take(i + 1), y) <==> (holds(a@.take(i as int), y) || y == a@[i as int]@) by {
                if holds(a@.take(i + 1), y) {
                    let k = choose|k: int| 0 <= k < i + 1 && #[trigger] view_of(a@.take(i + 1)[k]) == y;
                    if k < i {
                        assert(view_of(a@.take(i as int)[k]) == y);
                    }
                }
                if holds(a@.take(i as int), y) {
                    let k = choose|k: int| 0 <= k < i && #[trigger] view_of(a@.take(i as int)[k]) == y;
                    assert(view_of(a@.take(i + 1)[k]) == y);
                }
                if y == a@[i as int]@ {
                    assert(view_of(a@.take(i + 1)[i as int]) == y);
                }
            }
        }
        i = i + 1;
    }
    proof { assert(a@.take(a.len() as int) =~= a@); }
    out
}

/// Report a count over the limit of what is materialized.
pub fn check_size(count: usize, what: &str) -> (r: Result<(), Error>)
    ensures
        r is Ok <==> count <= MAX_ELEMENTS,
        r matches Err(e) ==> e is Unbounded,
{
    if count > MAX_ELEMENTS {
        let mut m = text(what);
        append(&mut m, " would have ");
        push_int(&mut m, count as i64);
        append(&mut m, " elements, over the ");
        push_int(&mut m, MAX_ELEMENTS as i64);
        append(&mut m, " limit");
        return Err(Error::Unbounded(m));
    }
    Ok(())
}

/// `Some(x)` when `x` fits in an `i64`.
pub open spec fn fits(x: int) -> Option<int> {
    if i64::MIN <= x <= i64::MAX { Some(x) } else { None }
}

/// What an arithmetic operator gives on two integers, where it is defined:
/// `\div` and `%` are Euclidean, and nothing may leave the 64-bit range.
pub open spec fn arith_of(op: Op, a: int, b: int) -> Option<int> {
    match op {
        Op::Plus => fits(a + b),
        Op::Minus => fits(a - b),
        Op::Times => fits(a * b),
        Op::Div => if b == 0 { None } else { fits(a / b) },
        Op::Mod => if b == 0 || (a == i64::MIN && b == -1) { None } else { fits(a % b) },
        _ => None,
    }
}

fn arith(a: &Value, b: &Value, op: Op, name: &str) -> (r: Result<Value, Error>)
    requires
        op == Op::Plus || op == Op::Minus || op == Op::Times || op == Op::Div || op == Op::Mod,
    ensures
        r matches Ok(v) ==> a@ matches VV::Int(x) && b@ matches VV::Int(y)
            && arith_of(op, x, y) == Some(v@->Int_0) && v is Int,
        (a@ matches VV::Int(x) && b@ matches VV::Int(y) && arith_of(op, x, y) is Some) ==> r is Ok,
        r matches Err(e) ==> e is Type,
        a is Int && b is Int ==> (r matches Err(Error::Type(m))
            ==> m@ == value_text(a@) + " "@ + name@ + " "@ + value_text(b@) + " is undefined or overflows"@),
{
    let x = as_int(a)?;
    let y = as_int(b)?;
    let out = match op {
        Op::Plus => x.checked_add(y),
        Op::Minus => x.checked_sub(y),
        Op::Times => x.checked_mul(y),
        Op::Div => x.checked_div_euclid(y),
        _ => x.checked_rem_euclid(y),
    };
    match out {
        Some(v) => Ok(Value::Int(v)),
        None => {
            let mut m = String::new();
            append(&mut m, a.to_string().as_str());
            append(&mut m, " ");
            append(&mut m, name);
            append(&mut m, " ");
            append(&mut m, b.to_string().as_str());
            append(&mut m, " is undefined or overflows");
            Err(Error::Type(m))
        },
    }
}

pub open spec fn abs(x: int) -> int {
    if x < 0 { -x } else { x }
}

proof fn lemma_pow_step(a: int, n: nat)
    ensures
        pow(a, n + 1) == pow(a, n) * a,
        abs(pow(a, n + 1)) == abs(pow(a, n)) * abs(a),
{
    vstd::arithmetic::power::lemma_pow_adds(a, n, 1);
    vstd::arithmetic::power::lemma_pow1(a);
    let p = pow(a, n);
    assert(abs(p * a) == abs(p) * abs(a)) by (nonlinear_arith);
}

proof fn lemma_pow_abs_grows(a: int, n: nat)
    requires
        abs(a) >= 2,
    ensures
        abs(pow(a, n + 1)) >= 2 * abs(pow(a, n)),
        abs(pow(a, n)) >= 1,
    decreases n,
{
    lemma_pow_step(a, n);
    if n == 0 {
        vstd::arithmetic::power::lemma_pow0(a);
    } else {
        lemma_pow_abs_grows(a, (n - 1) as nat);
    }
    let p = abs(pow(a, n));
    let q = abs(a);
    assert(p * q >= 2 * p) by (nonlinear_arith) requires p >= 0, q >= 2;
}

proof fn lemma_pow_abs_mono(a: int, i: nat, j: nat)
    requires
        abs(a) >= 2,
        i <= j,
    ensures
        abs(pow(a, i)) <= abs(pow(a, j)),
    decreases j - i,
{
    if i < j {
        lemma_pow_abs_mono(a, i, (j - 1) as nat);
        lemma_pow_abs_grows(a, (j - 1) as nat);
    }
}

proof fn lemma_pow_unit(a: int, e: nat)
    requires
        a == 0 || a == 1 || a == -1,
    ensures
        e == 0 ==> pow(a, e) == 1,
        e > 0 && a == 0 ==> pow(a, e) == 0,
        a == 1 ==> pow(a, e) == 1,
        a == -1 ==> pow(a, e) == if e % 2 == 0 { 1int } else { -1int },
    decreases e,
{
    if e == 0 {
        vstd::arithmetic::power::lemma_pow0(a);
    } else {
        lemma_pow_unit(a, (e - 1) as nat);
        lemma_pow_step(a, (e - 1) as nat);
    }
}

/// `a ^ e`, where it fits in an `i64`.
fn power(a: i64, e: u32) -> (r: Option<i64>)
    ensures
        r matches Some(v) ==> v == pow(a as int, e as nat),
        r is None <==> fits(pow(a as int, e as nat)) is None,
{
    if a == 0 || a == 1 || a == -1 {
        proof { lemma_pow_unit(a as int, e as nat); }
        if e == 0 || a == 1 {
            return Some(1);
        } else if a == 0 {
            return Some(0);
        } else if e % 2 == 0 {
            return Some(1);
        } else {
            return Some(-1);
        }
    }
    let mut acc: i64 = 1;
    let mut k: u32 = 0;
    proof { vstd::arithmetic::power::lemma_pow0(a as int); }
    while k < e
        invariant
            k <= e,
            abs(a as int) >= 2,
            acc == pow(a as int, k as nat),
        decreases e - k,
    {
        proof { lemma_pow_step(a as int, k as nat); }
        match acc.checked_mul(a) {
            Some(next) => acc = next,
            None => {
                proof {
                    let x = pow(a as int, (k + 1) as nat);
                    assert(abs(x) >= 0x8000_0000_0000_0000);
                    if k + 1 < e {
                        lemma_pow_abs_grows(a as int, (k + 1) as nat);
                        lemma_pow_abs_mono(a as int, (k + 2) as nat, e as nat);
                    }
                }
                return None;
            },
        }
        k = k + 1;
    }
    Some(acc)
}

/// `a ^ b`: the exponent must be a natural number that fits in 32 bits.
fn raise(a: &Value, b: &Value) -> (r: Result<Value, Error>)
    ensures
        r matches Ok(v) ==> a@ matches VV::Int(x) && b@ matches VV::Int(y) && 0 <= y <= u32::MAX
            && v@ == VV::Int(pow(x, y as nat)),
        (a@ matches VV::Int(x) && b@ matches VV::Int(y) && 0 <= y <= u32::MAX
            && fits(pow(x, y as nat)) is Some) ==> r is Ok,
        r matches Err(e) ==> e is Type,
        (a@ matches VV::Int(x) && b@ matches VV::Int(y) && 0 <= y <= u32::MAX && fits(pow(x, y as nat)) is None)
            ==> (r matches Err(Error::Type(m)) && m@ == "^ overflowed"@),
        (a@ matches VV::Int(x) && b@ matches VV::Int(y) && !(0 <= y <= u32::MAX))
            ==> (r matches Err(Error::Type(m)) && m@ == "exponent out of range"@),
        agrees(r, combine_of(Op::Pow, a@, b@)),
{
    let base = as_int(a)?;
    let exponent = as_int(b)?;
    if exponent < 0 || exponent > 4294967295 {
        return Err(Error::Type(text("exponent out of range")));
    }
    match power(base, exponent as u32) {
        Some(v) => Ok(Value::Int(v)),
        None => Err(Error::Type(text("^ overflowed"))),
    }
}

/// The pair `<<x, y>>`.
pub open spec fn pair_of(x: VV, y: VV) -> VV {
    VV::Sequence(seq![x, y])
}

/// The set of pairs `<<x, y>>` with `x` from `a` and `y` from `b`.
fn cartesian(a: &Vec<Value>, b: &Vec<Value>) -> (r: Vec<Value>)
    ensures
        sorted(r@),
        forall|p: VV| #[trigger] holds(r@, p) ==> p is Sequence && p->Sequence_0.len() == 2
            && holds(a@, p->Sequence_0[0]) && holds(b@, p->Sequence_0[1]),
        forall|x: VV, y: VV| #[trigger] holds(r@, pair_of(x, y)) <==> (holds(a@, x) && holds(b@, y)),
{
    let mut out: Vec<Value> = Vec::new();
    let mut i: usize = 0;
    while i < a.len()
        invariant
            i <= a.len(),
            sorted(out@),
            forall|p: VV| #[trigger] holds(out@, p) ==> p is Sequence && p->Sequence_0.len() == 2
                && holds(a@, p->Sequence_0[0]) && holds(b@, p->Sequence_0[1]),
            forall|ii: int, jj: int| 0 <= ii < i && 0 <= jj < b.len()
                ==> #[trigger] holds(out@, pair_of(a@[ii]@, b@[jj]@)),
        decreases a.len() - i,
    {
        let mut j: usize = 0;
        while j < b.len()
            invariant
                i < a.len(),
                j <= b.len(),
                sorted(out@),
                forall|p: VV| #[trigger] holds(out@, p) ==> p is Sequence && p->Sequence_0.len() == 2
                    && holds(a@, p->Sequence_0[0]) && holds(b@, p->Sequence_0[1]),
                forall|ii: int, jj: int| ((0 <= ii < i && 0 <= jj < b.len()) || (ii == i && 0 <= jj < j))
                    ==> #[trigger] holds(out@, pair_of(a@[ii]@, b@[jj]@)),
            decreases b.len() - j,
        {
            let mut pair: Vec<Value> = Vec::new();
            pair.push(copy(&a[i]));
            pair.push(copy(&b[j]));
            let ghost p = Value::Sequence(pair)@;
            proof {
                crate::eval::value::lemma_view_list_len(pair@);
                assert(view_of(a@[i as int]) == p->Sequence_0[0]);
                assert(view_of(b@[j as int]) == p->Sequence_0[1]);
                assert(p->Sequence_0 =~= seq![a@[i as int]@, b@[j as int]@]);
                assert(p == pair_of(a@[i as int]@, b@[j as int]@));
            }
            let ghost before = out@;
            insert_sorted(&mut out, Value::Sequence(pair));
            proof {
                assert forall|ii: int, jj: int| ((0 <= ii < i && 0 <= jj < b.len()) || (ii == i && 0 <= jj < j + 1))
                    implies #[trigger] holds(out@, pair_of(a@[ii]@, b@[jj]@)) by {
                    if ii == i && jj == j {
                    } else {
                        assert(holds(before, pair_of(a@[ii]@, b@[jj]@)));
                    }
                }
            }
            j = j + 1;
        }
        i = i + 1;
    }
    proof {
        assert forall|x: VV, y: VV| #[trigger] holds(out@, pair_of(x, y)) <==> (holds(a@, x) && holds(b@, y)) by {
            if holds(a@, x) && holds(b@, y) {
                let ii = choose|ii: int| 0 <= ii < a@.len() && #[trigger] view_of(a@[ii]) == x;
                let jj = choose|jj: int| 0 <= jj < b@.len() && #[trigger] view_of(b@[jj]) == y;
                assert(holds(out@, pair_of(a@[ii]@, b@[jj]@)));
            }
            if holds(out@, pair_of(x, y)) {
                let p = pair_of(x, y);
                assert(p->Sequence_0[0] == x && p->Sequence_0[1] == y);
            }
        }
    }
    out
}

/// `\o` on two sequences.
fn concat(a: &Value, b: &Value) -> (r: Result<Value, Error>)
    ensures
        r matches Ok(v) ==> a@ matches VV::Sequence(x) && b@ matches VV::Sequence(y)
            && v@ == VV::Sequence(x + y),
        r is Ok <==> (a is Sequence && b is Sequence),
        r matches Err(e) ==> e is Type,
{
    match (a, b) {
        (Value::Sequence(x), Value::Sequence(y)) => {
            let mut out = copy_list(x);
            let tail = copy_list(y);
            let mut k: usize = 0;
            proof {
                crate::eval::value::lemma_view_list_len(x@);
                crate::eval::value::lemma_view_list_len(y@);
            }
            while k < tail.len()
                invariant
                    k <= tail.len(),
                    view_list(tail@) == view_list(y@),
                    view_list(out@) == view_list(x@) + view_list(y@).take(k as int),
                decreases tail.len() - k,
            {
                let ghost before = out@;
                out.push(copy(&tail[k]));
                proof {
                    assert(out@ == before.push(out@.last()));
                    crate::eval::value::lemma_view_list_push(before, out@.last());
                    crate::eval::value::lemma_view_list_len(tail@);
                    assert(view_list(y@).take(k + 1) =~= view_list(y@).take(k as int).push(view_list(y@)[k as int]));
                    assert(view_list(out@) =~= view_list(x@) + view_list(y@).take(k + 1));
                }
                k = k + 1;
            }
            proof {
                crate::eval::value::lemma_view_list_len(tail@);
                assert(view_list(y@).take(view_list(y@).len() as int) =~= view_list(y@));
            }
            Ok(Value::Sequence(out))
        },
        _ => {
            let mut m = about("\\o expects two sequences, got ", a, " and ");
            append(&mut m, b.to_string().as_str());
            Err(Error::Type(m))
        },
    }
}

/// `a @@ b`: the union of two functions' graphs, the left one winning where
/// both are defined.
fn merge(a: &Value, b: &Value) -> (r: Result<Value, Error>)
    ensures
        r is Ok <==> ((a is Sequence || a is Record || a is Func) && (b is Sequence || b is Record || b is Func)),
        r matches Ok(v) ==> (v is Sequence || v is Record || v is Func),
        r matches Err(e) ==> e is Type,
        graph(a@).len() <= i64::MAX && graph(b@).len() <= i64::MAX ==> (r matches Ok(v)
            ==> forall|k: VV| #[trigger] lookup(graph(v@), k)
                == if lookup(graph(a@), k) is Some { lookup(graph(a@), k) } else { lookup(graph(b@), k) }),
        agrees(r, combine_of(Op::AtAt, a@, b@)),
{
    let left = match a.entries() {
        Some(e) => e,
        None => return Err(Error::Type(about("@@ expects functions, got ", a, ""))),
    };
    let mut joined = match b.entries() {
        Some(e) => e,
        None => return Err(Error::Type(about("@@ expects functions, got ", b, ""))),
    };
    let ghost g0 = view_pairs(joined@);
    let ghost gl = view_pairs(left@);
    proof {
        crate::eval::value::lemma_view_pairs_len(left@);
        assert(gl.take(0) =~= Seq::<(VV, VV)>::empty());
        assert(g0 + gl.take(0) =~= g0);
    }
    let mut k: usize = 0;
    while k < left.len()
        invariant
            k <= left.len(),
            gl == view_pairs(left@),
            gl.len() == left.len(),
            view_pairs(joined@) == g0 + gl.take(k as int),
        decreases left.len() - k,
    {
        let ghost before = joined@;
        joined.push((copy(&left[k].0), copy(&left[k].1)));
        proof {
            crate::eval::value::lemma_view_pairs_len(left@);
            assert(joined@.drop_last() =~= before);
            assert(gl.take(k + 1) =~= gl.take(k as int).push(gl[k as int]));
            assert(view_pairs(joined@) =~= g0 + gl.take(k + 1));
        }
        k = k + 1;
    }
    proof { assert(gl.take(k as int) =~= gl); }
    // `Value::function` keeps the last pair for a key, which is the left's.
    let r = Value::function(joined);
    proof {
        if graph(a@).len() <= i64::MAX && graph(b@).len() <= i64::MAX {
            let pairs = graph(b@) + graph(a@);
            assert(view_pairs(joined@) == pairs);
            assert forall|k: VV| #[trigger] lookup(graph(r@), k)
                == if lookup(graph(a@), k) is Some { lookup(graph(a@), k) } else { lookup(graph(b@), k) } by {
                lemma_lookup_concat(graph(b@), graph(a@), k);
            }
            crate::eval::graph::law_one_representation(function_from(pairs), r@);
        }
    }
    Ok(r)
}

/// Every selection from `xs` that keeps their order: first those without
/// the last member, then the same with it added.
pub open spec fn all_subs(xs: Seq<VV>) -> Seq<Seq<VV>>
    decreases xs.len(),
{
    if xs.len() == 0 {
        seq![Seq::empty()]
    } else {
        let f = all_subs(xs.drop_last());
        f + Seq::new(f.len(), |j: int| f[j].push(xs.last()))
    }
}

/// `SUBSET` of the set whose members are `xs`: the set of the sets that the
/// selections from `xs` make.
pub open spec fn powerset_of(xs: Seq<VV>) -> VV {
    let subs = all_subs(xs);
    VV::FiniteSet(set_from(Seq::new(subs.len(), |j: int| VV::FiniteSet(set_from(subs[j])))))
}

proof fn lemma_all_subs_len(xs: Seq<VV>)
    ensures
        all_subs(xs).len() == two_to(xs.len()),
    decreases xs.len(),
{
    if xs.len() > 0 {
        lemma_all_subs_len(xs.drop_last());
    }
}

/// Every member of a selection from `xs` is a member of `xs`.
proof fn lemma_all_subs_within(xs: Seq<VV>, j: int, z: VV)
    requires
        0 <= j < all_subs(xs).len(),
        all_subs(xs)[j].contains(z),
    ensures
        xs.contains(z),
    decreases xs.len(),
{
    if xs.len() > 0 {
        let d = xs.drop_last();
        let f = all_subs(d);
        if j < f.len() {
            assert(all_subs(xs)[j] == f[j]);
            lemma_all_subs_within(d, j, z);
        } else {
            let i = j - f.len();
            assert(all_subs(xs)[j] == f[i].push(xs.last()));
            if z == xs.last() {
                assert(xs[xs.len() - 1] == z);
            } else {
                let k = choose|k: int| 0 <= k < f[i].push(xs.last()).len() && f[i].push(xs.last())[k] == z;
                assert(f[i][k] == z);
                lemma_all_subs_within(d, i, z);
            }
        }
        if d.contains(z) {
            let k = choose|k: int| 0 <= k < d.len() && d[k] == z;
            assert(xs[k] == z);
        }
    }
}

/// `s` holds exactly the values that `p` picks.
spec fn holds_exactly(s: Seq<VV>, p: spec_fn(VV) -> bool) -> bool {
    forall|z: VV| #[trigger] s.contains(z) <==> p(z)
}

/// Whatever values of `xs` a predicate picks, some selection from `xs`
/// holds exactly those.
proof fn lemma_all_subs_cover(xs: Seq<VV>, p: spec_fn(VV) -> bool)
    requires
        forall|z: VV| #[trigger] p(z) ==> xs.contains(z),
    ensures
        exists|j: int| 0 <= j < all_subs(xs).len() && #[trigger] holds_exactly(all_subs(xs)[j], p),
    decreases xs.len(),
{
    if xs.len() == 0 {
        assert(all_subs(xs)[0] =~= Seq::<VV>::empty());
        assert forall|z: VV| #[trigger] all_subs(xs)[0].contains(z) <==> p(z) by {
            if p(z) {
                assert(xs.contains(z));
            }
        }
        assert(holds_exactly(all_subs(xs)[0], p));
    } else {
        let last = xs.last();
        let d = xs.drop_last();
        let q = |z: VV| p(z) && z != last;
        assert forall|z: VV| #[trigger] q(z) implies d.contains(z) by {
            assert(xs.contains(z));
            let k = choose|k: int| 0 <= k < xs.len() && xs[k] == z;
            assert(k != xs.len() - 1);
            assert(d[k] == z);
        }
        lemma_all_subs_cover(d, q);
        let f = all_subs(d);
        let j = choose|j: int| 0 <= j < f.len() && #[trigger] holds_exactly(f[j], q);
        assert(all_subs(xs) == f + Seq::new(f.len(), |i: int| f[i].push(xs.last())));
        if p(last) {
            let j2 = f.len() + j;
            let s = f[j].push(last);
            assert(all_subs(xs)[j2] == s);
            assert forall|z: VV| #[trigger] s.contains(z) <==> p(z) by {
                assert(f[j].contains(z) <==> q(z));
                if s.contains(z) && z != last {
                    let k = choose|k: int| 0 <= k < s.len() && s[k] == z;
                    assert(f[j][k] == z);
                }
                if z == last {
                    assert(s[s.len() - 1] == z);
                }
                if p(z) && z != last {
                    let k = choose|k: int| 0 <= k < f[j].len() && f[j][k] == z;
                    assert(s[k] == z);
                }
            }
            assert(holds_exactly(all_subs(xs)[j2], p));
        } else {
            assert(all_subs(xs)[j] == f[j]);
            assert forall|z: VV| #[trigger] f[j].contains(z) <==> p(z) by {
                assert(f[j].contains(z) <==> q(z));
            }
            assert(holds_exactly(all_subs(xs)[j], p));
        }
    }
}

/// `y` is the set of some selection of values, each a member of `xs`.
pub open spec fn set_of_members(y: VV, xs: Seq<VV>) -> bool {
    exists|sub: Seq<VV>| (forall|z: VV| #[trigger] sub.contains(z) ==> xs.contains(z)) && y == VV::FiniteSet(set_from(sub))
}

/// The selections made so far, by their views.
pub open spec fn lists_view(s: Seq<Vec<Value>>) -> Seq<Seq<VV>> {
    Seq::new(s.len(), |j: int| view_list(s[j]@))
}

/// The subsets of `items`, as a set.
pub fn powerset(items: &Vec<Value>) -> (r: Result<Value, Error>)
    ensures
        r matches Ok(v) ==> v is FiniteSet && sorted(v->FiniteSet_0@),
        r matches Ok(v) ==> v@ == powerset_of(view_list(items@)),
        r matches Ok(v) ==> forall|y: VV| #[trigger] v@->FiniteSet_0.contains(y) <==> set_of_members(y, view_list(items@)),
        r is Ok <==> items.len() < 64 && two_to(items.len() as nat) <= MAX_ELEMENTS,
        r matches Err(e) ==> e is Unbounded,
{
    if items.len() >= 64 {
        return check_size_unrepresentable("SUBSET");
    }
    let n = items.len();
    let count: u64 = shift(n as u64);
    if count > (MAX_ELEMENTS as u64) {
        return Err(Error::Unbounded(over_limit("SUBSET", count)));
    }
    let ghost xs = view_list(items@);
    proof {
        crate::eval::value::lemma_view_list_len(items@);
        lemma_all_subs_len(xs);
    }
    let mut subs: Vec<Vec<Value>> = Vec::new();
    subs.push(Vec::new());
    proof {
        assert(xs.take(0) =~= Seq::<VV>::empty());
        assert(view_list(subs@[0]@) =~= Seq::<VV>::empty());
        assert(lists_view(subs@) =~= all_subs(xs.take(0)));
    }
    let mut i: usize = 0;
    while i < n
        invariant
            i <= n,
            n == items.len(),
            n < 64,
            count == two_to(n as nat),
            count <= MAX_ELEMENTS,
            xs == view_list(items@),
            xs.len() == n,
            lists_view(subs@) == all_subs(xs.take(i as int)),
            subs.len() == two_to(i as nat),
        decreases n - i,
    {
        let ghost f = lists_view(subs@);
        let m = subs.len();
        proof {
            lemma_two_to_mono((i + 1) as nat, n as nat);
            assert(xs.take(i + 1).drop_last() =~= xs.take(i as int));
            assert(xs.take(i + 1).last() == xs[i as int]);
        }
        let mut j: usize = 0;
        while j < m
            invariant
                j <= m,
                m == f.len(),
                i < n,
                n == items.len(),
                subs.len() == m + j,
                m + m <= MAX_ELEMENTS,
                xs == view_list(items@),
                xs.len() == n,
                f == all_subs(xs.take(i as int)),
                lists_view(subs@) == f + Seq::new(j as nat, |jj: int| f[jj].push(xs[i as int])),
            decreases m - j,
        {
            let mut s2 = copy_list(&subs[j]);
            let ghost base = s2@;
            s2.push(copy(&items[i]));
            proof {
                crate::eval::value::lemma_view_list_len(items@);
                assert(lists_view(subs@)[j as int] == view_list(subs@[j as int]@));
                assert(view_list(base) == f[j as int]);
                crate::eval::value::lemma_view_list_push(base, s2@.last());
                assert(s2@ == base.push(s2@.last()));
                assert(view_list(s2@) == f[j as int].push(xs[i as int]));
            }
            let ghost before = subs@;
            subs.push(s2);
            proof {
                assert(lists_view(subs@) =~= lists_view(before).push(view_list(subs@.last()@)));
                assert(lists_view(subs@) =~= f + Seq::new((j + 1) as nat, |jj: int| f[jj].push(xs[i as int])));
            }
            j = j + 1;
        }
        proof {
            assert(lists_view(subs@) =~= all_subs(xs.take(i + 1)));
        }
        i = i + 1;
    }
    proof { assert(xs.take(n as int) =~= xs); }
    let ghost ss = lists_view(subs@);
    let ghost vs = Seq::new(ss.len(), |j: int| VV::FiniteSet(set_from(ss[j])));
    let mut out: Vec<Value> = Vec::new();
    let mut k: usize = 0;
    while k < subs.len()
        invariant
            k <= subs.len(),
            ss == lists_view(subs@),
            vs == Seq::new(ss.len(), |j: int| VV::FiniteSet(set_from(ss[j]))),
            sorted(out@),
            forall|y: VV| #[trigger] holds(out@, y) <==> vs.take(k as int).contains(y),
            forall|j: int| 0 <= j < k ==> #[trigger] values_sorted(set_from(ss[j])),
            forall|j: int, w: VV| 0 <= j < k ==> (#[trigger] set_from(ss[j]).contains(w) <==> ss[j].contains(w)),
        decreases subs.len() - k,
    {
        let given = copy_list(&subs[k]);
        let ghost g = given@;
        let set = Value::set(given);
        proof {
            assert forall|w: VV| #[trigger] holds(set->FiniteSet_0@, w) <==> ss[k as int].contains(w) by {
                lemma_holds_view(g, w);
            }
            lemma_set_from(set->FiniteSet_0@, ss[k as int]);
            crate::eval::graph::lemma_set_from_members(set->FiniteSet_0@, ss[k as int]);
            assert(set@ == vs[k as int]);
        }
        insert_sorted(&mut out, set);
        proof {
            assert(vs.take(k + 1) =~= vs.take(k as int).push(vs[k as int]));
            assert forall|y: VV| #[trigger] holds(out@, y) <==> vs.take(k + 1).contains(y) by {
                if vs.take(k + 1).contains(y) && y != vs[k as int] {
                    let q = choose|q: int| 0 <= q < vs.take(k + 1).len() && #[trigger] vs.take(k + 1)[q] == y;
                    assert(vs.take(k as int)[q] == y);
                    assert(vs.take(k as int).contains(y));
                }
                if vs.take(k as int).contains(y) {
                    let q = choose|q: int| 0 <= q < vs.take(k as int).len() && #[trigger] vs.take(k as int)[q] == y;
                    assert(vs.take(k + 1)[q] == y);
                }
                if y == vs[k as int] {
                    assert(vs.take(k + 1)[k as int] == y);
                }
            }
        }
        k = k + 1;
    }
    proof {
        assert(vs.take(k as int) =~= vs);
        lemma_set_from(out@, vs);
        crate::eval::graph::lemma_set_from_members(out@, vs);
        assert forall|y: VV| #[trigger] set_from(vs).contains(y) <==> set_of_members(y, xs) by {
            if set_from(vs).contains(y) {
                let j = choose|j: int| 0 <= j < vs.len() && vs[j] == y;
                assert forall|z: VV| #[trigger] ss[j].contains(z) implies xs.contains(z) by {
                    lemma_all_subs_within(xs, j, z);
                }
                assert(y == VV::FiniteSet(set_from(ss[j])));
            }
            if set_of_members(y, xs) {
                let sub = choose|sub: Seq<VV>| (forall|z: VV| #[trigger] sub.contains(z) ==> xs.contains(z))
                    && y == VV::FiniteSet(set_from(sub));
                let p = |z: VV| sub.contains(z);
                lemma_all_subs_cover(xs, p);
                let j = choose|j: int| 0 <= j < ss.len() && #[trigger] holds_exactly(ss[j], p);
                let t = set_from(ss[j]);
                assert forall|w: VV| #[trigger] t.contains(w) <==> sub.contains(w) by {
                    assert(ss[j].contains(w) <==> p(w));
                }
                assert(values_sorted(t) && forall|w: VV| #[trigger] t.contains(w) <==> sub.contains(w));
                let c = set_from(sub);
                assert(values_sorted(c) && forall|w: VV| #[trigger] c.contains(w) <==> sub.contains(w));
                crate::eval::graph::lemma_sets_equal(c, t);
                assert(vs[j] == y);
                assert(vs.contains(y));
            }
        }
    }
    Ok(Value::FiniteSet(out))
}

/// `2^n`.
pub open spec fn two_to(n: nat) -> nat
    decreases n,
{
    if n == 0 { 1 } else { 2 * two_to((n - 1) as nat) }
}

proof fn lemma_two_to_grows(n: nat)
    ensures
        two_to(n) >= n + 1,
    decreases n,
{
    if n > 0 {
        lemma_two_to_grows((n - 1) as nat);
    }
}

fn shift(n: u64) -> (r: u64)
    requires
        n < 64,
    ensures
        r == two_to(n as nat),
    decreases n,
{
    if n == 0 {
        1
    } else {
        let half = shift(n - 1);
        proof { lemma_two_to_bound((n - 1) as nat); }
        half * 2
    }
}

proof fn lemma_two_to_bound(n: nat)
    requires
        n < 63,
    ensures
        two_to(n) <= 0x4000_0000_0000_0000,
    decreases n,
{
    lemma_two_to_mono(n, 62);
    lemma_two_to_pow2(62);
    vstd::arithmetic::power2::lemma2_to64_rest();
}

proof fn lemma_two_to_pow2(n: nat)
    ensures
        two_to(n) == vstd::arithmetic::power2::pow2(n),
    decreases n,
{
    if n == 0 {
        vstd::arithmetic::power2::lemma2_to64();
    } else {
        lemma_two_to_pow2((n - 1) as nat);
        vstd::arithmetic::power2::lemma_pow2_unfold(n);
    }
}

proof fn lemma_two_to_mono(i: nat, j: nat)
    requires
        i <= j,
    ensures
        two_to(i) <= two_to(j),
    decreases j - i,
{
    if i < j {
        lemma_two_to_mono(i, (j - 1) as nat);
    }
}

/// The message that refuses a value of `count` elements.
pub open spec fn over_limit_text(what: Seq<char>, count: int) -> Seq<char> {
    what + " would have "@
        + (if count <= i64::MAX { int_digits(count) } else { "more than 9223372036854775807"@ })
        + " elements, over the "@ + int_digits(MAX_ELEMENTS as int) + " limit"@
}

fn over_limit(what: &str, count: u64) -> (m: String)
    ensures
        m@ == over_limit_text(what@, count as int),
{
    let mut m = text(what);
    append(&mut m, " would have ");
    if count <= (i64::MAX as u64) {
        push_int(&mut m, count as i64);
    } else {
        append(&mut m, "more than 9223372036854775807");
    }
    append(&mut m, " elements, over the ");
    push_int(&mut m, MAX_ELEMENTS as i64);
    append(&mut m, " limit");
    m
}

fn check_size_unrepresentable(what: &str) -> (r: Result<Value, Error>)
    ensures
        r matches Err(e) && e is Unbounded,
{
    let mut m = text(what);
    append(&mut m, " would have more than 18446744073709551615 elements, over the ");
    push_int(&mut m, MAX_ELEMENTS as i64);
    append(&mut m, " limit");
    Err(Error::Unbounded(m))
}


/// The order comparisons on integers.
pub open spec fn order_of(op: Op, x: int, y: int) -> bool {
    match op {
        Op::Lt => x < y,
        Op::Gt => x > y,
        Op::Le => x <= y,
        _ => x >= y,
    }
}

pub open spec fn is_order(op: Op) -> bool {
    op == Op::Lt || op == Op::Gt || op == Op::Le || op == Op::Ge
}

pub open spec fn is_arith(op: Op) -> bool {
    op == Op::Plus || op == Op::Minus || op == Op::Times || op == Op::Div || op == Op::Mod
}

/// The integers from `lo` to `hi` as a set.
pub open spec fn interval_of(lo: int, hi: int) -> VV {
    VV::FiniteSet(Seq::new(if hi >= lo { (hi - lo + 1) as nat } else { 0 }, |i: int| VV::Int(lo + i)))
}

/// Walking `items` in order and asking of each whether it is in `b`, every
/// question asked before the first negative answer has an answer.
pub open spec fn decided_members(items: Seq<Value>, b: VV) -> bool {
    forall|k: int| 0 <= k < items.len()
        && (forall|k2: int| 0 <= k2 < k ==> member_of(#[trigger] items[k2]@, b) == Some(true))
        ==> (#[trigger] member_of(items[k]@, b)) is Some
}

/// Is every member of `a` a member of `b`?
fn subset_of(a: &Value, b: &Value) -> (r: Result<bool, Error>)
    ensures
        r is Ok <==> (a is FiniteSet && decided_members(a->FiniteSet_0@, b@)),
        r matches Ok(true) ==> forall|k: int| 0 <= k < a->FiniteSet_0.len()
            ==> member_of(#[trigger] a->FiniteSet_0@[k]@, b@) == Some(true),
        r matches Ok(false) ==> exists|k: int| 0 <= k < a->FiniteSet_0.len()
            && member_of(#[trigger] a->FiniteSet_0@[k]@, b@) == Some(false),
{
    let items = set_items(a)?;
    let mut i: usize = 0;
    while i < items.len()
        invariant
            *a == Value::FiniteSet(*items),
            i <= items.len(),
            forall|k: int| 0 <= k < i ==> member_of(#[trigger] items@[k]@, b@) == Some(true),
        decreases items.len() - i,
    {
        let found = member(&items[i], b);
        match found {
            Ok(t) => {
                if !t {
                    proof {
                        assert(member_of(items@[i as int]@, b@) == Some(false));
                        assert forall|k: int| 0 <= k < items@.len()
                            && (forall|k2: int| 0 <= k2 < k ==> member_of(#[trigger] items@[k2]@, b@) == Some(true))
                            implies (#[trigger] member_of(items@[k]@, b@)) is Some by {
                            if k > i {
                                assert(member_of(items@[i as int]@, b@) == Some(true));
                            }
                        }
                    }
                    return Ok(false);
                }
            },
            Err(e) => {
                proof {
                    assert(member_of(items@[i as int]@, b@) is None);
                    assert(!decided_members(items@, b@));
                }
                return Err(e);
            },
        }
        i = i + 1;
    }
    Ok(true)
}

/// The members of `xs` that are (`inside`) or are not in `ys`, in order.
pub open spec fn select(xs: Seq<VV>, ys: Seq<VV>, inside: bool) -> Seq<VV>
    decreases xs.len(),
{
    if xs.len() == 0 {
        Seq::empty()
    } else {
        select(xs.drop_last(), ys, inside) + if ys.contains(xs.last()) == inside { seq![xs.last()] } else { Seq::empty() }
    }
}

/// Every pair of a member of `xs` and a member of `ys`.
pub open spec fn cart(xs: Seq<VV>, ys: Seq<VV>) -> Seq<VV>
    decreases xs.len(),
{
    if xs.len() == 0 {
        Seq::empty()
    } else {
        cart(xs.drop_last(), ys) + Seq::new(ys.len(), |j: int| pair_of(xs.last(), ys[j]))
    }
}

/// Walking `xs` in order and asking of each whether it is in `b`, every
/// question asked before the first negative answer has an answer.
pub open spec fn decided_v(xs: Seq<VV>, b: VV) -> bool {
    forall|k: int| 0 <= k < xs.len()
        && (forall|k2: int| 0 <= k2 < k ==> member_of(#[trigger] xs[k2], b) == Some(true))
        ==> (#[trigger] member_of(xs[k], b)) is Some
}

/// Every one of `xs` is in `b`.
pub open spec fn all_in(xs: Seq<VV>, b: VV) -> bool {
    forall|k: int| 0 <= k < xs.len() ==> member_of(#[trigger] xs[k], b) == Some(true)
}

/// `a \subseteq b` on values.
pub open spec fn subset_meaning(a: VV, b: VV) -> Option<Result<VV, ()>> {
    match a {
        VV::FiniteSet(xs) => if decided_v(xs, b) { Some(Ok(VV::Bool(all_in(xs, b)))) } else { Some(Err(())) },
        _ => Some(Err(())),
    }
}

proof fn lemma_decided_view(items: Seq<Value>, b: VV)
    ensures
        decided_members(items, b) == decided_v(view_list(items), b),
        (forall|k: int| 0 <= k < items.len() ==> member_of(#[trigger] items[k]@, b) == Some(true))
            == all_in(view_list(items), b),
{
    crate::eval::value::lemma_view_list_len(items);
    let xs = view_list(items);
    assert forall|k: int| 0 <= k < items.len() implies #[trigger] xs[k] == items[k]@ by {}
    if decided_members(items, b) {
        assert forall|k: int| 0 <= k < xs.len()
            && (forall|k2: int| 0 <= k2 < k ==> member_of(#[trigger] xs[k2], b) == Some(true))
            implies (#[trigger] member_of(xs[k], b)) is Some by {
            assert forall|k2: int| 0 <= k2 < k implies member_of(#[trigger] items[k2]@, b) == Some(true) by {
                assert(xs[k2] == items[k2]@);
            }
            assert(xs[k] == items[k]@);
        }
    }
    if decided_v(xs, b) {
        assert forall|k: int| 0 <= k < items.len()
            && (forall|k2: int| 0 <= k2 < k ==> member_of(#[trigger] items[k2]@, b) == Some(true))
            implies (#[trigger] member_of(items[k]@, b)) is Some by {
            assert forall|k2: int| 0 <= k2 < k implies member_of(#[trigger] xs[k2], b) == Some(true) by {
                assert(xs[k2] == items[k2]@);
            }
            assert(xs[k] == items[k]@);
        }
    }
    if all_in(xs, b) {
        assert forall|k: int| 0 <= k < items.len() implies member_of(#[trigger] items[k]@, b) == Some(true) by {
            assert(xs[k] == items[k]@);
        }
    }
    if forall|k: int| 0 <= k < items.len() ==> member_of(#[trigger] items[k]@, b) == Some(true) {
        assert forall|k: int| 0 <= k < xs.len() implies member_of(#[trigger] xs[k], b) == Some(true) by {
            assert(xs[k] == items[k]@);
        }
    }
}

pub proof fn lemma_concat_contains(xs: Seq<VV>, ys: Seq<VV>, v: VV)
    ensures
        (xs + ys).contains(v) <==> (xs.contains(v) || ys.contains(v)),
{
    if xs.contains(v) {
        let i = choose|i: int| 0 <= i < xs.len() && xs[i] == v;
        assert((xs + ys)[i] == v);
    }
    if ys.contains(v) {
        let j = choose|j: int| 0 <= j < ys.len() && ys[j] == v;
        assert((xs + ys)[xs.len() + j] == v);
    }
    if (xs + ys).contains(v) {
        let i = choose|i: int| 0 <= i < (xs + ys).len() && (xs + ys)[i] == v;
        if i < xs.len() {
            assert(xs[i] == v);
        } else {
            assert(ys[i - xs.len()] == v);
        }
    }
}

pub proof fn lemma_select_contains(xs: Seq<VV>, ys: Seq<VV>, inside: bool, v: VV)
    ensures
        select(xs, ys, inside).contains(v) <==> (xs.contains(v) && ys.contains(v) == inside),
    decreases xs.len(),
{
    if xs.len() > 0 {
        let front = xs.drop_last();
        lemma_select_contains(front, ys, inside, v);
        let tail = if ys.contains(xs.last()) == inside { seq![xs.last()] } else { Seq::<VV>::empty() };
        lemma_concat_contains(select(front, ys, inside), tail, v);
        lemma_concat_contains(front, seq![xs.last()], v);
        assert(xs =~= front + seq![xs.last()]);
        if tail.contains(v) {
            assert(tail[0] == v);
        }
        if seq![xs.last()].contains(v) {
            assert(seq![xs.last()][0] == v);
        }
    } else {
        assert(!xs.contains(v));
    }
}

pub proof fn lemma_cart_contains(xs: Seq<VV>, ys: Seq<VV>, p: VV)
    ensures
        cart(xs, ys).contains(p) <==> exists|i: int, j: int| 0 <= i < xs.len() && 0 <= j < ys.len()
            && p == pair_of(#[trigger] xs[i], #[trigger] ys[j]),
    decreases xs.len(),
{
    if xs.len() > 0 {
        let front = xs.drop_last();
        let back = Seq::new(ys.len(), |j: int| pair_of(xs.last(), ys[j]));
        lemma_cart_contains(front, ys, p);
        lemma_concat_contains(cart(front, ys), back, p);
        if back.contains(p) {
            let j = choose|j: int| 0 <= j < back.len() && back[j] == p;
            assert(p == pair_of(xs[xs.len() - 1], ys[j]));
        }
        if cart(front, ys).contains(p) {
            let (i, j) = choose|i: int, j: int| 0 <= i < front.len() && 0 <= j < ys.len()
                && p == pair_of(#[trigger] front[i], #[trigger] ys[j]);
            assert(front[i] == xs[i]);
            assert(p == pair_of(xs[i], ys[j]));
        }
        if exists|i: int, j: int| 0 <= i < xs.len() && 0 <= j < ys.len() && p == pair_of(#[trigger] xs[i], #[trigger] ys[j]) {
            let (i, j) = choose|i: int, j: int| 0 <= i < xs.len() && 0 <= j < ys.len()
                && p == pair_of(#[trigger] xs[i], #[trigger] ys[j]);
            if i < xs.len() - 1 {
                assert(front[i] == xs[i]);
                assert(p == pair_of(front[i], ys[j]));
            } else {
                assert(back[j] == p);
            }
        }
    }
}

/// The last pair for a key wins: where the second graph has the key, its
/// value; otherwise the first graph's.
pub proof fn lemma_lookup_concat<K, V>(g1: Seq<(K, V)>, g2: Seq<(K, V)>, k: K)
    ensures
        lookup(g1 + g2, k) == if lookup(g2, k) is Some { lookup(g2, k) } else { lookup(g1, k) },
    decreases g2.len(),
{
    if g2.len() > 0 {
        assert((g1 + g2).drop_last() =~= g1 + g2.drop_last());
        assert((g1 + g2).last() == g2.last());
        lemma_lookup_concat(g1, g2.drop_last(), k);
    } else {
        assert(g1 + g2 =~= g1);
    }
}

/// What an operator on values gives, for the operators whose result is
/// stated exactly: `Some(Ok(v))`, `Some(Err(()))` when it fails, `None` for
/// the others.
pub open spec fn combine_of(op: Op, a: VV, b: VV) -> Option<Result<VV, ()>> {
    match op {
        Op::Eq => Some(Ok(VV::Bool(a == b))),
        Op::Neq => Some(Ok(VV::Bool(a != b))),
        Op::Equiv => match (a, b) {
            (VV::Bool(x), VV::Bool(y)) => Some(Ok(VV::Bool(x == y))),
            _ => Some(Err(())),
        },
        Op::Lt | Op::Gt | Op::Le | Op::Ge => match (a, b) {
            (VV::Int(x), VV::Int(y)) => Some(Ok(VV::Bool(order_of(op, x, y)))),
            _ => Some(Err(())),
        },
        Op::Plus | Op::Minus | Op::Times | Op::Div | Op::Mod => match (a, b) {
            (VV::Int(x), VV::Int(y)) => match arith_of(op, x, y) {
                Some(z) => Some(Ok(VV::Int(z))),
                None => Some(Err(())),
            },
            _ => Some(Err(())),
        },
        Op::DotDot => match (a, b) {
            (VV::Int(x), VV::Int(y)) => Some(Ok(interval_of(x, y))),
            _ => Some(Err(())),
        },
        Op::In => match member_of(a, b) {
            Some(t) => Some(Ok(VV::Bool(t))),
            None => Some(Err(())),
        },
        Op::NotIn => match member_of(a, b) {
            Some(t) => Some(Ok(VV::Bool(!t))),
            None => Some(Err(())),
        },
        Op::Concat => match (a, b) {
            (VV::Sequence(x), VV::Sequence(y)) => Some(Ok(VV::Sequence(x + y))),
            _ => Some(Err(())),
        },
        Op::Cup => match (a, b) {
            (VV::FiniteSet(x), VV::FiniteSet(y)) => Some(Ok(VV::FiniteSet(set_from(x + y)))),
            _ => Some(Err(())),
        },
        Op::Cap => match (a, b) {
            (VV::FiniteSet(x), VV::FiniteSet(y)) => Some(Ok(VV::FiniteSet(set_from(select(x, y, true))))),
            _ => Some(Err(())),
        },
        Op::SetMinus => match (a, b) {
            (VV::FiniteSet(x), VV::FiniteSet(y)) => Some(Ok(VV::FiniteSet(set_from(select(x, y, false))))),
            _ => Some(Err(())),
        },
        Op::Cartesian => match (a, b) {
            (VV::FiniteSet(x), VV::FiniteSet(y)) => Some(Ok(VV::FiniteSet(set_from(cart(x, y))))),
            _ => Some(Err(())),
        },
        Op::Subseteq => subset_meaning(a, b),
        Op::Supseteq => subset_meaning(b, a),
        Op::Pow => match (a, b) {
            (VV::Int(x), VV::Int(y)) => if 0 <= y <= u32::MAX && fits(pow(x, y as nat)) is Some {
                Some(Ok(VV::Int(pow(x, y as nat))))
            } else {
                Some(Err(()))
            },
            _ => Some(Err(())),
        },
        Op::OneTo => Some(Ok(function_from(seq![(a, b)]))),
        Op::AtAt => if is_function(a) && is_function(b) {
            if graph(a).len() <= i64::MAX && graph(b).len() <= i64::MAX {
                Some(Ok(function_from(graph(b) + graph(a))))
            } else {
                None
            }
        } else {
            Some(Err(()))
        },
        _ => None,
    }
}

/// `a \subseteq b`.
fn subset_op(a: &Value, b: &Value) -> (r: Result<Value, Error>)
    ensures
        r is Ok <==> (a is FiniteSet && decided_members(a->FiniteSet_0@, b@)),
        r matches Ok(v) ==> v is Bool && (v@->Bool_0 <==> forall|k: int| 0 <= k < a->FiniteSet_0.len()
            ==> member_of(#[trigger] a->FiniteSet_0@[k]@, b@) == Some(true)),
        agrees(r, subset_meaning(a@, b@)),
{
    proof {
        if let Value::FiniteSet(items) = a {
            lemma_decided_view(items@, b@);
        }
    }
    let t = subset_of(a, b)?;
    Ok(Value::Bool(t))
}

/// `a :> b`: the function that maps `a` to `b` and is defined nowhere else.
fn one_pair(a: &Value, b: &Value) -> (r: Value)
    ensures
        r@ == function_from(seq![(a@, b@)]),
{
    let mut pairs: Vec<(Value, Value)> = Vec::new();
    pairs.push((copy(a), copy(b)));
    let r = Value::function(pairs);
    proof {
        let g = seq![(a@, b@)];
        assert(pairs@.drop_last() =~= Seq::<(Value, Value)>::empty());
        assert(view_pairs(pairs@.drop_last()) =~= Seq::<(VV, VV)>::empty());
        assert(view_pairs(pairs@) =~= g);
        crate::eval::graph::law_one_representation(function_from(g), r@);
    }
    r
}

/// `\cup`, `\cap`, `\` and `\X` on two sets.
fn set_binary(op: Op, a: &Value, b: &Value) -> (r: Result<Value, Error>)
    requires
        op == Op::Cup || op == Op::Cap || op == Op::SetMinus || op == Op::Cartesian,
    ensures
        r is Ok <==> (a is FiniteSet && b is FiniteSet),
        r matches Err(e) ==> (e is Unbounded <==> (a is Infinite || (a is FiniteSet && b is Infinite)))
            && (e is Unbounded || e is Type),
        r matches Ok(v) ==> v is FiniteSet && sorted(v->FiniteSet_0@),
        op == Op::Cup ==> (r matches Ok(v) ==> forall|y: VV| #[trigger] holds(v->FiniteSet_0@, y)
            <==> (holds(a->FiniteSet_0@, y) || holds(b->FiniteSet_0@, y))),
        op == Op::Cap ==> (r matches Ok(v) ==> forall|y: VV| #[trigger] holds(v->FiniteSet_0@, y)
            <==> (holds(a->FiniteSet_0@, y) && holds(b->FiniteSet_0@, y))),
        op == Op::SetMinus ==> (r matches Ok(v) ==> forall|y: VV| #[trigger] holds(v->FiniteSet_0@, y)
            <==> (holds(a->FiniteSet_0@, y) && !holds(b->FiniteSet_0@, y))),
        op == Op::Cartesian ==> (r matches Ok(v) ==> forall|p: VV| #[trigger] holds(v->FiniteSet_0@, p)
            ==> p is Sequence && p->Sequence_0.len() == 2
            && holds(a->FiniteSet_0@, p->Sequence_0[0]) && holds(b->FiniteSet_0@, p->Sequence_0[1])),
        op == Op::Cartesian ==> (r matches Ok(v) ==> forall|x: VV, y: VV| #[trigger] holds(v->FiniteSet_0@, pair_of(x, y))
            <==> (holds(a->FiniteSet_0@, x) && holds(b->FiniteSet_0@, y))),
        agrees(r, combine_of(op, a@, b@)),
{
    let x = set_items(a)?;
    let y = set_items(b)?;
    let ghost xs = view_list(x@);
    let ghost ys = view_list(y@);
    let out = if op == Op::Cup {
        let u = union(x, y);
        proof {
            assert forall|w: VV| #[trigger] holds(u@, w) <==> (xs + ys).contains(w) by {
                lemma_holds_view(x@, w);
                lemma_holds_view(y@, w);
                lemma_concat_contains(xs, ys, w);
            }
            lemma_set_from(u@, xs + ys);
        }
        u
    } else if op == Op::Cap || op == Op::SetMinus {
        let keep = op == Op::Cap;
        let u = filter_by(x, y, keep);
        proof {
            assert forall|w: VV| #[trigger] holds(u@, w) <==> select(xs, ys, keep).contains(w) by {
                lemma_holds_view(x@, w);
                lemma_holds_view(y@, w);
                lemma_select_contains(xs, ys, keep, w);
            }
            lemma_set_from(u@, select(xs, ys, keep));
        }
        u
    } else {
        let u = cartesian(x, y);
        proof {
            assert forall|p: VV| #[trigger] holds(u@, p) <==> cart(xs, ys).contains(p) by {
                lemma_cart_contains(xs, ys, p);
                if holds(u@, p) {
                    let q0 = p->Sequence_0[0];
                    let q1 = p->Sequence_0[1];
                    assert(p->Sequence_0 =~= seq![q0, q1]);
                    assert(p == pair_of(q0, q1));
                    lemma_holds_view(x@, q0);
                    lemma_holds_view(y@, q1);
                    let i = choose|i: int| 0 <= i < xs.len() && xs[i] == q0;
                    let j = choose|j: int| 0 <= j < ys.len() && ys[j] == q1;
                    assert(p == pair_of(xs[i], ys[j]));
                }
                if cart(xs, ys).contains(p) {
                    let (i, j) = choose|i: int, j: int| 0 <= i < xs.len() && 0 <= j < ys.len()
                        && p == pair_of(#[trigger] xs[i], #[trigger] ys[j]);
                    lemma_holds_view(x@, xs[i]);
                    lemma_holds_view(y@, ys[j]);
                    assert(xs.contains(xs[i]));
                    assert(ys.contains(ys[j]));
                    assert(holds(u@, pair_of(xs[i], ys[j])));
                }
            }
            lemma_set_from(u@, cart(xs, ys));
        }
        u
    };
    Ok(Value::FiniteSet(out))
}

/// How an arithmetic operator is written in an error message.
pub open spec fn arith_name(op: Op) -> Seq<char> {
    match op {
        Op::Plus => "+"@,
        Op::Minus => "-"@,
        Op::Times => "*"@,
        Op::Div => "\\div"@,
        _ => "%"@,
    }
}

/// The operators whose meaning depends only on their operands' values.
pub fn combine(op: Op, a: &Value, b: &Value) -> (r: Result<Value, Error>)
    ensures
        op == Op::Eq ==> (r matches Ok(v) && v@ == VV::Bool(a@ == b@)),
        op == Op::Neq ==> (r matches Ok(v) && v@ == VV::Bool(a@ != b@)),
        op == Op::Equiv ==> (r is Ok <==> (a is Bool && b is Bool))
            && (r matches Ok(v) ==> v@ == VV::Bool(a->Bool_0 == b->Bool_0)),
        is_order(op) ==> (r is Ok <==> (a is Int && b is Int))
            && (r matches Ok(v) ==> v@ == VV::Bool(order_of(op, a->Int_0 as int, b->Int_0 as int))),
        is_arith(op) ==> (r is Ok <==> (a@ matches VV::Int(x) && b@ matches VV::Int(y) && arith_of(op, x, y) is Some))
            && (r matches Ok(v) ==> v@ == VV::Int(arith_of(op, a->Int_0 as int, b->Int_0 as int)->Some_0)),
        op == Op::Pow ==> (r matches Ok(v) ==> a@ matches VV::Int(x) && b@ matches VV::Int(y) && 0 <= y
            && v@ == VV::Int(pow(x, y as nat)))
            && ((a@ matches VV::Int(x) && b@ matches VV::Int(y) && 0 <= y <= u32::MAX
            && fits(pow(x, y as nat)) is Some) ==> r is Ok),
        op == Op::DotDot ==> (r is Ok <==> (a is Int && b is Int))
            && (r matches Ok(v) ==> v@ == interval_of(a->Int_0 as int, b->Int_0 as int)),
        op == Op::In ==> (r matches Ok(v) ==> member_of(a@, b@) == Some(v@->Bool_0) && v is Bool)
            && (r is Err <==> member_of(a@, b@) is None),
        op == Op::NotIn ==> (r matches Ok(v) ==> member_of(a@, b@) == Some(!v@->Bool_0) && v is Bool)
            && (r is Err <==> member_of(a@, b@) is None),
        op == Op::Concat ==> (r is Ok <==> (a is Sequence && b is Sequence))
            && (r matches Ok(v) ==> v@ == VV::Sequence(a@->Sequence_0 + b@->Sequence_0)),
        op == Op::Cup ==> (r is Ok <==> (a is FiniteSet && b is FiniteSet))
            && (r matches Ok(v) ==> v is FiniteSet && sorted(v->FiniteSet_0@) && forall|y: VV| #[trigger] holds(v->FiniteSet_0@, y)
                <==> (holds(a->FiniteSet_0@, y) || holds(b->FiniteSet_0@, y))),
        op == Op::Cap ==> (r is Ok <==> (a is FiniteSet && b is FiniteSet))
            && (r matches Ok(v) ==> v is FiniteSet && sorted(v->FiniteSet_0@) && forall|y: VV| #[trigger] holds(v->FiniteSet_0@, y)
                <==> (holds(a->FiniteSet_0@, y) && holds(b->FiniteSet_0@, y))),
        op == Op::SetMinus ==> (r is Ok <==> (a is FiniteSet && b is FiniteSet))
            && (r matches Ok(v) ==> v is FiniteSet && sorted(v->FiniteSet_0@) && forall|y: VV| #[trigger] holds(v->FiniteSet_0@, y)
                <==> (holds(a->FiniteSet_0@, y) && !holds(b->FiniteSet_0@, y))),
        op == Op::Subseteq ==> (r is Ok <==> (a is FiniteSet && decided_members(a->FiniteSet_0@, b@))),
        op == Op::Supseteq ==> (r is Ok <==> (b is FiniteSet && decided_members(b->FiniteSet_0@, a@))),
        op == Op::Subseteq ==> (r matches Ok(v) ==> a is FiniteSet && v is Bool
            && (v@->Bool_0 <==> forall|k: int| 0 <= k < a->FiniteSet_0.len()
                ==> member_of(#[trigger] a->FiniteSet_0@[k]@, b@) == Some(true))),
        op == Op::Supseteq ==> (r matches Ok(v) ==> b is FiniteSet && v is Bool
            && (v@->Bool_0 <==> forall|k: int| 0 <= k < b->FiniteSet_0.len()
                ==> member_of(#[trigger] b->FiniteSet_0@[k]@, a@) == Some(true))),
        op == Op::Cartesian ==> (r is Ok <==> (a is FiniteSet && b is FiniteSet))
            && (r matches Ok(v) ==> v is FiniteSet && sorted(v->FiniteSet_0@) && forall|p: VV| #[trigger] holds(v->FiniteSet_0@, p)
                ==> p is Sequence && p->Sequence_0.len() == 2
                && holds(a->FiniteSet_0@, p->Sequence_0[0]) && holds(b->FiniteSet_0@, p->Sequence_0[1]))
            && (r matches Ok(v) ==> forall|x: VV, y: VV| #[trigger] holds(v->FiniteSet_0@, pair_of(x, y))
                <==> (holds(a->FiniteSet_0@, x) && holds(b->FiniteSet_0@, y))),
        op == Op::AtAt ==> (r is Ok <==> ((a is Sequence || a is Record || a is Func)
            && (b is Sequence || b is Record || b is Func))),
        is_arith(op) && a is Int && b is Int ==> (r matches Err(Error::Type(m))
            ==> m@ == value_text(a@) + " "@ + arith_name(op) + " "@ + value_text(b@) + " is undefined or overflows"@),
        op == Op::Pow ==> ((a@ matches VV::Int(x) && b@ matches VV::Int(y) && 0 <= y <= u32::MAX && fits(pow(x, y as nat)) is None)
            ==> (r matches Err(Error::Type(m)) && m@ == "^ overflowed"@)),
        op == Op::Pow ==> ((a@ matches VV::Int(x) && b@ matches VV::Int(y) && !(0 <= y <= u32::MAX))
            ==> (r matches Err(Error::Type(m)) && m@ == "exponent out of range"@)),
        is_arith(op) || is_order(op) || op == Op::Pow || op == Op::Equiv || op == Op::Concat || op == Op::AtAt
            ==> (r matches Err(e) ==> e is Type),
        op == Op::Cup || op == Op::Cap || op == Op::SetMinus || op == Op::Cartesian
            ==> (r matches Err(e) ==> (e is Unbounded <==> (a is Infinite || (a is FiniteSet && b is Infinite)))
                && (e is Unbounded || e is Type)),
        op == Op::OneTo ==> (r matches Ok(v) && v@ == function_from(seq![(a@, b@)])),
        op == Op::AtAt && graph(a@).len() <= i64::MAX && graph(b@).len() <= i64::MAX ==> (r matches Ok(v)
            ==> forall|k: VV| #[trigger] lookup(graph(v@), k)
                == if lookup(graph(a@), k) is Some { lookup(graph(a@), k) } else { lookup(graph(b@), k) }),
        combine_of(op, a@, b@) matches Some(Ok(v)) ==> (r matches Ok(x) && x@ == v),
        combine_of(op, a@, b@) matches Some(Err(_)) ==> r is Err,
{
    match op {
        Op::Equiv => {
            let x = as_bool(a)?;
            let y = as_bool(b)?;
            Ok(Value::Bool(x == y))
        },
        Op::Eq => Ok(Value::Bool(equal(a, b))),
        Op::Neq => Ok(Value::Bool(!equal(a, b))),
        Op::Lt | Op::Gt | Op::Le | Op::Ge => {
            let x = as_int(a)?;
            let y = as_int(b)?;
            Ok(Value::Bool(match op {
                Op::Lt => x < y,
                Op::Gt => x > y,
                Op::Le => x <= y,
                _ => x >= y,
            }))
        },
        Op::Plus => arith(a, b, op, "+"),
        Op::Minus => arith(a, b, op, "-"),
        Op::Times => arith(a, b, op, "*"),
        Op::Div => arith(a, b, op, "\\div"),
        Op::Mod => arith(a, b, op, "%"),
        Op::Pow => raise(a, b),
        Op::DotDot => {
            let x = as_int(a)?;
            let y = as_int(b)?;
            Ok(Value::interval(x, y))
        },
        Op::In => Ok(Value::Bool(member(a, b)?)),
        Op::NotIn => Ok(Value::Bool(!member(a, b)?)),
        Op::Subseteq => subset_op(a, b),
        Op::Supseteq => subset_op(b, a),
        Op::Cup | Op::Cap | Op::SetMinus | Op::Cartesian => set_binary(op, a, b),
        Op::Concat => concat(a, b),
        Op::OneTo => Ok(one_pair(a, b)),
        Op::AtAt => merge(a, b),
        other => {
            let mut m = text("`");
            append(&mut m, other.symbol());
            append(&mut m, "` is not an infix operator");
            Err(Error::Malformed(m))
        },
    }
}

} // verus!
