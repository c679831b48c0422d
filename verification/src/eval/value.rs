//! The values TLA+ expressions evaluate to.

use vstd::prelude::*;
use crate::text::{append, chars_of, push_char, push_int, text};

verus! {

/// A TLA+ value.
///
/// Sequences, records and functions are all functions in TLA+, and the same
/// value must not have two representations or equality would depend on how it
/// was written. [`Value::function`] picks the representation from the domain:
/// `1..n` gives a sequence, all-string gives a record, anything else stays a
/// general function.
///
/// Sets, records and functions are held sorted by [`compare`] and without
/// repeated elements or keys, so that equal values are equal vectors.
#[derive(Debug, PartialEq, Eq)]
pub enum Value {
    Bool(bool),
    Int(i64),
    Str(String),
    Sequence(Vec<Value>),
    FiniteSet(Vec<Value>),
    Record(Vec<(String, Value)>),
    Func(Vec<(Value, Value)>),
    /// A set too large to enumerate. Membership is decidable; iteration is not.
    Infinite(Infinite),
}

#[derive(Debug, PartialEq, Eq)]
pub enum Infinite {
    Nat,
    Int,
    Strings,
    /// `Seq(S)` — every finite sequence over `S`.
    Sequences(Box<Value>),
}

/// The result of comparing two values.
#[derive(Debug, Clone, Copy, PartialEq, Eq, Structural)]
pub enum Rel {
    Less,
    Equal,
    Greater,
}

/// The mathematical content of a value: collections are sequences, text is a
/// sequence of characters.
pub enum VV {
    Bool(bool),
    Int(int),
    Str(Seq<char>),
    Sequence(Seq<VV>),
    FiniteSet(Seq<VV>),
    Record(Seq<(Seq<char>, VV)>),
    Func(Seq<(VV, VV)>),
    Nat,
    Ints,
    Strings,
    Sequences(Box<VV>),
}

pub open spec fn view_of(v: Value) -> VV
    decreases v,
{
    match v {
        Value::Bool(b) => VV::Bool(b),
        Value::Int(n) => VV::Int(n as int),
        Value::Str(s) => VV::Str(s@),
        Value::Sequence(items) => VV::Sequence(view_list(items@)),
        Value::FiniteSet(items) => VV::FiniteSet(view_list(items@)),
        Value::Record(fields) => VV::Record(view_fields(fields@)),
        Value::Func(pairs) => VV::Func(view_pairs(pairs@)),
        Value::Infinite(Infinite::Nat) => VV::Nat,
        Value::Infinite(Infinite::Int) => VV::Ints,
        Value::Infinite(Infinite::Strings) => VV::Strings,
        Value::Infinite(Infinite::Sequences(of)) => VV::Sequences(Box::new(view_of(*of))),
    }
}

pub open spec fn view_list(s: Seq<Value>) -> Seq<VV>
    decreases s,
{
    if s.len() == 0 { Seq::empty() } else { view_list(s.drop_last()).push(view_of(s.last())) }
}

pub open spec fn view_fields(s: Seq<(String, Value)>) -> Seq<(Seq<char>, VV)>
    decreases s,
{
    if s.len() == 0 { Seq::empty() } else { view_fields(s.drop_last()).push((s.last().0@, view_of(s.last().1))) }
}

pub open spec fn view_pairs(s: Seq<(Value, Value)>) -> Seq<(VV, VV)>
    decreases s,
{
    if s.len() == 0 { Seq::empty() } else { view_pairs(s.drop_last()).push((view_of(s.last().0), view_of(s.last().1))) }
}

impl View for Value {
    type V = VV;

    open spec fn view(&self) -> VV {
        view_of(*self)
    }
}

pub proof fn lemma_view_list_push(s: Seq<Value>, x: Value)
    ensures
        view_list(s.push(x)) == view_list(s).push(view_of(x)),
{
    assert(s.push(x).drop_last() =~= s);
}

pub proof fn lemma_view_list_len(s: Seq<Value>)
    ensures
        view_list(s).len() == s.len(),
        forall|i: int| 0 <= i < s.len() ==> #[trigger] view_list(s)[i] == view_of(s[i]),
    decreases s.len(),
{
    if s.len() > 0 {
        lemma_view_list_len(s.drop_last());
    }
}

pub proof fn lemma_view_fields_len(s: Seq<(String, Value)>)
    ensures
        view_fields(s).len() == s.len(),
        forall|i: int| 0 <= i < s.len() ==> #[trigger] view_fields(s)[i] == (s[i].0@, view_of(s[i].1)),
    decreases s.len(),
{
    if s.len() > 0 {
        lemma_view_fields_len(s.drop_last());
    }
}

pub proof fn lemma_view_pairs_len(s: Seq<(Value, Value)>)
    ensures
        view_pairs(s).len() == s.len(),
        forall|i: int| 0 <= i < s.len() ==> #[trigger] view_pairs(s)[i] == (view_of(s[i].0), view_of(s[i].1)),
    decreases s.len(),
{
    if s.len() > 0 {
        lemma_view_pairs_len(s.drop_last());
    }
}

// ------------------------------------------------------------------ order

/// The variant's place in the order: booleans, then integers, strings,
/// sequences, sets, records, functions, and the infinite sets last.
pub open spec fn rank(v: VV) -> int {
    match v {
        VV::Bool(_) => 0,
        VV::Int(_) => 1,
        VV::Str(_) => 2,
        VV::Sequence(_) => 3,
        VV::FiniteSet(_) => 4,
        VV::Record(_) => 5,
        VV::Func(_) => 6,
        VV::Nat => 7,
        VV::Ints => 8,
        VV::Strings => 9,
        VV::Sequences(_) => 10,
    }
}

pub open spec fn sign(x: int) -> int {
    if x < 0 { -1 } else if x > 0 { 1 } else { 0 }
}

/// Lexicographic comparison of character sequences.
pub open spec fn chars_order(a: Seq<char>, b: Seq<char>) -> int
    decreases a.len(),
{
    if a.len() == 0 {
        if b.len() == 0 { 0 } else { -1 }
    } else if b.len() == 0 {
        1
    } else if a[0] != b[0] {
        sign(a[0] as int - b[0] as int)
    } else {
        chars_order(a.drop_first(), b.drop_first())
    }
}

/// The total order values are kept sorted by: variant first, then contents,
/// collections lexicographically. `-1`, `0` or `1`.
pub open spec fn vorder(a: VV, b: VV) -> int
    decreases a,
{
    if rank(a) != rank(b) {
        sign(rank(a) - rank(b))
    } else {
        match (a, b) {
            (VV::Bool(x), VV::Bool(y)) => if x == y { 0 } else if !x { -1 } else { 1 },
            (VV::Int(x), VV::Int(y)) => sign(x - y),
            (VV::Str(x), VV::Str(y)) => chars_order(x, y),
            (VV::Sequence(x), VV::Sequence(y)) => list_order(x, y),
            (VV::FiniteSet(x), VV::FiniteSet(y)) => list_order(x, y),
            (VV::Record(x), VV::Record(y)) => fields_order(x, y),
            (VV::Func(x), VV::Func(y)) => pairs_order(x, y),
            (VV::Sequences(x), VV::Sequences(y)) => vorder(*x, *y),
            _ => 0,
        }
    }
}

pub open spec fn list_order(a: Seq<VV>, b: Seq<VV>) -> int
    decreases a,
{
    if a.len() == 0 {
        if b.len() == 0 { 0 } else { -1 }
    } else if b.len() == 0 {
        1
    } else {
        let c = vorder(a[0], b[0]);
        if c != 0 { c } else { list_order(a.drop_first(), b.drop_first()) }
    }
}

pub open spec fn fields_order(a: Seq<(Seq<char>, VV)>, b: Seq<(Seq<char>, VV)>) -> int
    decreases a,
{
    if a.len() == 0 {
        if b.len() == 0 { 0 } else { -1 }
    } else if b.len() == 0 {
        1
    } else {
        let c = chars_order(a[0].0, b[0].0);
        if c != 0 {
            c
        } else {
            let d = vorder(a[0].1, b[0].1);
            if d != 0 { d } else { fields_order(a.drop_first(), b.drop_first()) }
        }
    }
}

pub open spec fn pairs_order(a: Seq<(VV, VV)>, b: Seq<(VV, VV)>) -> int
    decreases a,
{
    if a.len() == 0 {
        if b.len() == 0 { 0 } else { -1 }
    } else if b.len() == 0 {
        1
    } else {
        let c = vorder(a[0].0, b[0].0);
        if c != 0 {
            c
        } else {
            let d = vorder(a[0].1, b[0].1);
            if d != 0 { d } else { pairs_order(a.drop_first(), b.drop_first()) }
        }
    }
}

pub open spec fn rel_of(c: int) -> Rel {
    if c < 0 { Rel::Less } else if c == 0 { Rel::Equal } else { Rel::Greater }
}

/// Two character sequences compare as equal exactly when they are equal.
pub proof fn lemma_chars_order_zero(a: Seq<char>, b: Seq<char>)
    ensures
        (chars_order(a, b) == 0) <==> (a == b),
    decreases a.len(),
{
    if a.len() > 0 && b.len() > 0 && a[0] == b[0] {
        lemma_chars_order_zero(a.drop_first(), b.drop_first());
        if a.drop_first() == b.drop_first() {
            assert forall|i: int| 0 <= i < a.len() implies a[i] == b[i] by {
                if i > 0 {
                    assert(a[i] == a.drop_first()[i - 1]);
                    assert(b[i] == b.drop_first()[i - 1]);
                }
            }
            assert(a =~= b);
        }
    } else if a.len() > 0 && b.len() > 0 {
        assert(a[0] as int != b[0] as int);
    } else if a.len() > 0 {
        assert(a.len() != b.len());
    } else if b.len() > 0 {
        assert(a.len() != b.len());
    } else {
        assert(a =~= b);
    }
}

/// Values compare as equal exactly when they are equal: the order that keeps
/// sets and functions sorted is also their equality.
pub proof fn lemma_vorder_zero(a: VV, b: VV)
    ensures
        (vorder(a, b) == 0) <==> (a == b),
    decreases a,
{
    if rank(a) == rank(b) {
        match (a, b) {
            (VV::Str(x), VV::Str(y)) => lemma_chars_order_zero(x, y),
            (VV::Sequence(x), VV::Sequence(y)) => lemma_list_order_zero(x, y),
            (VV::FiniteSet(x), VV::FiniteSet(y)) => lemma_list_order_zero(x, y),
            (VV::Record(x), VV::Record(y)) => lemma_fields_order_zero(x, y),
            (VV::Func(x), VV::Func(y)) => lemma_pairs_order_zero(x, y),
            (VV::Sequences(x), VV::Sequences(y)) => lemma_vorder_zero(*x, *y),
            _ => {},
        }
    }
}

proof fn lemma_list_order_zero(a: Seq<VV>, b: Seq<VV>)
    ensures
        (list_order(a, b) == 0) <==> (a == b),
    decreases a,
{
    if a.len() > 0 && b.len() > 0 {
        lemma_vorder_zero(a[0], b[0]);
        lemma_list_order_zero(a.drop_first(), b.drop_first());
        if a[0] == b[0] && a.drop_first() == b.drop_first() {
            assert forall|i: int| 0 <= i < a.len() implies a[i] == b[i] by {
                if i > 0 {
                    assert(a[i] == a.drop_first()[i - 1]);
                    assert(b[i] == b.drop_first()[i - 1]);
                }
            }
            assert(a =~= b);
        }
    } else if a.len() > 0 || b.len() > 0 {
        assert(a.len() != b.len());
    } else {
        assert(a =~= b);
    }
}

proof fn lemma_fields_order_zero(a: Seq<(Seq<char>, VV)>, b: Seq<(Seq<char>, VV)>)
    ensures
        (fields_order(a, b) == 0) <==> (a == b),
    decreases a,
{
    if a.len() > 0 && b.len() > 0 {
        lemma_chars_order_zero(a[0].0, b[0].0);
        lemma_vorder_zero(a[0].1, b[0].1);
        lemma_fields_order_zero(a.drop_first(), b.drop_first());
        if a[0] == b[0] && a.drop_first() == b.drop_first() {
            assert forall|i: int| 0 <= i < a.len() implies a[i] == b[i] by {
                if i > 0 {
                    assert(a[i] == a.drop_first()[i - 1]);
                    assert(b[i] == b.drop_first()[i - 1]);
                }
            }
            assert(a =~= b);
        }
    } else if a.len() > 0 || b.len() > 0 {
        assert(a.len() != b.len());
    } else {
        assert(a =~= b);
    }
}

proof fn lemma_pairs_order_zero(a: Seq<(VV, VV)>, b: Seq<(VV, VV)>)
    ensures
        (pairs_order(a, b) == 0) <==> (a == b),
    decreases a,
{
    if a.len() > 0 && b.len() > 0 {
        lemma_vorder_zero(a[0].0, b[0].0);
        lemma_vorder_zero(a[0].1, b[0].1);
        lemma_pairs_order_zero(a.drop_first(), b.drop_first());
        if a[0] == b[0] && a.drop_first() == b.drop_first() {
            assert forall|i: int| 0 <= i < a.len() implies a[i] == b[i] by {
                if i > 0 {
                    assert(a[i] == a.drop_first()[i - 1]);
                    assert(b[i] == b.drop_first()[i - 1]);
                }
            }
            assert(a =~= b);
        }
    } else if a.len() > 0 || b.len() > 0 {
        assert(a.len() != b.len());
    } else {
        assert(a =~= b);
    }
}


/// Comparing the other way round gives the opposite answer.
pub proof fn lemma_chars_order_antisym(a: Seq<char>, b: Seq<char>)
    ensures
        chars_order(a, b) == -chars_order(b, a),
    decreases a.len(),
{
    if a.len() > 0 && b.len() > 0 && a[0] == b[0] {
        lemma_chars_order_antisym(a.drop_first(), b.drop_first());
    }
}

/// The order on character sequences is transitive.
pub proof fn lemma_chars_order_trans(a: Seq<char>, b: Seq<char>, c: Seq<char>)
    requires
        chars_order(a, b) < 0,
        chars_order(b, c) < 0,
    ensures
        chars_order(a, c) < 0,
    decreases a.len(),
{
    if a.len() > 0 && b.len() > 0 && c.len() > 0 && a[0] == b[0] && b[0] == c[0] {
        lemma_chars_order_trans(a.drop_first(), b.drop_first(), c.drop_first());
    }
}

/// Comparing two values the other way round gives the opposite answer.
pub proof fn lemma_vorder_antisym(a: VV, b: VV)
    ensures
        vorder(a, b) == -vorder(b, a),
    decreases a,
{
    if rank(a) == rank(b) {
        match (a, b) {
            (VV::Str(x), VV::Str(y)) => lemma_chars_order_antisym(x, y),
            (VV::Sequence(x), VV::Sequence(y)) => lemma_list_order_antisym(x, y),
            (VV::FiniteSet(x), VV::FiniteSet(y)) => lemma_list_order_antisym(x, y),
            (VV::Record(x), VV::Record(y)) => lemma_fields_order_antisym(x, y),
            (VV::Func(x), VV::Func(y)) => lemma_pairs_order_antisym(x, y),
            (VV::Sequences(x), VV::Sequences(y)) => lemma_vorder_antisym(*x, *y),
            _ => {},
        }
    }
}

proof fn lemma_list_order_antisym(a: Seq<VV>, b: Seq<VV>)
    ensures
        list_order(a, b) == -list_order(b, a),
    decreases a,
{
    if a.len() > 0 && b.len() > 0 {
        lemma_vorder_antisym(a[0], b[0]);
        lemma_list_order_antisym(a.drop_first(), b.drop_first());
    }
}

proof fn lemma_fields_order_antisym(a: Seq<(Seq<char>, VV)>, b: Seq<(Seq<char>, VV)>)
    ensures
        fields_order(a, b) == -fields_order(b, a),
    decreases a,
{
    if a.len() > 0 && b.len() > 0 {
        lemma_chars_order_antisym(a[0].0, b[0].0);
        lemma_vorder_antisym(a[0].1, b[0].1);
        lemma_fields_order_antisym(a.drop_first(), b.drop_first());
    }
}

proof fn lemma_pairs_order_antisym(a: Seq<(VV, VV)>, b: Seq<(VV, VV)>)
    ensures
        pairs_order(a, b) == -pairs_order(b, a),
    decreases a,
{
    if a.len() > 0 && b.len() > 0 {
        lemma_vorder_antisym(a[0].0, b[0].0);
        lemma_vorder_antisym(a[0].1, b[0].1);
        lemma_pairs_order_antisym(a.drop_first(), b.drop_first());
    }
}

/// The order on values is transitive.
pub proof fn lemma_vorder_trans(a: VV, b: VV, c: VV)
    requires
        vorder(a, b) < 0,
        vorder(b, c) < 0,
    ensures
        vorder(a, c) < 0,
    decreases a,
{
    if rank(a) == rank(b) && rank(b) == rank(c) {
        match (a, b, c) {
            (VV::Str(x), VV::Str(y), VV::Str(z)) => lemma_chars_order_trans(x, y, z),
            (VV::Sequence(x), VV::Sequence(y), VV::Sequence(z)) => lemma_list_order_trans(x, y, z),
            (VV::FiniteSet(x), VV::FiniteSet(y), VV::FiniteSet(z)) => lemma_list_order_trans(x, y, z),
            (VV::Record(x), VV::Record(y), VV::Record(z)) => lemma_fields_order_trans(x, y, z),
            (VV::Func(x), VV::Func(y), VV::Func(z)) => lemma_pairs_order_trans(x, y, z),
            (VV::Sequences(x), VV::Sequences(y), VV::Sequences(z)) => lemma_vorder_trans(*x, *y, *z),
            _ => {},
        }
    }
}

/// `a < b` and `b <= c` give `a < c`, and the same the other way.
pub proof fn lemma_vorder_trans_le(a: VV, b: VV, c: VV)
    requires
        vorder(a, b) <= 0,
        vorder(b, c) <= 0,
        vorder(a, b) < 0 || vorder(b, c) < 0,
    ensures
        vorder(a, c) < 0,
{
    lemma_vorder_zero(a, b);
    lemma_vorder_zero(b, c);
    if vorder(a, b) < 0 && vorder(b, c) < 0 {
        lemma_vorder_trans(a, b, c);
    }
}

proof fn lemma_list_order_trans(a: Seq<VV>, b: Seq<VV>, c: Seq<VV>)
    requires
        list_order(a, b) < 0,
        list_order(b, c) < 0,
    ensures
        list_order(a, c) < 0,
    decreases a,
{
    if a.len() > 0 && b.len() > 0 && c.len() > 0 {
        lemma_vorder_zero(a[0], b[0]);
        lemma_vorder_zero(b[0], c[0]);
        if vorder(a[0], b[0]) == 0 && vorder(b[0], c[0]) == 0 {
            lemma_list_order_trans(a.drop_first(), b.drop_first(), c.drop_first());
        } else if vorder(a[0], b[0]) < 0 && vorder(b[0], c[0]) < 0 {
            lemma_vorder_trans(a[0], b[0], c[0]);
        }
    }
}

proof fn lemma_fields_order_trans(a: Seq<(Seq<char>, VV)>, b: Seq<(Seq<char>, VV)>, c: Seq<(Seq<char>, VV)>)
    requires
        fields_order(a, b) < 0,
        fields_order(b, c) < 0,
    ensures
        fields_order(a, c) < 0,
    decreases a,
{
    if a.len() > 0 && b.len() > 0 && c.len() > 0 {
        lemma_chars_order_zero(a[0].0, b[0].0);
        lemma_chars_order_zero(b[0].0, c[0].0);
        lemma_vorder_zero(a[0].1, b[0].1);
        lemma_vorder_zero(b[0].1, c[0].1);
        if chars_order(a[0].0, b[0].0) < 0 && chars_order(b[0].0, c[0].0) < 0 {
            lemma_chars_order_trans(a[0].0, b[0].0, c[0].0);
        } else if chars_order(a[0].0, b[0].0) == 0 && chars_order(b[0].0, c[0].0) == 0 {
            if vorder(a[0].1, b[0].1) == 0 && vorder(b[0].1, c[0].1) == 0 {
                lemma_fields_order_trans(a.drop_first(), b.drop_first(), c.drop_first());
            } else if vorder(a[0].1, b[0].1) < 0 && vorder(b[0].1, c[0].1) < 0 {
                lemma_vorder_trans(a[0].1, b[0].1, c[0].1);
            }
        }
    }
}

proof fn lemma_pairs_order_trans(a: Seq<(VV, VV)>, b: Seq<(VV, VV)>, c: Seq<(VV, VV)>)
    requires
        pairs_order(a, b) < 0,
        pairs_order(b, c) < 0,
    ensures
        pairs_order(a, c) < 0,
    decreases a,
{
    if a.len() > 0 && b.len() > 0 && c.len() > 0 {
        lemma_vorder_zero(a[0].0, b[0].0);
        lemma_vorder_zero(b[0].0, c[0].0);
        lemma_vorder_zero(a[0].1, b[0].1);
        lemma_vorder_zero(b[0].1, c[0].1);
        if vorder(a[0].0, b[0].0) < 0 && vorder(b[0].0, c[0].0) < 0 {
            lemma_vorder_trans(a[0].0, b[0].0, c[0].0);
        } else if vorder(a[0].0, b[0].0) == 0 && vorder(b[0].0, c[0].0) == 0 {
            if vorder(a[0].1, b[0].1) == 0 && vorder(b[0].1, c[0].1) == 0 {
                lemma_pairs_order_trans(a.drop_first(), b.drop_first(), c.drop_first());
            } else if vorder(a[0].1, b[0].1) < 0 && vorder(b[0].1, c[0].1) < 0 {
                lemma_vorder_trans(a[0].1, b[0].1, c[0].1);
            }
        }
    }
}

} // verus!

verus! {

fn rank_of(v: &Value) -> (r: u8)
    ensures
        r as int == rank(v@),
{
    match v {
        Value::Bool(_) => 0,
        Value::Int(_) => 1,
        Value::Str(_) => 2,
        Value::Sequence(_) => 3,
        Value::FiniteSet(_) => 4,
        Value::Record(_) => 5,
        Value::Func(_) => 6,
        Value::Infinite(Infinite::Nat) => 7,
        Value::Infinite(Infinite::Int) => 8,
        Value::Infinite(Infinite::Strings) => 9,
        Value::Infinite(Infinite::Sequences(_)) => 10,
    }
}

/// Compare two character sequences lexicographically.
pub fn compare_text(a: &String, b: &String) -> (r: Rel)
    ensures
        r == rel_of(chars_order(a@, b@)),
{
    let x = chars_of(a.as_str());
    let y = chars_of(b.as_str());
    let mut i: usize = 0;
    assert(a@.skip(0) =~= a@);
    assert(b@.skip(0) =~= b@);
    while i < x.len() && i < y.len()
        invariant
            x@ == a@,
            y@ == b@,
            i <= x.len(),
            i <= y.len(),
            chars_order(a@, b@) == chars_order(a@.skip(i as int), b@.skip(i as int)),
        decreases x.len() - i,
    {
        assert(a@.skip(i as int)[0] == x@[i as int]);
        assert(b@.skip(i as int)[0] == y@[i as int]);
        if x[i] != y[i] {
            return if x[i] < y[i] { Rel::Less } else { Rel::Greater };
        }
        assert(a@.skip(i as int).drop_first() =~= a@.skip(i + 1));
        assert(b@.skip(i as int).drop_first() =~= b@.skip(i + 1));
        i = i + 1;
    }
    if x.len() == y.len() {
        Rel::Equal
    } else if x.len() < y.len() {
        Rel::Less
    } else {
        Rel::Greater
    }
}

/// Compare two values in the order sets and functions are kept sorted by.
pub fn compare(a: &Value, b: &Value) -> (r: Rel)
    ensures
        r == rel_of(vorder(a@, b@)),
    decreases a,
{
    let ra = rank_of(a);
    let rb = rank_of(b);
    if ra < rb {
        return Rel::Less;
    }
    if ra > rb {
        return Rel::Greater;
    }
    match (a, b) {
        (Value::Bool(x), Value::Bool(y)) => {
            if *x == *y { Rel::Equal } else if !*x { Rel::Less } else { Rel::Greater }
        },
        (Value::Int(x), Value::Int(y)) => {
            if *x < *y { Rel::Less } else if *x == *y { Rel::Equal } else { Rel::Greater }
        },
        (Value::Str(x), Value::Str(y)) => compare_text(x, y),
        (Value::Sequence(x), Value::Sequence(y)) => compare_list(x, y),
        (Value::FiniteSet(x), Value::FiniteSet(y)) => compare_list(x, y),
        (Value::Record(x), Value::Record(y)) => compare_fields(x, y),
        (Value::Func(x), Value::Func(y)) => compare_pairs(x, y),
        (Value::Infinite(Infinite::Sequences(x)), Value::Infinite(Infinite::Sequences(y))) => compare(x, y),
        _ => Rel::Equal,
    }
}

fn compare_list(x: &Vec<Value>, y: &Vec<Value>) -> (r: Rel)
    ensures
        r == rel_of(list_order(view_list(x@), view_list(y@))),
    decreases x,
{
    proof { lemma_view_list_len(x@); lemma_view_list_len(y@); }
    let ghost vx = view_list(x@);
    let ghost vy = view_list(y@);
    let mut i: usize = 0;
    assert(vx.skip(0) =~= vx);
    assert(vy.skip(0) =~= vy);
    while i < x.len() && i < y.len()
        invariant
            vx == view_list(x@),
            vy == view_list(y@),
            vx.len() == x.len(),
            vy.len() == y.len(),
            forall|k: int| 0 <= k < x.len() ==> #[trigger] vx[k] == view_of(x@[k]),
            forall|k: int| 0 <= k < y.len() ==> #[trigger] vy[k] == view_of(y@[k]),
            i <= x.len(),
            i <= y.len(),
            list_order(vx, vy) == list_order(vx.skip(i as int), vy.skip(i as int)),
        decreases x.len() - i,
    {
        proof {
            assert(decreases_to!(*x => x@));
            assert(decreases_to!(x@ => x@[i as int]));
            assert(vx.skip(i as int)[0] == vx[i as int]);
            assert(vy.skip(i as int)[0] == vy[i as int]);
        }
        let c = compare(&x[i], &y[i]);
        if !matches!(c, Rel::Equal) {
            return c;
        }
        assert(vx.skip(i as int).drop_first() =~= vx.skip(i + 1));
        assert(vy.skip(i as int).drop_first() =~= vy.skip(i + 1));
        i = i + 1;
    }
    if x.len() == y.len() {
        Rel::Equal
    } else if x.len() < y.len() {
        Rel::Less
    } else {
        Rel::Greater
    }
}

fn compare_fields(x: &Vec<(String, Value)>, y: &Vec<(String, Value)>) -> (r: Rel)
    ensures
        r == rel_of(fields_order(view_fields(x@), view_fields(y@))),
    decreases x,
{
    proof { lemma_view_fields_len(x@); lemma_view_fields_len(y@); }
    let ghost vx = view_fields(x@);
    let ghost vy = view_fields(y@);
    let mut i: usize = 0;
    assert(vx.skip(0) =~= vx);
    assert(vy.skip(0) =~= vy);
    while i < x.len() && i < y.len()
        invariant
            vx == view_fields(x@),
            vy == view_fields(y@),
            vx.len() == x.len(),
            vy.len() == y.len(),
            forall|k: int| 0 <= k < x.len() ==> #[trigger] vx[k] == (x@[k].0@, view_of(x@[k].1)),
            forall|k: int| 0 <= k < y.len() ==> #[trigger] vy[k] == (y@[k].0@, view_of(y@[k].1)),
            i <= x.len(),
            i <= y.len(),
            fields_order(vx, vy) == fields_order(vx.skip(i as int), vy.skip(i as int)),
        decreases x.len() - i,
    {
        proof {
            assert(decreases_to!(*x => x@));
            assert(decreases_to!(x@ => x@[i as int]));
            assert(decreases_to!(x@[i as int] => x@[i as int].1));
            assert(vx.skip(i as int)[0] == vx[i as int]);
            assert(vy.skip(i as int)[0] == vy[i as int]);
        }
        let c = compare_text(&x[i].0, &y[i].0);
        if !matches!(c, Rel::Equal) {
            return c;
        }
        let d = compare(&x[i].1, &y[i].1);
        if !matches!(d, Rel::Equal) {
            return d;
        }
        assert(vx.skip(i as int).drop_first() =~= vx.skip(i + 1));
        assert(vy.skip(i as int).drop_first() =~= vy.skip(i + 1));
        i = i + 1;
    }
    if x.len() == y.len() {
        Rel::Equal
    } else if x.len() < y.len() {
        Rel::Less
    } else {
        Rel::Greater
    }
}

fn compare_pairs(x: &Vec<(Value, Value)>, y: &Vec<(Value, Value)>) -> (r: Rel)
    ensures
        r == rel_of(pairs_order(view_pairs(x@), view_pairs(y@))),
    decreases x,
{
    proof { lemma_view_pairs_len(x@); lemma_view_pairs_len(y@); }
    let ghost vx = view_pairs(x@);
    let ghost vy = view_pairs(y@);
    let mut i: usize = 0;
    assert(vx.skip(0) =~= vx);
    assert(vy.skip(0) =~= vy);
    while i < x.len() && i < y.len()
        invariant
            vx == view_pairs(x@),
            vy == view_pairs(y@),
            vx.len() == x.len(),
            vy.len() == y.len(),
            forall|k: int| 0 <= k < x.len() ==> #[trigger] vx[k] == (view_of(x@[k].0), view_of(x@[k].1)),
            forall|k: int| 0 <= k < y.len() ==> #[trigger] vy[k] == (view_of(y@[k].0), view_of(y@[k].1)),
            i <= x.len(),
            i <= y.len(),
            pairs_order(vx, vy) == pairs_order(vx.skip(i as int), vy.skip(i as int)),
        decreases x.len() - i,
    {
        proof {
            assert(decreases_to!(*x => x@));
            assert(decreases_to!(x@ => x@[i as int]));
            assert(decreases_to!(x@[i as int] => x@[i as int].0));
            assert(decreases_to!(x@[i as int] => x@[i as int].1));
            assert(vx.skip(i as int)[0] == vx[i as int]);
            assert(vy.skip(i as int)[0] == vy[i as int]);
        }
        let c = compare(&x[i].0, &y[i].0);
        if !matches!(c, Rel::Equal) {
            return c;
        }
        let d = compare(&x[i].1, &y[i].1);
        if !matches!(d, Rel::Equal) {
            return d;
        }
        assert(vx.skip(i as int).drop_first() =~= vx.skip(i + 1));
        assert(vy.skip(i as int).drop_first() =~= vy.skip(i + 1));
        i = i + 1;
    }
    if x.len() == y.len() {
        Rel::Equal
    } else if x.len() < y.len() {
        Rel::Less
    } else {
        Rel::Greater
    }
}

} // verus!

verus! {

/// A copy of a value.
pub fn copy(v: &Value) -> (r: Value)
    ensures
        r@ == v@,
    decreases v,
{
    match v {
        Value::Bool(b) => Value::Bool(*b),
        Value::Int(n) => Value::Int(*n),
        Value::Str(s) => Value::Str(s.clone()),
        Value::Sequence(items) => Value::Sequence(copy_list(items)),
        Value::FiniteSet(items) => Value::FiniteSet(copy_list(items)),
        Value::Record(fields) => Value::Record(copy_fields(fields)),
        Value::Func(pairs) => Value::Func(copy_pairs(pairs)),
        Value::Infinite(Infinite::Nat) => Value::Infinite(Infinite::Nat),
        Value::Infinite(Infinite::Int) => Value::Infinite(Infinite::Int),
        Value::Infinite(Infinite::Strings) => Value::Infinite(Infinite::Strings),
        Value::Infinite(Infinite::Sequences(of)) => Value::Infinite(Infinite::Sequences(Box::new(copy(of)))),
    }
}

pub fn copy_list(items: &Vec<Value>) -> (r: Vec<Value>)
    ensures
        view_list(r@) == view_list(items@),
        r.len() == items.len(),
    decreases items,
{
    let mut out: Vec<Value> = Vec::new();
    let mut i: usize = 0;
    while i < items.len()
        invariant
            i <= items.len(),
            out.len() == i,
            view_list(out@) == view_list(items@.take(i as int)),
        decreases items.len() - i,
    {
        proof {
            assert(decreases_to!(*items => items@));
            assert(decreases_to!(items@ => items@[i as int]));
        }
        let c = copy(&items[i]);
        let ghost before = out@;
        out.push(c);
        proof {
            assert(out@.drop_last() =~= before);
            assert(items@.take(i + 1).drop_last() =~= items@.take(i as int));
        }
        i = i + 1;
    }
    proof { assert(items@.take(items@.len() as int) =~= items@); }
    out
}

pub fn copy_fields(items: &Vec<(String, Value)>) -> (r: Vec<(String, Value)>)
    ensures
        view_fields(r@) == view_fields(items@),
        r.len() == items.len(),
    decreases items,
{
    let mut out: Vec<(String, Value)> = Vec::new();
    let mut i: usize = 0;
    while i < items.len()
        invariant
            i <= items.len(),
            out.len() == i,
            view_fields(out@) == view_fields(items@.take(i as int)),
        decreases items.len() - i,
    {
        proof {
            assert(decreases_to!(*items => items@));
            assert(decreases_to!(items@ => items@[i as int]));
            assert(decreases_to!(items@[i as int] => items@[i as int].1));
        }
        let c = copy(&items[i].1);
        let ghost before = out@;
        out.push((items[i].0.clone(), c));
        proof {
            assert(out@.drop_last() =~= before);
            assert(items@.take(i + 1).drop_last() =~= items@.take(i as int));
        }
        i = i + 1;
    }
    proof { assert(items@.take(items@.len() as int) =~= items@); }
    out
}

pub fn copy_pairs(items: &Vec<(Value, Value)>) -> (r: Vec<(Value, Value)>)
    ensures
        view_pairs(r@) == view_pairs(items@),
        r.len() == items.len(),
    decreases items,
{
    let mut out: Vec<(Value, Value)> = Vec::new();
    let mut i: usize = 0;
    while i < items.len()
        invariant
            i <= items.len(),
            out.len() == i,
            view_pairs(out@) == view_pairs(items@.take(i as int)),
        decreases items.len() - i,
    {
        proof {
            assert(decreases_to!(*items => items@));
            assert(decreases_to!(items@ => items@[i as int]));
            assert(decreases_to!(items@[i as int] => items@[i as int].0));
            assert(decreases_to!(items@[i as int] => items@[i as int].1));
        }
        let k = copy(&items[i].0);
        let v = copy(&items[i].1);
        let ghost before = out@;
        out.push((k, v));
        proof {
            assert(out@.drop_last() =~= before);
            assert(items@.take(i + 1).drop_last() =~= items@.take(i as int));
        }
        i = i + 1;
    }
    proof { assert(items@.take(items@.len() as int) =~= items@); }
    out
}

impl Clone for Value {
    fn clone(&self) -> (r: Self)
        ensures
            r@ == self@,
    {
        copy(self)
    }
}

impl Clone for Infinite {
    fn clone(&self) -> (r: Self) {
        match self {
            Infinite::Nat => Infinite::Nat,
            Infinite::Int => Infinite::Int,
            Infinite::Strings => Infinite::Strings,
            Infinite::Sequences(of) => Infinite::Sequences(Box::new(copy(of))),
        }
    }
}

} // verus!

verus! {

/// Where `x` belongs in a list kept sorted by [`compare`]: the position of an
/// equal element, or the position it would be inserted at.
pub fn search(items: &Vec<Value>, x: &Value) -> (r: (usize, bool))
    ensures
        r.0 <= items.len(),
        r.1 ==> r.0 < items.len() && vorder(items@[r.0 as int]@, x@) == 0,
        sorted(items@) && !r.1 ==> (forall|i: int| 0 <= i < r.0 ==> vorder(#[trigger] items@[i]@, x@) < 0)
            && (forall|i: int| r.0 <= i < items.len() ==> vorder(#[trigger] items@[i]@, x@) > 0),
{
    let mut lo: usize = 0;
    let mut hi: usize = items.len();
    while lo < hi
        invariant
            lo <= hi <= items.len(),
            sorted(items@) ==> forall|i: int| 0 <= i < lo ==> vorder(#[trigger] items@[i]@, x@) < 0,
            sorted(items@) ==> forall|i: int| hi <= i < items.len() ==> vorder(#[trigger] items@[i]@, x@) > 0,
        decreases hi - lo,
    {
        let mid = lo + (hi - lo) / 2;
        match compare(&items[mid], x) {
            Rel::Less => {
                proof {
                    if sorted(items@) {
                        assert forall|i: int| 0 <= i < mid + 1 implies vorder(#[trigger] items@[i]@, x@) < 0 by {
                            if i < mid {
                                lemma_vorder_trans(items@[i]@, items@[mid as int]@, x@);
                            }
                        }
                    }
                }
                lo = mid + 1;
            },
            Rel::Equal => return (mid, true),
            Rel::Greater => {
                proof {
                    if sorted(items@) {
                        lemma_vorder_antisym(items@[mid as int]@, x@);
                        assert forall|i: int| mid <= i < items.len() implies vorder(#[trigger] items@[i]@, x@) > 0 by {
                            if i > mid {
                                lemma_vorder_trans(x@, items@[mid as int]@, items@[i]@);
                                lemma_vorder_antisym(x@, items@[i]@);
                            }
                        }
                    }
                }
                hi = mid;
            },
        }
    }
    (lo, false)
}

/// Every element comes strictly before the next in the value order, so no
/// element is repeated.
pub open spec fn sorted(s: Seq<Value>) -> bool {
    forall|i: int, j: int| 0 <= i < j < s.len() ==> vorder(#[trigger] s[i]@, #[trigger] s[j]@) < 0
}

/// Two sorted lists that hold the same values are the same list: a set has
/// exactly one representation, so equal sets are equal values.
pub proof fn law_sorted_sets_are_equal(a: Seq<Value>, b: Seq<Value>)
    requires
        sorted(a),
        sorted(b),
        forall|y: VV| #[trigger] holds(a, y) <==> holds(b, y),
    ensures
        view_list(a) == view_list(b),
    decreases a.len(),
{
    lemma_view_list_len(a);
    lemma_view_list_len(b);
    if a.len() == 0 {
        if b.len() > 0 {
            assert(view_of(b[0]) == b[0]@);
            assert(holds(b, b[0]@));
            assert(!holds(a, b[0]@));
        }
        assert(view_list(a) =~= view_list(b));
    } else {
        assert(view_of(a[0]) == a[0]@);
        assert(holds(a, a[0]@));
        assert(holds(b, a[0]@));
        assert(b.len() > 0);
        assert(view_of(b[0]) == b[0]@);
        assert(holds(b, b[0]@));
        assert(holds(a, b[0]@));
        let i = choose|i: int| 0 <= i < b.len() && #[trigger] view_of(b[i]) == a[0]@;
        let j = choose|j: int| 0 <= j < a.len() && #[trigger] view_of(a[j]) == b[0]@;
        // The least elements coincide.
        lemma_vorder_zero(a[0]@, a[0]@);
        lemma_vorder_zero(b[0]@, b[0]@);
        if i > 0 {
            assert(vorder(b[0]@, b[i]@) < 0);
            if j > 0 {
                assert(vorder(a[0]@, a[j]@) < 0);
                lemma_vorder_trans(a[0]@, b[0]@, a[0]@);
            }
        }
        assert(a[0]@ == b[0]@);
        let ta = a.drop_first();
        let tb = b.drop_first();
        assert forall|y: VV| #[trigger] holds(ta, y) <==> holds(tb, y) by {
            if holds(ta, y) {
                let k = choose|k: int| 0 <= k < ta.len() && #[trigger] view_of(ta[k]) == y;
                assert(view_of(a[k + 1]) == y);
                assert(holds(a, y));
                assert(holds(b, y));
                let m = choose|m: int| 0 <= m < b.len() && #[trigger] view_of(b[m]) == y;
                assert(vorder(a[0]@, a[k + 1]@) < 0);
                lemma_vorder_zero(a[0]@, y);
                if m == 0 {
                    assert(false);
                }
                assert(view_of(tb[m - 1]) == y);
            }
            if holds(tb, y) {
                let k = choose|k: int| 0 <= k < tb.len() && #[trigger] view_of(tb[k]) == y;
                assert(view_of(b[k + 1]) == y);
                assert(holds(b, y));
                assert(holds(a, y));
                let m = choose|m: int| 0 <= m < a.len() && #[trigger] view_of(a[m]) == y;
                assert(vorder(b[0]@, b[k + 1]@) < 0);
                lemma_vorder_zero(b[0]@, y);
                if m == 0 {
                    assert(false);
                }
                assert(view_of(ta[m - 1]) == y);
            }
        }
        law_sorted_sets_are_equal(ta, tb);
        lemma_view_list_len(ta);
        lemma_view_list_len(tb);
        assert forall|k: int| 0 <= k < a.len() implies view_list(a)[k] == view_list(b)[k] by {
            if k > 0 {
                assert(view_list(ta)[k - 1] == view_list(tb)[k - 1]);
            }
        }
        assert(view_list(a) =~= view_list(b));
    }
}

/// Does the list hold an element whose view is `y`?
pub open spec fn holds(s: Seq<Value>, y: VV) -> bool {
    exists|i: int| 0 <= i < s.len() && #[trigger] view_of(s[i]) == y
}

/// Add `x` to a sorted, repeat-free list unless an equal element is there.
pub fn insert_sorted(items: &mut Vec<Value>, x: Value)
    ensures
        final(items).len() <= old(items).len() + 1,
        sorted(old(items)@) ==> sorted(final(items)@),
        forall|y: VV| #[trigger] holds(final(items)@, y) <==> (holds(old(items)@, y) || y == x@),
{
    let (at, found) = search(items, &x);
    let ghost before = items@;
    if !found {
        let ghost xv = x@;
        items.insert(at, x);
        proof {
            if sorted(before) {
                assert forall|i: int, j: int| 0 <= i < j < items@.len() implies
                    vorder(#[trigger] items@[i]@, #[trigger] items@[j]@) < 0 by {
                    if j < at {
                        assert(items@[i] == before[i] && items@[j] == before[j]);
                    } else if j == at {
                        assert(items@[i] == before[i]);
                    } else if i == at {
                        assert(items@[j] == before[j - 1]);
                        lemma_vorder_antisym(before[j - 1]@, xv);
                    } else if i < at {
                        assert(items@[i] == before[i] && items@[j] == before[j - 1]);
                    } else {
                        assert(items@[i] == before[i - 1] && items@[j] == before[j - 1]);
                    }
                }
            }
            assert forall|y: VV| #[trigger] holds(items@, y) <==> (holds(before, y) || y == x@) by {
                if holds(items@, y) {
                    let i = choose|i: int| 0 <= i < items@.len() && #[trigger] view_of(items@[i]) == y;
                    if i < at {
                        assert(view_of(before[i]) == y);
                    } else if i > at {
                        assert(view_of(before[i - 1]) == y);
                    }
                }
                if holds(before, y) {
                    let i = choose|i: int| 0 <= i < before.len() && #[trigger] view_of(before[i]) == y;
                    if i < at {
                        assert(view_of(items@[i]) == y);
                    } else {
                        assert(view_of(items@[i + 1]) == y);
                    }
                }
                if y == x@ {
                    assert(view_of(items@[at as int]) == y);
                }
            }
        }
    } else {
        proof {
            lemma_vorder_zero(items@[at as int]@, x@);
            assert forall|y: VV| #[trigger] holds(items@, y) <==> (holds(before, y) || y == x@) by {
                if y == x@ {
                    assert(view_of(items@[at as int]) == y);
                }
            }
        }
    }
}

/// A length or cardinality as a TLA+ integer.
pub fn count(n: usize) -> (r: i64)
    requires
        n <= i64::MAX,
    ensures
        r == n,
{
    n as i64
}

pub open spec fn spec_kind_name(v: VV) -> Seq<char> {
    match v {
        VV::Bool(_) => "a boolean"@,
        VV::Int(_) => "an integer"@,
        VV::Str(_) => "a string"@,
        VV::Sequence(_) => "a sequence"@,
        VV::Record(_) => "a record"@,
        VV::Func(_) => "a function"@,
        _ => "a set"@,
    }
}

pub open spec fn spec_is_set(v: VV) -> bool {
    match v {
        VV::FiniteSet(_) | VV::Nat | VV::Ints | VV::Strings | VV::Sequences(_) => true,
        _ => false,
    }
}

impl Value {
    /// The set of the given values, with repeats removed.
    pub fn set(items: Vec<Value>) -> (r: Value)
        ensures
            r is FiniteSet,
            forall|y: VV| #[trigger] holds(r->FiniteSet_0@, y) <==> holds(items@, y),
            sorted(r->FiniteSet_0@),
    {
        let mut out: Vec<Value> = Vec::new();
        let ghost all = items@;
        let mut items = items;
        while items.len() > 0
            invariant
                items@ == all.take(items.len() as int),
                items.len() <= all.len(),
                forall|y: VV| #[trigger] holds(all, y) <==> (holds(items@, y) || holds(out@, y)),
                sorted(out@),
            decreases items.len(),
        {
            let ghost rest = items@;
            let x = items.pop().unwrap();
            insert_sorted(&mut out, x);
            proof {
                assert(items@ =~= all.take(items.len() as int));
                assert forall|y: VV| #[trigger] holds(rest, y) <==> (holds(items@, y) || y == x@) by {
                    if holds(rest, y) {
                        let i = choose|i: int| 0 <= i < rest.len() && #[trigger] view_of(rest[i]) == y;
                        if i < items@.len() {
                            assert(view_of(items@[i]) == y);
                        }
                    }
                    if holds(items@, y) {
                        let i = choose|i: int| 0 <= i < items@.len() && #[trigger] view_of(items@[i]) == y;
                        assert(view_of(rest[i]) == y);
                    }
                    if y == x@ {
                        assert(view_of(rest[rest.len() - 1]) == y);
                    }
                }
            }
        }
        proof {
            assert forall|y: VV| #[trigger] holds(items@, y) implies false by {}
        }
        Value::FiniteSet(out)
    }

    pub fn string(s: &str) -> (r: Value)
        ensures
            r@ == VV::Str(s@),
    {
        Value::Str(text(s))
    }

    /// The set of integers from `lo` to `hi`, both included.
    pub fn interval(lo: i64, hi: i64) -> (r: Value)
        ensures
            r@ == VV::FiniteSet(Seq::new(if hi >= lo { (hi - lo + 1) as nat } else { 0 }, |i: int| VV::Int(lo + i))),
    {
        let mut out: Vec<Value> = Vec::new();
        if lo <= hi {
            let mut n = lo;
            loop
                invariant_except_break
                    lo <= n <= hi,
                    view_list(out@) == Seq::new((n - lo) as nat, |i: int| VV::Int(lo + i)),
                ensures
                    view_list(out@) == Seq::new((hi - lo + 1) as nat, |i: int| VV::Int(lo + i)),
                decreases hi - n,
            {
                let ghost before = out@;
                out.push(Value::Int(n));
                proof {
                    lemma_view_list_push(before, Value::Int(n));
                    assert(view_list(out@) =~= Seq::new((n - lo + 1) as nat, |i: int| VV::Int(lo + i)));
                }
                if n == hi {
                    break;
                }
                n = n + 1;
            }
        }
        proof {
            if lo > hi {
                assert(view_list(out@) =~= Seq::new(0, |i: int| VV::Int(lo + i)));
            }
        }
        Value::FiniteSet(out)
    }
}

} // verus!

verus! {

impl Value {
    /// What kind of value this is, in words.
    pub fn kind_name(&self) -> (r: &'static str)
        ensures
            r@ == spec_kind_name(self@),
    {
        proof {
            reveal_strlit("a boolean"); reveal_strlit("an integer"); reveal_strlit("a string");
            reveal_strlit("a sequence"); reveal_strlit("a record"); reveal_strlit("a function");
            reveal_strlit("a set");
        }
        match self {
            Value::Bool(_) => "a boolean",
            Value::Int(_) => "an integer",
            Value::Str(_) => "a string",
            Value::Sequence(_) => "a sequence",
            Value::FiniteSet(_) | Value::Infinite(_) => "a set",
            Value::Record(_) => "a record",
            Value::Func(_) => "a function",
        }
    }

    /// Is this a set, finite or not?
    pub fn is_set(&self) -> (r: bool)
        ensures
            r == spec_is_set(self@),
    {
        matches!(self, Value::FiniteSet(_) | Value::Infinite(_))
    }

    /// The value written as TLA+.
    pub fn to_string(&self) -> (s: String)
        ensures
            s@ == value_text(self@),
    {
        let mut out = String::new();
        write_value(self, &mut out);
        proof { assert(Seq::<char>::empty() + value_text(self@) =~= value_text(self@)); }
        out
    }
}

/// A character of a string literal, escaped the way the lexer reads it back.
pub open spec fn escape_char(c: char) -> Seq<char> {
    if c == '\\' {
        seq!['\\', '\\']
    } else if c == '"' {
        seq!['\\', '"']
    } else if c == '\n' {
        seq!['\\', 'n']
    } else if c == '\t' {
        seq!['\\', 't']
    } else if c == '\r' {
        seq!['\\', 'r']
    } else if c == '\0' {
        seq!['\\', '0']
    } else if is_control(c) {
        seq!['\\', 'u', '{'] + hex_text(c as int) + seq!['}']
    } else {
        seq![c]
    }
}

/// The control characters other than those with an escape of their own:
/// U+0001 to U+001F, U+007F and U+0080 to U+009F.
pub open spec fn is_control(c: char) -> bool {
    ('\u{1}' <= c && c <= '\u{1f}') || ('\u{7f}' <= c && c <= '\u{9f}')
}

/// A lowercase hexadecimal digit.
pub open spec fn hex_digit(d: int) -> char {
    if 0 <= d < 10 { crate::text::digit_char(d) }
    else if d == 10 { 'a' } else if d == 11 { 'b' } else if d == 12 { 'c' }
    else if d == 13 { 'd' } else if d == 14 { 'e' } else { 'f' }
}

/// A number below 256 in lowercase hexadecimal, without leading zeros.
pub open spec fn hex_text(n: int) -> Seq<char> {
    if n < 16 { seq![hex_digit(n)] } else { seq![hex_digit(n / 16), hex_digit(n % 16)] }
}

fn hex_char(d: u32) -> (c: char)
    requires
        d < 16,
    ensures
        c == hex_digit(d as int),
{
    if d == 0 { '0' } else if d == 1 { '1' } else if d == 2 { '2' } else if d == 3 { '3' }
    else if d == 4 { '4' } else if d == 5 { '5' } else if d == 6 { '6' } else if d == 7 { '7' }
    else if d == 8 { '8' } else if d == 9 { '9' } else if d == 10 { 'a' } else if d == 11 { 'b' }
    else if d == 12 { 'c' } else if d == 13 { 'd' } else if d == 14 { 'e' } else { 'f' }
}

/// The characters of a string, escaped.
pub open spec fn escaped(s: Seq<char>) -> Seq<char>
    decreases s.len(),
{
    if s.len() == 0 { Seq::empty() } else { escaped(s.drop_last()) + escape_char(s.last()) }
}

/// A value written as TLA+: `TRUE`, `-2`, `"s"`, `<<1, 2>>`, `{1}`,
/// `[a |-> 1]`, `(2 :> 2 @@ 4 :> 4)`, `Nat`, `Seq({1})`.
pub open spec fn value_text(v: VV) -> Seq<char>
    decreases v,
{
    match v {
        VV::Bool(b) => if b { "TRUE"@ } else { "FALSE"@ },
        VV::Int(n) => crate::text::int_digits(n),
        VV::Str(s) => seq!['"'] + escaped(s) + seq!['"'],
        VV::Sequence(items) => "<<"@ + list_text(items) + ">>"@,
        VV::FiniteSet(items) => seq!['{'] + list_text(items) + seq!['}'],
        VV::Record(fields) => seq!['['] + fields_text(fields) + seq![']'],
        VV::Func(pairs) => seq!['('] + pairs_text(pairs) + seq![')'],
        VV::Nat => "Nat"@,
        VV::Ints => "Int"@,
        VV::Strings => "STRING"@,
        VV::Sequences(of) => "Seq("@ + value_text(*of) + seq![')'],
    }
}

/// Values separated by `, `.
pub open spec fn list_text(items: Seq<VV>) -> Seq<char>
    decreases items,
{
    if items.len() == 0 {
        Seq::empty()
    } else if items.len() == 1 {
        value_text(items[0])
    } else {
        list_text(items.drop_last()) + ", "@ + value_text(items.last())
    }
}

/// `name |-> value` for each field, separated by `, `.
pub open spec fn fields_text(fields: Seq<(Seq<char>, VV)>) -> Seq<char>
    decreases fields,
{
    if fields.len() == 0 {
        Seq::empty()
    } else {
        let one = fields.last().0 + " |-> "@ + value_text(fields.last().1);
        if fields.len() == 1 { one } else { fields_text(fields.drop_last()) + ", "@ + one }
    }
}

/// `key :> value` for each pair, separated by ` @@ `.
pub open spec fn pairs_text(pairs: Seq<(VV, VV)>) -> Seq<char>
    decreases pairs,
{
    if pairs.len() == 0 {
        Seq::empty()
    } else {
        let one = value_text(pairs.last().0) + " :> "@ + value_text(pairs.last().1);
        if pairs.len() == 1 { one } else { pairs_text(pairs.drop_last()) + " @@ "@ + one }
    }
}

proof fn lemma_view_list_take(s: Seq<Value>, i: int)
    requires
        0 <= i <= s.len(),
    ensures
        view_list(s.take(i)) == view_list(s).take(i),
{
    lemma_view_list_len(s);
    lemma_view_list_len(s.take(i));
    assert(view_list(s.take(i)) =~= view_list(s).take(i));
}

proof fn lemma_view_fields_take(s: Seq<(String, Value)>, i: int)
    requires
        0 <= i <= s.len(),
    ensures
        view_fields(s.take(i)) == view_fields(s).take(i),
{
    lemma_view_fields_len(s);
    lemma_view_fields_len(s.take(i));
    assert(view_fields(s.take(i)) =~= view_fields(s).take(i));
}

proof fn lemma_view_pairs_take(s: Seq<(Value, Value)>, i: int)
    requires
        0 <= i <= s.len(),
    ensures
        view_pairs(s.take(i)) == view_pairs(s).take(i),
{
    lemma_view_pairs_len(s);
    lemma_view_pairs_len(s.take(i));
    assert(view_pairs(s.take(i)) =~= view_pairs(s).take(i));
}

fn write_quoted(s: &String, out: &mut String)
    ensures
        final(out)@ == old(out)@ + (seq!['"'] + escaped(s@) + seq!['"']),
{
    push_char(out, '"');
    let cs = chars_of(s.as_str());
    let mut i: usize = 0;
    let ghost start = out@;
    proof { assert(s@.take(0) =~= Seq::<char>::empty()); assert(start + escaped(Seq::<char>::empty()) =~= start); }
    while i < cs.len()
        invariant
            i <= cs.len(),
            cs@ == s@,
            start == old(out)@.push('"'),
            out@ == start + escaped(s@.take(i as int)),
        decreases cs.len() - i,
    {
        let c = cs[i];
        proof {
            assert(s@.take(i + 1).drop_last() =~= s@.take(i as int));
            assert(s@.take(i + 1).last() == c);
            reveal_strlit("\\\\");
            reveal_strlit("\\\"");
            reveal_strlit("\\n");
            reveal_strlit("\\t");
            reveal_strlit("\\r");
        }
        if c == '\\' {
            append(out, "\\\\");
        } else if c == '"' {
            append(out, "\\\"");
        } else if c == '\n' {
            append(out, "\\n");
        } else if c == '\t' {
            append(out, "\\t");
        } else if c == '\r' {
            append(out, "\\r");
        } else if c == '\0' {
            push_char(out, '\\');
            push_char(out, '0');
        } else if ('\u{1}' <= c && c <= '\u{1f}') || ('\u{7f}' <= c && c <= '\u{9f}') {
            let n = c as u32;
            push_char(out, '\\');
            push_char(out, 'u');
            push_char(out, '{');
            if n >= 16 {
                push_char(out, hex_char(n / 16));
            }
            push_char(out, hex_char(n % 16));
            push_char(out, '}');
        } else {
            push_char(out, c);
        }
        proof { assert(out@ =~= start + escaped(s@.take(i + 1))); }
        i = i + 1;
    }
    push_char(out, '"');
    proof {
        assert(s@.take(cs.len() as int) =~= s@);
        assert(out@ =~= old(out)@ + (seq!['"'] + escaped(s@) + seq!['"']));
    }
}

/// Write a value as TLA+.
pub fn write_value(v: &Value, out: &mut String)
    ensures
        final(out)@ == old(out)@ + value_text(v@),
    decreases v, 1nat,
{
    proof {
        reveal_strlit("TRUE"); reveal_strlit("FALSE"); reveal_strlit("<<"); reveal_strlit(">>");
        reveal_strlit("{"); reveal_strlit("}"); reveal_strlit("["); reveal_strlit("]");
        reveal_strlit("("); reveal_strlit(")"); reveal_strlit(", "); reveal_strlit(" |-> ");
        reveal_strlit(" @@ "); reveal_strlit(" :> "); reveal_strlit("Nat"); reveal_strlit("Int");
        reveal_strlit("STRING"); reveal_strlit("Seq(");
    }
    match v {
        Value::Bool(b) => append(out, if *b { "TRUE" } else { "FALSE" }),
        Value::Int(n) => push_int(out, *n),
        Value::Str(s) => write_quoted(s, out),
        Value::Sequence(items) => {
            append(out, "<<");
            write_values(items, out);
            append(out, ">>");
            proof { assert(out@ =~= old(out)@ + value_text(v@)); }
        },
        Value::FiniteSet(items) => {
            append(out, "{");
            write_values(items, out);
            append(out, "}");
            proof { assert(out@ =~= old(out)@ + value_text(v@)); }
        },
        Value::Record(fields) => {
            append(out, "[");
            let ghost start = out@;
            let mut i: usize = 0;
            proof {
                lemma_view_fields_len(fields@);
                assert(view_fields(fields@).take(0) =~= Seq::<(Seq<char>, VV)>::empty());
                assert(start + fields_text(Seq::<(Seq<char>, VV)>::empty()) =~= start);
            }
            while i < fields.len()
                invariant
                    i <= fields.len(),
                    *v == Value::Record(*fields),
                    view_fields(fields@).len() == fields.len(),
                    forall|k: int| 0 <= k < fields.len() ==> #[trigger] view_fields(fields@)[k] == (fields@[k].0@, fields@[k].1@),
                    out@ == start + fields_text(view_fields(fields@).take(i as int)),
                decreases fields.len() - i,
            {
                let ghost before = out@;
                if i > 0 {
                    append(out, ", ");
                }
                append(out, fields[i].0.as_str());
                append(out, " |-> ");
                proof {
                    assert(decreases_to!(*v => (*v)->Record_0));
                    assert(decreases_to!(*fields => fields@));
                    assert(decreases_to!(fields@ => fields@[i as int]));
                    assert(decreases_to!(fields@[i as int] => fields@[i as int].1));
                }
                write_value(&fields[i].1, out);
                proof {
                    let t = view_fields(fields@).take(i + 1);
                    assert(t.drop_last() =~= view_fields(fields@).take(i as int));
                    assert(t.last() == (fields@[i as int].0@, fields@[i as int].1@));
                    assert(out@ =~= start + fields_text(t));
                }
                i = i + 1;
            }
            append(out, "]");
            proof {
                assert(view_fields(fields@).take(fields.len() as int) =~= view_fields(fields@));
                assert(out@ =~= old(out)@ + value_text(v@));
            }
        },
        Value::Func(pairs) => {
            append(out, "(");
            let ghost start = out@;
            let mut i: usize = 0;
            proof {
                lemma_view_pairs_len(pairs@);
                assert(view_pairs(pairs@).take(0) =~= Seq::<(VV, VV)>::empty());
                assert(start + pairs_text(Seq::<(VV, VV)>::empty()) =~= start);
            }
            while i < pairs.len()
                invariant
                    i <= pairs.len(),
                    *v == Value::Func(*pairs),
                    view_pairs(pairs@).len() == pairs.len(),
                    forall|k: int| 0 <= k < pairs.len() ==> #[trigger] view_pairs(pairs@)[k] == (pairs@[k].0@, pairs@[k].1@),
                    out@ == start + pairs_text(view_pairs(pairs@).take(i as int)),
                decreases pairs.len() - i,
            {
                if i > 0 {
                    append(out, " @@ ");
                }
                proof {
                    assert(decreases_to!(*v => (*v)->Func_0));
                    assert(decreases_to!(*pairs => pairs@));
                    assert(decreases_to!(pairs@ => pairs@[i as int]));
                    assert(decreases_to!(pairs@[i as int] => pairs@[i as int].0));
                    assert(decreases_to!(pairs@[i as int] => pairs@[i as int].1));
                }
                write_value(&pairs[i].0, out);
                append(out, " :> ");
                write_value(&pairs[i].1, out);
                proof {
                    let t = view_pairs(pairs@).take(i + 1);
                    assert(t.drop_last() =~= view_pairs(pairs@).take(i as int));
                    assert(t.last() == (pairs@[i as int].0@, pairs@[i as int].1@));
                    assert(out@ =~= start + pairs_text(t));
                }
                i = i + 1;
            }
            append(out, ")");
            proof {
                assert(view_pairs(pairs@).take(pairs.len() as int) =~= view_pairs(pairs@));
                assert(out@ =~= old(out)@ + value_text(v@));
            }
        },
        Value::Infinite(Infinite::Nat) => append(out, "Nat"),
        Value::Infinite(Infinite::Int) => append(out, "Int"),
        Value::Infinite(Infinite::Strings) => append(out, "STRING"),
        Value::Infinite(Infinite::Sequences(of)) => {
            append(out, "Seq(");
            write_value(of, out);
            append(out, ")");
            proof { assert(out@ =~= old(out)@ + value_text(v@)); }
        },
    }
}

fn write_values(items: &Vec<Value>, out: &mut String)
    ensures
        final(out)@ == old(out)@ + list_text(view_list(items@)),
    decreases items, 0nat,
{
    let mut i: usize = 0;
    let ghost start = out@;
    proof {
        lemma_view_list_len(items@);
        assert(view_list(items@).take(0) =~= Seq::<VV>::empty());
        assert(start + list_text(Seq::<VV>::empty()) =~= start);
        reveal_strlit(", ");
    }
    while i < items.len()
        invariant
            i <= items.len(),
            start == old(out)@,
            view_list(items@).len() == items.len(),
            forall|k: int| 0 <= k < items.len() ==> #[trigger] view_list(items@)[k] == items@[k]@,
            out@ == start + list_text(view_list(items@).take(i as int)),
        decreases items.len() - i,
    {
        if i > 0 {
            append(out, ", ");
        }
        proof {
            assert(decreases_to!(*items => items@));
            assert(decreases_to!(items@ => items@[i as int]));
        }
        write_value(&items[i], out);
        proof {
            let t = view_list(items@).take(i + 1);
            assert(t.drop_last() =~= view_list(items@).take(i as int));
            assert(t.last() == items@[i as int]@);
            if i == 0 {
                assert(t.len() == 1 && t[0] == items@[0]@);
            }
            assert(out@ =~= start + list_text(t));
        }
        i = i + 1;
    }
    proof { assert(view_list(items@).take(items.len() as int) =~= view_list(items@)); }
}

} // verus!
