//! The syntax tree of a TLA+ module.

use vstd::prelude::*;
use crate::syntax::token::Op;
use crate::text::str_eq;

verus! {

/// A module: its name, what it extends, and its units in source order.
#[derive(Debug, PartialEq, Eq)]
pub struct Module {
    pub name: String,
    pub extends: Vec<String>,
    pub units: Vec<Unit>,
}

/// One top-level item of a module.
#[derive(Debug, PartialEq, Eq)]
pub enum Unit {
    Constants(Vec<Decl>),
    Variables(Vec<String>),
    Recursive(Vec<Decl>),
    Def(Def),
    /// `S == INSTANCE M WITH x <- e` — named when it introduces a prefix,
    /// anonymous when the module's definitions are pulled in directly.
    Instance {
        name: Option<String>,
        module: String,
        subs: Vec<(String, Expr)>,
    },
    Assume(Expr),
    Theorem(Expr),
    /// A module written inside this one.
    Inner(Box<Module>),
    /// Something read only to get past it: a proof, or a statement that
    /// could not be read.
    Opaque,
}

/// A declared name together with its arity; zero for a plain constant.
#[derive(Debug, Clone, PartialEq, Eq)]
pub struct Decl {
    pub name: String,
    pub arity: usize,
}

/// A formal parameter: a plain name, or an operator `f(_, _)` of some arity.
#[derive(Debug, Clone, PartialEq, Eq)]
pub struct Param {
    pub name: String,
    pub arity: usize,
}

impl Param {
    /// A parameter that stands for a value.
    pub fn value(name: String) -> (p: Param)
        ensures
            p.name == name,
            p.arity == 0,
    {
        Param { name, arity: 0 }
    }
}

/// `Name(params) == body`.
#[derive(Debug, PartialEq, Eq)]
pub struct Def {
    pub name: String,
    pub params: Vec<Param>,
    pub body: Expr,
    pub local: bool,
}

/// `I == INSTANCE M WITH ...` written inside a `LET`.
#[derive(Debug, PartialEq, Eq)]
pub struct LetInstance {
    pub name: Option<String>,
    pub module: String,
    pub subs: Vec<(String, Expr)>,
}

/// One `x, y \in S` group of a quantifier, function or set constructor.
#[derive(Debug, PartialEq, Eq)]
pub struct Bound {
    pub names: Vec<String>,
    /// Absent for the unbounded forms, as in `\E x : P`.
    pub domain: Option<Expr>,
    /// True for `<<x, y>> \in S`, which destructures each element.
    pub destructure: bool,
}

#[derive(Debug, Clone, Copy, PartialEq, Eq, Structural)]
pub enum QuantKind {
    Forall,
    Exists,
    /// `\AA`, which quantifies over behaviours.
    TemporalForall,
    /// `\EE`, which quantifies over behaviours.
    TemporalExists,
}

impl QuantKind {
    pub open spec fn spec_is_temporal(self) -> bool {
        self == QuantKind::TemporalForall || self == QuantKind::TemporalExists
    }

    /// Is this `\AA` or `\EE`?
    pub fn is_temporal(self) -> (r: bool)
        ensures
            r == self.spec_is_temporal(),
    {
        matches!(self, QuantKind::TemporalForall | QuantKind::TemporalExists)
    }
}

/// One step of an `EXCEPT` path: `[e]` or `.field`.
#[derive(Debug, PartialEq, Eq)]
pub enum ExceptPath {
    Index(Expr),
    Field(String),
}

#[derive(Debug, PartialEq, Eq)]
pub enum Expr {
    Num(i64),
    /// A decimal literal, kept exactly as written.
    Decimal(String),
    Str(String),
    Bool(bool),
    Ident(String),
    /// `x'`
    Prime(Box<Expr>),
    /// `@`, legal only inside an `EXCEPT` update.
    At,
    /// `Op(a, b)` — application of a defined operator.
    Apply(Box<Expr>, Vec<Expr>),
    /// `f[a]` — function application.
    FnApply(Box<Expr>, Vec<Expr>),
    /// `r.field`
    Field(Box<Expr>, String),
    /// `Inst!Name(args)`
    Qualified {
        instance: String,
        name: String,
        args: Vec<Expr>,
    },
    Unary(Op, Box<Expr>),
    Binary(Op, Box<Expr>, Box<Expr>),
    Tuple(Vec<Expr>),
    SetEnum(Vec<Expr>),
    /// `{x \in S : P}`
    SetFilter {
        bound: Box<Bound>,
        pred: Box<Expr>,
    },
    /// `{e : x \in S, y \in T}`
    SetMap {
        expr: Box<Expr>,
        bounds: Vec<Bound>,
    },
    /// `[a |-> 1, b |-> 2]`
    Record(Vec<(String, Expr)>),
    /// `[a : S, b : T]`
    RecordSet(Vec<(String, Expr)>),
    /// `[x \in S |-> e]`
    FnDef {
        bounds: Vec<Bound>,
        body: Box<Expr>,
    },
    /// `[S -> T]`
    FnSet {
        domain: Box<Expr>,
        range: Box<Expr>,
    },
    /// `[f EXCEPT ![a] = e, !.g = e2]`
    Except {
        base: Box<Expr>,
        updates: Vec<(Vec<ExceptPath>, Expr)>,
    },
    Quant {
        kind: QuantKind,
        bounds: Vec<Bound>,
        body: Box<Expr>,
    },
    Choose {
        bound: Box<Bound>,
        body: Box<Expr>,
    },
    Let {
        defs: Vec<Def>,
        instances: Vec<LetInstance>,
        body: Box<Expr>,
    },
    If {
        cond: Box<Expr>,
        then: Box<Expr>,
        otherwise: Box<Expr>,
    },
    Case {
        arms: Vec<(Expr, Expr)>,
        other: Option<Box<Expr>>,
    },
    /// `LAMBDA x, y : e`
    Lambda {
        params: Vec<Param>,
        body: Box<Expr>,
    },
    /// `[A]_vars`
    ActionBox {
        action: Box<Expr>,
        subscript: Box<Expr>,
    },
    /// `<<A>>_vars`
    ActionAngle {
        action: Box<Expr>,
        subscript: Box<Expr>,
    },
    /// `WF_vars(A)` / `SF_vars(A)`
    Fairness {
        strong: bool,
        subscript: Box<Expr>,
        action: Box<Expr>,
    },
}

// ------------------------------------------------------------ module queries

/// The first definition among `units` named `name`.
pub open spec fn first_definition(units: Seq<Unit>, name: Seq<char>) -> Option<Def>
    decreases units.len(),
{
    if units.len() == 0 {
        None
    } else {
        match units[0] {
            Unit::Def(d) if d.name@ == name => Some(d),
            _ => first_definition(units.drop_first(), name),
        }
    }
}

/// Every constant declared by `units`, in order.
pub open spec fn declared_constants(units: Seq<Unit>) -> Seq<Decl>
    decreases units.len(),
{
    if units.len() == 0 {
        Seq::empty()
    } else {
        let rest = declared_constants(units.drop_last());
        match units.last() {
            Unit::Constants(ds) => rest + ds@,
            _ => rest,
        }
    }
}

/// Every variable declared by `units`, in order.
pub open spec fn declared_variables(units: Seq<Unit>) -> Seq<String>
    decreases units.len(),
{
    if units.len() == 0 {
        Seq::empty()
    } else {
        let rest = declared_variables(units.drop_last());
        match units.last() {
            Unit::Variables(vs) => rest + vs@,
            _ => rest,
        }
    }
}

impl Module {
    /// The first definition named `name`, if the module has one.
    pub fn definition(&self, name: &str) -> (r: Option<&Def>)
        ensures
            r matches Some(d) ==> first_definition(self.units@, name@) == Some(*d),
            r is None ==> first_definition(self.units@, name@) is None,
    {
        let mut i: usize = 0;
        assert(self.units@.subrange(0, self.units@.len() as int) =~= self.units@);
        while i < self.units.len()
            invariant
                i <= self.units.len(),
                first_definition(self.units@.subrange(i as int, self.units@.len() as int), name@)
                    == first_definition(self.units@, name@),
            decreases self.units.len() - i,
        {
            let ghost rest = self.units@.subrange(i as int, self.units@.len() as int);
            assert(rest.drop_first() =~= self.units@.subrange(i + 1, self.units@.len() as int));
            if let Unit::Def(d) = &self.units[i] {
                if str_eq(d.name.as_str(), name) {
                    return Some(d);
                }
            }
            i = i + 1;
        }
        None
    }

    /// The declared constants, in order.
    pub fn constants(&self) -> (r: Vec<Decl>)
        ensures
            r@ == declared_constants(self.units@),
    {
        let mut out: Vec<Decl> = Vec::new();
        let mut i: usize = 0;
        while i < self.units.len()
            invariant
                i <= self.units.len(),
                out@ == declared_constants(self.units@.take(i as int)),
            decreases self.units.len() - i,
        {
            assert(self.units@.take(i + 1).drop_last() =~= self.units@.take(i as int));
            if let Unit::Constants(ds) = &self.units[i] {
                let mut j: usize = 0;
                let ghost before = out@;
                while j < ds.len()
                    invariant
                        j <= ds.len(),
                        out@ == before + ds@.take(j as int),
                    decreases ds.len() - j,
                {
                    out.push(Decl { name: ds[j].name.clone(), arity: ds[j].arity });
                    assert(ds@.take(j + 1) =~= ds@.take(j as int).push(ds@[j as int]));
                    j = j + 1;
                }
                assert(ds@.take(ds@.len() as int) =~= ds@);
            }
            i = i + 1;
        }
        assert(self.units@.take(self.units@.len() as int) =~= self.units@);
        out
    }

    /// The declared variables, in order.
    pub fn variables(&self) -> (r: Vec<String>)
        ensures
            r@ == declared_variables(self.units@),
    {
        let mut out: Vec<String> = Vec::new();
        let mut i: usize = 0;
        while i < self.units.len()
            invariant
                i <= self.units.len(),
                out@ == declared_variables(self.units@.take(i as int)),
            decreases self.units.len() - i,
        {
            assert(self.units@.take(i + 1).drop_last() =~= self.units@.take(i as int));
            if let Unit::Variables(vs) = &self.units[i] {
                let mut j: usize = 0;
                let ghost before = out@;
                while j < vs.len()
                    invariant
                        j <= vs.len(),
                        out@ == before + vs@.take(j as int),
                    decreases vs.len() - j,
                {
                    out.push(vs[j].clone());
                    assert(vs@.take(j + 1) =~= vs@.take(j as int).push(vs@[j as int]));
                    j = j + 1;
                }
                assert(vs@.take(vs@.len() as int) =~= vs@);
            }
            i = i + 1;
        }
        assert(self.units@.take(self.units@.len() as int) =~= self.units@);
        out
    }
}

// ------------------------------------------------------------- junctions

/// `items` joined by `op`, grouped to the left: `((a op b) op c)`.
pub open spec fn fold_left(items: Seq<Expr>, op: Op) -> Expr
    recommends
        items.len() > 0,
    decreases items.len(),
{
    if items.len() <= 1 {
        items[0]
    } else {
        Expr::Binary(op, Box::new(fold_left(items.drop_last(), op)), Box::new(items.last()))
    }
}

impl Expr {
    /// `a /\ b /\ ...`, grouped to the left.
    pub fn conjunction(items: Vec<Expr>) -> (e: Expr)
        requires
            items.len() > 0,
        ensures
            e == fold_left(items@, Op::And),
    {
        Self::fold(items, Op::And)
    }

    /// `a \/ b \/ ...`, grouped to the left.
    pub fn disjunction(items: Vec<Expr>) -> (e: Expr)
        requires
            items.len() > 0,
        ensures
            e == fold_left(items@, Op::Or),
    {
        Self::fold(items, Op::Or)
    }

    fn fold(items: Vec<Expr>, op: Op) -> (e: Expr)
        requires
            items.len() > 0,
        ensures
            e == fold_left(items@, op),
        decreases items.len(),
    {
        let ghost all = items@;
        let mut items = items;
        let last = items.pop().unwrap();
        assert(items@ =~= all.drop_last());
        if items.len() == 0 {
            last
        } else {
            let head = Self::fold(items, op);
            Expr::Binary(op, Box::new(head), Box::new(last))
        }
    }
}

} // verus!

verus! {

// -------------------------------------------------------- next-state queries

/// Does the expression constrain the successor state: does it prime a
/// variable, or use an operator that is about a step (`UNCHANGED`,
/// `ENABLED`, `[A]_v`, `<<A>>_v`, fairness)?
pub open spec fn spec_mentions_next(e: Expr) -> bool
    decreases e,
{
    match e {
        Expr::Num(_) | Expr::Decimal(_) | Expr::Str(_) | Expr::Bool(_) | Expr::Ident(_) | Expr::At => false,
        Expr::Prime(_) => true,
        Expr::Apply(head, args) => spec_mentions_next(*head) || spec_exprs_next(args@),
        Expr::FnApply(head, args) => spec_mentions_next(*head) || spec_exprs_next(args@),
        Expr::Field(inner, _) => spec_mentions_next(*inner),
        Expr::Qualified { args, .. } => spec_exprs_next(args@),
        Expr::Unary(op, inner) => op == Op::Unchanged || op == Op::Enabled || spec_mentions_next(*inner),
        Expr::Binary(_, l, r) => spec_mentions_next(*l) || spec_mentions_next(*r),
        Expr::Tuple(items) => spec_exprs_next(items@),
        Expr::SetEnum(items) => spec_exprs_next(items@),
        Expr::SetFilter { bound, pred } => spec_bound_next(*bound) || spec_mentions_next(*pred),
        Expr::SetMap { expr, bounds } => spec_mentions_next(*expr) || spec_bounds_next(bounds@),
        Expr::Record(fields) => spec_fields_next(fields@),
        Expr::RecordSet(fields) => spec_fields_next(fields@),
        Expr::FnDef { bounds, body } => spec_bounds_next(bounds@) || spec_mentions_next(*body),
        Expr::FnSet { domain, range } => spec_mentions_next(*domain) || spec_mentions_next(*range),
        Expr::Except { base, updates } => spec_mentions_next(*base) || spec_updates_next(updates@),
        Expr::Quant { bounds, body, .. } => spec_bounds_next(bounds@) || spec_mentions_next(*body),
        Expr::Choose { bound, body } => spec_bound_next(*bound) || spec_mentions_next(*body),
        Expr::Let { defs, instances, body } => spec_defs_next(defs@) || spec_instances_next(instances@)
            || spec_mentions_next(*body),
        Expr::If { cond, then, otherwise } => spec_mentions_next(*cond) || spec_mentions_next(*then)
            || spec_mentions_next(*otherwise),
        Expr::Case { arms, other } => spec_arms_next(arms@) || match other {
            Some(o) => spec_mentions_next(*o),
            None => false,
        },
        Expr::Lambda { body, .. } => spec_mentions_next(*body),
        Expr::ActionBox { .. } | Expr::ActionAngle { .. } | Expr::Fairness { .. } => true,
    }
}

pub open spec fn spec_exprs_next(s: Seq<Expr>) -> bool
    decreases s,
{
    if s.len() == 0 { false } else { spec_exprs_next(s.drop_last()) || spec_mentions_next(s.last()) }
}

pub open spec fn spec_fields_next(s: Seq<(String, Expr)>) -> bool
    decreases s,
{
    if s.len() == 0 { false } else { spec_fields_next(s.drop_last()) || spec_mentions_next(s.last().1) }
}

pub open spec fn spec_bound_next(b: Bound) -> bool
    decreases b,
{
    match b.domain {
        Some(d) => spec_mentions_next(d),
        None => false,
    }
}

pub open spec fn spec_bounds_next(s: Seq<Bound>) -> bool
    decreases s,
{
    if s.len() == 0 { false } else { spec_bounds_next(s.drop_last()) || spec_bound_next(s.last()) }
}

pub open spec fn spec_defs_next(s: Seq<Def>) -> bool
    decreases s,
{
    if s.len() == 0 { false } else { spec_defs_next(s.drop_last()) || spec_mentions_next(s.last().body) }
}

pub open spec fn spec_instances_next(s: Seq<LetInstance>) -> bool
    decreases s,
{
    if s.len() == 0 { false } else { spec_instances_next(s.drop_last()) || spec_fields_next(s.last().subs@) }
}

pub open spec fn spec_path_next(s: Seq<ExceptPath>) -> bool
    decreases s,
{
    if s.len() == 0 {
        false
    } else {
        spec_path_next(s.drop_last()) || match s.last() {
            ExceptPath::Index(i) => spec_mentions_next(i),
            ExceptPath::Field(_) => false,
        }
    }
}

pub open spec fn spec_updates_next(s: Seq<(Vec<ExceptPath>, Expr)>) -> bool
    decreases s,
{
    if s.len() == 0 {
        false
    } else {
        spec_updates_next(s.drop_last()) || spec_path_next(s.last().0@) || spec_mentions_next(s.last().1)
    }
}

pub open spec fn spec_arms_next(s: Seq<(Expr, Expr)>) -> bool
    decreases s,
{
    if s.len() == 0 {
        false
    } else {
        spec_arms_next(s.drop_last()) || spec_mentions_next(s.last().0) || spec_mentions_next(s.last().1)
    }
}

impl Expr {
    /// Does the expression constrain the successor state? A guard does not;
    /// an effect does. This is what separates the two in a diagnosis.
    pub fn mentions_next_state(&self) -> (r: bool)
        ensures
            r == spec_mentions_next(*self),
        decreases self, 1nat,
    {
        match self {
            Expr::Num(_) | Expr::Decimal(_) | Expr::Str(_) | Expr::Bool(_) | Expr::Ident(_) | Expr::At => false,
            Expr::Prime(_) => true,
            Expr::Apply(head, args) => head.mentions_next_state() || exprs_next(args),
            Expr::FnApply(head, args) => head.mentions_next_state() || exprs_next(args),
            Expr::Field(inner, _) => inner.mentions_next_state(),
            Expr::Qualified { args, .. } => exprs_next(args),
            Expr::Unary(op, inner) => matches!(op, Op::Unchanged | Op::Enabled) || inner.mentions_next_state(),
            Expr::Binary(_, l, r) => l.mentions_next_state() || r.mentions_next_state(),
            Expr::Tuple(items) => exprs_next(items),
            Expr::SetEnum(items) => exprs_next(items),
            Expr::SetFilter { bound, pred } => bound_next(bound) || pred.mentions_next_state(),
            Expr::SetMap { expr, bounds } => expr.mentions_next_state() || bounds_next(bounds),
            Expr::Record(fields) => fields_next(fields),
            Expr::RecordSet(fields) => fields_next(fields),
            Expr::FnDef { bounds, body } => bounds_next(bounds) || body.mentions_next_state(),
            Expr::FnSet { domain, range } => domain.mentions_next_state() || range.mentions_next_state(),
            Expr::Except { base, updates } => base.mentions_next_state() || updates_next(updates),
            Expr::Quant { bounds, body, .. } => bounds_next(bounds) || body.mentions_next_state(),
            Expr::Choose { bound, body } => bound_next(bound) || body.mentions_next_state(),
            Expr::Let { defs, instances, body } => defs_next(defs) || instances_next(instances)
                || body.mentions_next_state(),
            Expr::If { cond, then, otherwise } => cond.mentions_next_state() || then.mentions_next_state()
                || otherwise.mentions_next_state(),
            Expr::Case { arms, other } => arms_next(arms) || match other {
                Some(o) => o.mentions_next_state(),
                None => false,
            },
            Expr::Lambda { body, .. } => body.mentions_next_state(),
            Expr::ActionBox { .. } | Expr::ActionAngle { .. } | Expr::Fairness { .. } => true,
        }
    }
}

fn exprs_next(items: &Vec<Expr>) -> (r: bool)
    ensures
        r == spec_exprs_next(items@),
    decreases items, 0nat,
{
    let mut found = false;
    let mut i: usize = 0;
    while i < items.len()
        invariant
            i <= items.len(),
            found == spec_exprs_next(items@.take(i as int)),
        decreases items.len() - i,
    {
        proof {
            assert(decreases_to!(*items => items@));
            assert(decreases_to!(items@ => items@[i as int]));
            assert(items@.take(i + 1).drop_last() =~= items@.take(i as int));
        }
        let here = items[i].mentions_next_state();
        found = found || here;
        i = i + 1;
    }
    proof { assert(items@.take(items@.len() as int) =~= items@); }
    found
}

fn fields_next(items: &Vec<(String, Expr)>) -> (r: bool)
    ensures
        r == spec_fields_next(items@),
    decreases items, 0nat,
{
    let mut found = false;
    let mut i: usize = 0;
    while i < items.len()
        invariant
            i <= items.len(),
            found == spec_fields_next(items@.take(i as int)),
        decreases items.len() - i,
    {
        proof {
            assert(decreases_to!(*items => items@));
            assert(decreases_to!(items@ => items@[i as int]));
            assert(decreases_to!(items@[i as int] => items@[i as int].1));
            assert(items@.take(i + 1).drop_last() =~= items@.take(i as int));
        }
        let here = items[i].1.mentions_next_state();
        found = found || here;
        i = i + 1;
    }
    proof { assert(items@.take(items@.len() as int) =~= items@); }
    found
}

fn bound_next(b: &Bound) -> (r: bool)
    ensures
        r == spec_bound_next(*b),
    decreases b, 0nat,
{
    match &b.domain {
        Some(d) => {
            proof { assert(decreases_to!(*b => b.domain)); }
            d.mentions_next_state()
        },
        None => false,
    }
}

fn bounds_next(items: &Vec<Bound>) -> (r: bool)
    ensures
        r == spec_bounds_next(items@),
    decreases items, 0nat,
{
    let mut found = false;
    let mut i: usize = 0;
    while i < items.len()
        invariant
            i <= items.len(),
            found == spec_bounds_next(items@.take(i as int)),
        decreases items.len() - i,
    {
        proof {
            assert(decreases_to!(*items => items@));
            assert(decreases_to!(items@ => items@[i as int]));
            assert(items@.take(i + 1).drop_last() =~= items@.take(i as int));
        }
        let here = bound_next(&items[i]);
        found = found || here;
        i = i + 1;
    }
    proof { assert(items@.take(items@.len() as int) =~= items@); }
    found
}

fn defs_next(items: &Vec<Def>) -> (r: bool)
    ensures
        r == spec_defs_next(items@),
    decreases items, 0nat,
{
    let mut found = false;
    let mut i: usize = 0;
    while i < items.len()
        invariant
            i <= items.len(),
            found == spec_defs_next(items@.take(i as int)),
        decreases items.len() - i,
    {
        proof {
            assert(decreases_to!(*items => items@));
            assert(decreases_to!(items@ => items@[i as int]));
            assert(decreases_to!(items@[i as int] => items@[i as int].body));
            assert(items@.take(i + 1).drop_last() =~= items@.take(i as int));
        }
        let here = items[i].body.mentions_next_state();
        found = found || here;
        i = i + 1;
    }
    proof { assert(items@.take(items@.len() as int) =~= items@); }
    found
}

fn instances_next(items: &Vec<LetInstance>) -> (r: bool)
    ensures
        r == spec_instances_next(items@),
    decreases items, 0nat,
{
    let mut found = false;
    let mut i: usize = 0;
    while i < items.len()
        invariant
            i <= items.len(),
            found == spec_instances_next(items@.take(i as int)),
        decreases items.len() - i,
    {
        proof {
            assert(decreases_to!(*items => items@));
            assert(decreases_to!(items@ => items@[i as int]));
            assert(decreases_to!(items@[i as int] => items@[i as int].subs));
            assert(items@.take(i + 1).drop_last() =~= items@.take(i as int));
        }
        let here = fields_next(&items[i].subs);
        found = found || here;
        i = i + 1;
    }
    proof { assert(items@.take(items@.len() as int) =~= items@); }
    found
}

fn path_next(items: &Vec<ExceptPath>) -> (r: bool)
    ensures
        r == spec_path_next(items@),
    decreases items, 0nat,
{
    let mut found = false;
    let mut i: usize = 0;
    while i < items.len()
        invariant
            i <= items.len(),
            found == spec_path_next(items@.take(i as int)),
        decreases items.len() - i,
    {
        proof {
            assert(decreases_to!(*items => items@));
            assert(decreases_to!(items@ => items@[i as int]));
            assert(items@.take(i + 1).drop_last() =~= items@.take(i as int));
        }
        let here = match &items[i] {
            ExceptPath::Index(ix) => {
                proof { assert(decreases_to!(items@[i as int] => items@[i as int]->Index_0)); }
                ix.mentions_next_state()
            },
            ExceptPath::Field(_) => false,
        };
        found = found || here;
        i = i + 1;
    }
    proof { assert(items@.take(items@.len() as int) =~= items@); }
    found
}

fn updates_next(items: &Vec<(Vec<ExceptPath>, Expr)>) -> (r: bool)
    ensures
        r == spec_updates_next(items@),
    decreases items, 0nat,
{
    let mut found = false;
    let mut i: usize = 0;
    while i < items.len()
        invariant
            i <= items.len(),
            found == spec_updates_next(items@.take(i as int)),
        decreases items.len() - i,
    {
        proof {
            assert(decreases_to!(*items => items@));
            assert(decreases_to!(items@ => items@[i as int]));
            assert(decreases_to!(items@[i as int] => items@[i as int].0));
            assert(decreases_to!(items@[i as int] => items@[i as int].1));
            assert(items@.take(i + 1).drop_last() =~= items@.take(i as int));
        }
        let p = path_next(&items[i].0);
        let v = items[i].1.mentions_next_state();
        found = found || p || v;
        i = i + 1;
    }
    proof { assert(items@.take(items@.len() as int) =~= items@); }
    found
}

fn arms_next(items: &Vec<(Expr, Expr)>) -> (r: bool)
    ensures
        r == spec_arms_next(items@),
    decreases items, 0nat,
{
    let mut found = false;
    let mut i: usize = 0;
    while i < items.len()
        invariant
            i <= items.len(),
            found == spec_arms_next(items@.take(i as int)),
        decreases items.len() - i,
    {
        proof {
            assert(decreases_to!(*items => items@));
            assert(decreases_to!(items@ => items@[i as int]));
            assert(decreases_to!(items@[i as int] => items@[i as int].0));
            assert(decreases_to!(items@[i as int] => items@[i as int].1));
            assert(items@.take(i + 1).drop_last() =~= items@.take(i as int));
        }
        let g = items[i].0.mentions_next_state();
        let v = items[i].1.mentions_next_state();
        found = found || g || v;
        i = i + 1;
    }
    proof { assert(items@.take(items@.len() as int) =~= items@); }
    found
}

} // verus!
