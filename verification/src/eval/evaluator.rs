//! Evaluation of expressions at a state, or at a pair of states.

use vstd::prelude::*;
use vstd::arithmetic::power::pow;
use crate::eval::builtin;
use crate::eval::error::Error;
use crate::eval::ops::{about, check_size, combine, combine_of, elements, equal, powerset, powerset_of, two_to, MAX_ELEMENTS};
use crate::eval::spec::{Instance, Spec};
use crate::eval::graph::{canonical, graph, is_function, keys_sorted, lemma_holds_view, lemma_record_from, lemma_set_from, record_from, set_from};
use crate::eval::value::{copy, sorted, view_fields, view_list, view_of, view_pairs, Value, VV};
use crate::syntax::token::Op;
use crate::syntax::{Bound, Def, ExceptPath, Expr, Param, QuantKind};
use crate::text::{append, push_int, str_eq, text};

verus! {

/// How many operator applications may be in progress at once. A recursive
/// definition that does not end is reported when it passes this depth.
pub const MAX_DEPTH: usize = 512;

/// How deeply the evaluator's own steps may nest. Every step of evaluation
/// spends one unit of this on the steps below it, which is what bounds the
/// recursion; no evaluation that fits on a machine's stack comes near it.
pub const NESTING: u64 = 0xFFFF_FFFF_FFFF_FFFF;

/// A binding of every variable the specification declares.
pub type State = Vec<(String, Value)>;

/// A specification together with values for its constants.
pub struct Evaluator<'m> {
    pub(crate) spec: &'m Spec,
    constants: Vec<(String, Value)>,
}

/// What a name in scope stands for.
///
/// A parameter declared `f(_)` is an operator, not a value, so what it binds
/// to has to be something that can be applied.
pub enum Local<'m> {
    Val(Value),
    /// A `LET` definition, together with how much of the local stack it may
    /// see; everything pushed after that is the caller's, not its own.
    Def { def: &'m Def, scope: usize },
    /// A `LAMBDA`, or a definition passed by name.
    Closure { params: &'m Vec<Param>, body: &'m Expr, scope: usize },
    /// An operator symbol passed by itself, as in `FoldSet(+, 0, S)`.
    Symbol(Op),
    /// An operator of a standard module passed by name.
    Builtin(String),
    /// What an instantiated module's declared name stands for. Held as an
    /// expression rather than a value because priming has to reach through
    /// it: under `x <- y`, an `x'` inside the instance means `y'`.
    Subst { expr: &'m Expr, module: usize, scope: usize },
}

/// Where evaluation stands: the scope names are read in, the states, and
/// what is bound locally.
pub struct Ctx<'m, 'a> {
    /// The module whose scope names are read in.
    pub module: usize,
    pub state: &'a State,
    pub next: Option<&'a State>,
    pub primed: bool,
    pub locals: Vec<(String, Local<'m>)>,
    /// The values `@` stands for, innermost last.
    pub at: Vec<Value>,
    /// How many operator applications are in progress.
    pub depth: usize,
}

/// Everything but the locals is as it was.
pub open spec fn same_but_locals<'m, 'a>(now: Ctx<'m, 'a>, before: Ctx<'m, 'a>) -> bool {
    now.module == before.module && now.state == before.state && now.next == before.next
        && now.primed == before.primed && now.at@ == before.at@ && now.depth == before.depth
}

/// The context is as it was: the same scope, states, prime, locals, values
/// of `@` and depth. Evaluation leaves the context it was given unchanged.
pub open spec fn kept<'m, 'a>(now: Ctx<'m, 'a>, before: Ctx<'m, 'a>) -> bool {
    same_but_locals(now, before) && now.locals@ == before.locals@
}

/// Everything but the scope and the locals is as it was.
pub open spec fn same_but_scope<'m, 'a>(now: Ctx<'m, 'a>, before: Ctx<'m, 'a>) -> bool {
    now.state == before.state && now.next == before.next && now.primed == before.primed
        && now.at@ == before.at@ && now.depth == before.depth
}

/// The locals were only added to: what was there is still there, first.
pub open spec fn extended<'m, 'a>(now: Ctx<'m, 'a>, before: Ctx<'m, 'a>) -> bool {
    same_but_locals(now, before) && now.locals.len() >= before.locals.len()
        && now.locals@.subrange(0, before.locals.len() as int) == before.locals@
}

/// The local bindings as names and values, where every one of them binds a
/// value; `None` where one binds an operator or a definition.
pub open spec fn env_of<'m>(locals: Seq<(String, Local<'m>)>) -> Option<Seq<(Seq<char>, VV)>>
    decreases locals.len(),
{
    if locals.len() == 0 {
        Some(Seq::empty())
    } else {
        match (env_of(locals.drop_last()), locals.last().1) {
            (Some(e), Local::Val(v)) => Some(e.push((locals.last().0@, v@))),
            _ => None,
        }
    }
}

/// The value the innermost binding of `name` gives it, if any does.
pub open spec fn bound_in(env: Seq<(Seq<char>, VV)>, name: Seq<char>) -> Option<VV>
    decreases env.len(),
{
    if env.len() == 0 {
        None
    } else if env.last().0 == name {
        Some(env.last().1)
    } else {
        bound_in(env.drop_last(), name)
    }
}

/// Every parameter stands for a value, not for an operator.
pub open spec fn value_params(params: Seq<Param>) -> bool {
    forall|i: int| 0 <= i < params.len() ==> (#[trigger] params[i]).arity == 0
}

/// The parameters bound, first to last, to the values given.
pub open spec fn params_env(params: Seq<Param>, vs: Seq<VV>) -> Seq<(Seq<char>, VV)> {
    Seq::new(params.len(), |i: int| (params[i].name@, vs[i]))
}

/// Every binding binds a value.
pub open spec fn all_vals<'m>(bindings: Seq<Local<'m>>) -> bool {
    forall|i: int| 0 <= i < bindings.len() ==> (#[trigger] bindings[i]) is Val
}

/// The values the bindings hold.
pub open spec fn vals_of<'m>(bindings: Seq<Local<'m>>) -> Seq<VV> {
    Seq::new(bindings.len(), |i: int| bindings[i]->Val_0@)
}

/// The bounds behind the references.
pub open spec fn bounds_of<'m>(refs: Seq<&'m Bound>) -> Seq<Bound> {
    Seq::new(refs.len(), |i: int| *refs[i])
}

/// Lists of bindings as names and values.
pub open spec fn bindings_view(bs: Seq<Vec<(String, Value)>>) -> Seq<Seq<(Seq<char>, VV)>> {
    Seq::new(bs.len(), |i: int| view_fields(bs[i]@))
}

/// A result built on the bindings `done`, found so far, and the outcome of
/// the rest of the walk.
pub open spec fn after_done(done: Seq<Seq<(Seq<char>, VV)>>, rest: Option<Result<Seq<Seq<(Seq<char>, VV)>>, ()>>)
    -> Option<Result<Seq<Seq<(Seq<char>, VV)>>, ()>> {
    match rest {
        Some(Ok(more)) => Some(Ok(done + more)),
        other => other,
    }
}

/// What a walk over bounds gives when it appends to a list of `had`
/// bindings no longer than the limit: nothing claimed outside the fragment,
/// an error where the walk fails or the list would pass the limit, and
/// otherwise the list with the new bindings after it.
pub open spec fn walked(r: Result<(), Error>, had: Seq<Seq<(Seq<char>, VV)>>, now: Seq<Seq<(Seq<char>, VV)>>,
    spec_result: Option<Result<Seq<Seq<(Seq<char>, VV)>>, ()>>) -> bool {
    match spec_result {
        None => true,
        Some(Err(_)) => r is Err,
        Some(Ok(l)) => if had.len() + l.len() <= MAX_ELEMENTS {
            r is Ok && now == had + l
        } else {
            r is Err
        },
    }
}

/// Parameters bound to values, in order, are those values under those
/// names.
proof fn lemma_env_of_params<'m>(locals: Seq<(String, Local<'m>)>, params: Seq<Param>, bindings: Seq<Local<'m>>)
    requires
        locals.len() == params.len(),
        bindings.len() == params.len(),
        all_vals(bindings),
        forall|j: int| 0 <= j < locals.len() ==> (#[trigger] locals[j]) == (params[j].name, bindings[j]),
    ensures
        env_of(locals) == Some(params_env(params, vals_of(bindings))),
    decreases locals.len(),
{
    if locals.len() > 0 {
        let n = locals.len() - 1;
        lemma_env_of_params(locals.drop_last(), params.drop_last(), bindings.drop_last());
        assert(params_env(params.drop_last(), vals_of(bindings.drop_last())).push((locals.last().0@, locals.last().1->Val_0@))
            =~= params_env(params, vals_of(bindings)));
    } else {
        assert(params_env(params, vals_of(bindings)) =~= Seq::<(Seq<char>, VV)>::empty());
    }
}

/// A prefix of bindings that are all values is one too, and each binding
/// after it adds its name and value.
proof fn lemma_env_prefix<'m>(locals: Seq<(String, Local<'m>)>, i: int)
    requires
        env_of(locals) is Some,
        0 <= i < locals.len(),
    ensures
        env_of(locals.take(i)) is Some,
        locals[i].1 is Val,
        env_of(locals.take(i + 1)) == Some(env_of(locals.take(i))->Some_0.push((locals[i].0@, locals[i].1->Val_0@))),
    decreases locals.len(),
{
    assert(locals.take(i + 1).drop_last() =~= locals.take(i));
    if i + 1 < locals.len() {
        assert(locals.drop_last().take(i) =~= locals.take(i));
        assert(locals.drop_last().take(i + 1) =~= locals.take(i + 1));
        lemma_env_prefix(locals.drop_last(), i);
    } else {
        assert(locals.take(i + 1) =~= locals);
    }
}

fn copy_local<'m>(l: &Local<'m>) -> (r: Local<'m>)
    ensures
        l matches Local::Val(v) ==> (r matches Local::Val(w) && w@ == v@),
        (l is Val) == (r is Val),
{
    match l {
        Local::Val(v) => Local::Val(copy(v)),
        Local::Def { def, scope } => Local::Def { def: *def, scope: *scope },
        Local::Closure { params, body, scope } => Local::Closure { params: *params, body: *body, scope: *scope },
        Local::Symbol(op) => Local::Symbol(*op),
        Local::Builtin(name) => Local::Builtin(name.clone()),
        Local::Subst { expr, module, scope } => Local::Subst { expr: *expr, module: *module, scope: *scope },
    }
}

/// The innermost binding of `name`.
fn lookup<'m>(name: &str, locals: &Vec<(String, Local<'m>)>) -> (r: Option<Local<'m>>)
    ensures
        locals.len() == 0 ==> r is None,
        env_of(locals@) is Some ==> (r is None <==> bound_in(env_of(locals@)->Some_0, name@) is None),
        env_of(locals@) is Some && r is Some ==> (r->Some_0 matches Local::Val(v)
            && bound_in(env_of(locals@)->Some_0, name@) == Some(v@)),
{
    let mut i: usize = locals.len();
    proof { assert(locals@.take(i as int) =~= locals@); }
    while i > 0
        invariant
            i <= locals.len(),
            env_of(locals@) is Some ==> env_of(locals@.take(i as int)) is Some
                && bound_in(env_of(locals@)->Some_0, name@) == bound_in(env_of(locals@.take(i as int))->Some_0, name@),
        decreases i,
    {
        proof {
            if env_of(locals@) is Some {
                lemma_env_prefix(locals@, i - 1);
            }
        }
        i = i - 1;
        let ghost before = env_of(locals@.take(i as int))->Some_0;
        let ghost step = (locals@[i as int].0@, locals@[i as int].1->Val_0@);
        proof {
            if env_of(locals@) is Some {
                assert(before.push(step).last() == step);
                assert(before.push(step).drop_last() =~= before);
            }
        }
        if str_eq(locals[i].0.as_str(), name) {
            return Some(copy_local(&locals[i].1));
        }
    }
    None
}

/// The value the last binding of `name` gives, if there is one.
pub open spec fn last_binding(b: Seq<(String, Value)>, name: Seq<char>) -> Option<VV>
    decreases b.len(),
{
    if b.len() == 0 {
        None
    } else if b.last().0@ == name {
        Some(b.last().1@)
    } else {
        last_binding(b.drop_last(), name)
    }
}

/// The value a list of bindings gives `name`; the last binding wins.
pub fn value_in(bindings: &Vec<(String, Value)>, name: &str) -> (r: Option<Value>)
    ensures
        r matches Some(v) ==> last_binding(bindings@, name@) == Some(v@),
        r is None ==> last_binding(bindings@, name@) is None,
{
    let mut i: usize = bindings.len();
    proof { assert(bindings@.take(i as int) =~= bindings@); }
    while i > 0
        invariant
            i <= bindings.len(),
            last_binding(bindings@, name@) == last_binding(bindings@.take(i as int), name@),
        decreases i,
    {
        proof {
            assert(bindings@.take(i as int).drop_last() =~= bindings@.take(i - 1));
            assert(bindings@.take(i as int).last() == bindings@[i - 1]);
        }
        i = i - 1;
        if str_eq(bindings[i].0.as_str(), name) {
            return Some(copy(&bindings[i].1));
        }
    }
    None
}

/// The states as sequences of bindings.
pub open spec fn opt_view(next: Option<&State>) -> Option<Seq<(String, Value)>> {
    match next {
        Some(s) => Some(s@),
        None => None,
    }
}

/// What a conjunction, disjunction or implication gives from what its
/// operands give. The left operand decides alone where it can, and then the
/// right one is never looked at: a guard like `Len(buf) > 0 /\ Head(buf) = x`
/// relies on it.
pub open spec fn connective(op: Op, l: Option<Result<VV, ()>>, r: Option<Result<VV, ()>>) -> Option<Result<VV, ()>> {
    match l {
        None => None,
        Some(Err(_)) => Some(Err(())),
        Some(Ok(VV::Bool(a))) => {
            if op == Op::And && !a {
                Some(Ok(VV::Bool(false)))
            } else if op == Op::Or && a {
                Some(Ok(VV::Bool(true)))
            } else if op == Op::Implies && !a {
                Some(Ok(VV::Bool(true)))
            } else {
                match r {
                    None => None,
                    Some(Ok(VV::Bool(b))) => Some(Ok(VV::Bool(b))),
                    _ => Some(Err(())),
                }
            }
        },
        Some(Ok(_)) => Some(Err(())),
    }
}

/// What a binary operator of the core fragment gives from what its operands
/// give: the connectives, then every operator on values, left operand first.
pub open spec fn binary_meaning(op: Op, l: Option<Result<VV, ()>>, r: Option<Result<VV, ()>>) -> Option<Result<VV, ()>> {
    if op == Op::LeadsTo {
        Some(Err(()))
    } else if op == Op::And || op == Op::Or || op == Op::Implies {
        connective(op, l, r)
    } else if op is User {
        None
    } else {
        match l {
            None => None,
            Some(Err(_)) => Some(Err(())),
            Some(Ok(a)) => match r {
                None => None,
                Some(Err(_)) => Some(Err(())),
                Some(Ok(b)) => combine_of(op, a, b),
            },
        }
    }
}

/// Is the expression, at its top, a formula about behaviours rather than
/// about a state or a step: `[]P`, `<>P`, `ENABLED A`, `P ~> Q`, `\AA`,
/// `\EE`, `<<A>>_v` or a fairness condition?
pub open spec fn temporal_form(e: Expr) -> bool {
    match e {
        Expr::Unary(op, _) => op == Op::Always || op == Op::Eventually || op == Op::Enabled,
        Expr::Binary(op, _, _) => op == Op::LeadsTo,
        Expr::Quant { kind, .. } => kind.spec_is_temporal(),
        Expr::ActionAngle { .. } | Expr::Fairness { .. } => true,
        _ => false,
    }
}

/// The first component of the measure the meaning recurses on: how many more
/// operator applications may begin.
pub open spec fn calls_left(depth: nat) -> nat {
    if depth < MAX_DEPTH { (MAX_DEPTH - depth) as nat } else { 0 }
}

/// The members of the members of a set of sets, in order.
pub open spec fn flatten(members: Seq<VV>) -> Seq<VV>
    decreases members.len(),
{
    if members.len() == 0 {
        Seq::empty()
    } else {
        flatten(members.drop_last()) + match members.last() {
            VV::FiniteSet(items) => items,
            _ => Seq::empty(),
        }
    }
}

/// What `UNCHANGED e` gives from what `e` gives in the current and in the
/// successor state.
pub open spec fn unchanged_meaning(now: Option<Result<VV, ()>>, then: Option<Result<VV, ()>>) -> Option<Result<VV, ()>> {
    match now {
        None => None,
        Some(Err(_)) => Some(Err(())),
        Some(Ok(a)) => match then {
            None => None,
            Some(Err(_)) => Some(Err(())),
            Some(Ok(b)) => Some(Ok(VV::Bool(a == b))),
        },
    }
}

/// What a prefix operator of the core fragment gives from what its operand
/// gives: `~`, `-` and `UNCHANGED`, unless the specification defines the
/// operator itself; and an error for the operators that are about more than
/// one step.
pub open spec fn unary_meaning<'m>(ev: Evaluator<'m>, op: Op, module: int, now: Option<Result<VV, ()>>,
    then: Option<Result<VV, ()>>) -> Option<Result<VV, ()>>
{
    if op == Op::Enabled || op == Op::Always || op == Op::Eventually {
        Some(Err(()))
    } else if !(op == Op::Not || op == Op::Minus || op == Op::Unchanged || op == Op::Domain || op == Op::BigUnion
        || op == Op::Subset) {
        None
    } else if ev.spec_of().definition_of(module, op.spec_symbol()) matches Some((_, d)) && d.params.len() == 1 {
        None
    } else if op == Op::Not {
        match now {
            None => None,
            Some(Ok(VV::Bool(b))) => Some(Ok(VV::Bool(!b))),
            _ => Some(Err(())),
        }
    } else if op == Op::Minus {
        match now {
            None => None,
            Some(Ok(VV::Int(n))) => if n == i64::MIN { Some(Err(())) } else { Some(Ok(VV::Int(-n))) },
            _ => Some(Err(())),
        }
    } else if op == Op::Subset {
        match now {
            None => None,
            Some(Ok(VV::FiniteSet(xs))) => if xs.len() < 64 && two_to(xs.len()) <= MAX_ELEMENTS {
                Some(Ok(powerset_of(xs)))
            } else {
                Some(Err(()))
            },
            _ => Some(Err(())),
        }
    } else if op == Op::Domain {
        match now {
            None => None,
            Some(Err(_)) => Some(Err(())),
            Some(Ok(v)) => if !is_function(v) {
                Some(Err(()))
            } else if graph(v).len() <= i64::MAX {
                Some(Ok(VV::FiniteSet(Seq::new(graph(v).len(), |i: int| graph(v)[i].0))))
            } else {
                None
            },
        }
    } else if op == Op::BigUnion {
        match now {
            None => None,
            Some(Ok(VV::FiniteSet(members))) => if forall|i: int| 0 <= i < members.len() ==> #[trigger] members[i] is FiniteSet {
                Some(Ok(VV::FiniteSet(set_from(flatten(members)))))
            } else {
                Some(Err(()))
            },
            _ => Some(Err(())),
        }
    } else {
        unchanged_meaning(now, then)
    }
}

/// A prefix operator that the specification defines with one parameter,
/// which then means that definition.
pub open spec fn user_unary<'m>(ev: Evaluator<'m>, op: Op, module: int) -> bool {
    &&& !(op == Op::Enabled || op == Op::Always || op == Op::Eventually)
    &&& ev.spec_of().definition_of(module, op.spec_symbol()) matches Some((_, d))
    &&& d.params.len() == 1
}

/// An infix operator of the kind that has no meaning of its own, which the
/// specification defines.
pub open spec fn user_binary<'m>(ev: Evaluator<'m>, op: Op, module: int) -> bool {
    op is User && ev.spec_of().definition_of(module, op.spec_symbol()) is Some
}

/// The meaning of an expression of the core fragment at a state, or at a
/// step when `next` is given, in the scope of `module`, with the values
/// `env` bound locally (the innermost last), `at` the values `@` stands
/// for (the innermost last), and `depth` operator applications in
/// progress: literals, decimals (which fail); local names, variables,
/// constants and definitions; operators whose parameters are values,
/// applied to arguments, and the prefix and infix operators a specification
/// defines; priming; `~`, `-`, `SUBSET` and `UNCHANGED`; the connectives and
/// the operators on values, the set operators, `\X`, `^`, `:>` and `@@`
/// among them; `[A]_v`; `IF` and `CASE`; tuples, set enumerations,
/// records and sets of records; sets of functions `[S -> T]`; function
/// application and field access; `EXCEPT`, with `@`
/// for the value an update replaces; and, over bounds
/// that bind names to the members of a finite set without taking tuples
/// apart, the quantifiers `\A` and `\E`, `CHOOSE`, `{x \in S : P}`,
/// `{e : x \in S}` and `[x \in S |-> e]`. A
/// definition's body sees its parameters and nothing else that is local.
/// `Some(Ok(v))` is its value,
/// `Some(Err(()))` says that evaluating it fails, and `None` that it lies
/// outside the fragment, where nothing is claimed.
pub open spec fn meaning<'m>(ev: Evaluator<'m>, e: Expr, module: int, state: Seq<(String, Value)>,
    next: Option<Seq<(String, Value)>>, primed: bool, env: Seq<(Seq<char>, VV)>, at: Seq<VV>, depth: nat) -> Option<Result<VV, ()>>
    decreases calls_left(depth), e, 0nat,
{
    match e {
        Expr::Num(n) => Some(Ok(VV::Int(n as int))),
        Expr::Decimal(_) => Some(Err(())),
        Expr::Bool(b) => Some(Ok(VV::Bool(b))),
        Expr::Str(s) => Some(Ok(VV::Str(s@))),
        Expr::Ident(name) => {
            if bound_in(env, name@) is Some {
                Some(Ok(bound_in(env, name@)->Some_0))
            } else if ev.spec_of().declares_var(module, name@) {
                let source = if primed { next } else { Some(state) };
                match source {
                    None => Some(Err(())),
                    Some(bindings) => match last_binding(bindings, name@) {
                        Some(v) => Some(Ok(v)),
                        None => Some(Err(())),
                    },
                }
            } else if last_binding(ev.constants_given(), name@) is Some {
                Some(Ok(last_binding(ev.constants_given(), name@)->Some_0))
            } else {
                match ev.spec_of().definition_of(module, name@) {
                    None => None,
                    Some((m, d)) => if d.params.len() != 0 || depth >= MAX_DEPTH {
                        Some(Err(()))
                    } else {
                        meaning(ev, d.body, m, state, next, primed, Seq::empty(), at, depth + 1)
                    },
                }
            }
        },
        Expr::Prime(inner) => meaning(ev, *inner, module, state, next, true, env, at, depth),
        Expr::Unary(op, inner) => if user_unary(ev, op, module) {
            let (m, d) = ev.spec_of().definition_of(module, op.spec_symbol())->Some_0;
            match meaning(ev, *inner, module, state, next, primed, env, at, depth) {
                None => None,
                Some(Err(_)) => Some(Err(())),
                Some(Ok(a)) => if depth >= MAX_DEPTH {
                    Some(Err(()))
                } else {
                    meaning(ev, d.body, m, state, next, primed, params_env(d.params@, seq![a]), at, depth + 1)
                },
            }
        } else {
            unary_meaning(ev, op, module, meaning(ev, *inner, module, state, next, primed, env, at, depth),
                meaning(ev, *inner, module, state, next, true, env, at, depth))
        },
        Expr::ActionBox { action, subscript } => match meaning(ev, *action, module, state, next, primed, env, at, depth) {
            None => None,
            Some(Ok(VV::Bool(true))) => Some(Ok(VV::Bool(true))),
            Some(Ok(VV::Bool(false))) => unchanged_meaning(meaning(ev, *subscript, module, state, next, primed, env, at, depth),
                meaning(ev, *subscript, module, state, next, true, env, at, depth)),
            _ => Some(Err(())),
        },
        Expr::Binary(op, l, r) => if user_binary(ev, op, module) {
            let (m, d) = ev.spec_of().definition_of(module, op.spec_symbol())->Some_0;
            match meaning(ev, *l, module, state, next, primed, env, at, depth) {
                None => None,
                Some(Err(_)) => Some(Err(())),
                Some(Ok(a)) => match meaning(ev, *r, module, state, next, primed, env, at, depth) {
                    None => None,
                    Some(Err(_)) => Some(Err(())),
                    Some(Ok(b)) => if d.params.len() != 2 || depth >= MAX_DEPTH {
                        Some(Err(()))
                    } else {
                        meaning(ev, d.body, m, state, next, primed, params_env(d.params@, seq![a, b]), at, depth + 1)
                    },
                },
            }
        } else {
            binary_meaning(op, meaning(ev, *l, module, state, next, primed, env, at, depth),
                meaning(ev, *r, module, state, next, primed, env, at, depth))
        },
        Expr::If { cond, then, otherwise } => match meaning(ev, *cond, module, state, next, primed, env, at, depth) {
            None => None,
            Some(Ok(VV::Bool(true))) => meaning(ev, *then, module, state, next, primed, env, at, depth),
            Some(Ok(VV::Bool(false))) => meaning(ev, *otherwise, module, state, next, primed, env, at, depth),
            _ => Some(Err(())),
        },
        Expr::Tuple(items) => match meaning_list(ev, items@, module, state, next, primed, env, at, depth) {
            None => None,
            Some(Err(_)) => Some(Err(())),
            Some(Ok(vs)) => Some(Ok(VV::Sequence(vs))),
        },
        Expr::SetEnum(items) => match meaning_list(ev, items@, module, state, next, primed, env, at, depth) {
            None => None,
            Some(Err(_)) => Some(Err(())),
            Some(Ok(vs)) => Some(Ok(VV::FiniteSet(set_from(vs)))),
        },
        Expr::FnApply(f, args) => match meaning(ev, *f, module, state, next, primed, env, at, depth) {
            None => None,
            Some(Err(_)) => Some(Err(())),
            Some(Ok(fv)) => match meaning_list(ev, args@, module, state, next, primed, env, at, depth) {
                None => None,
                Some(Err(_)) => Some(Err(())),
                Some(Ok(ks)) => applied(fv, key_of(ks)),
            },
        },
        Expr::Field(inner, name) => match meaning(ev, *inner, module, state, next, primed, env, at, depth) {
            None => None,
            Some(Err(_)) => Some(Err(())),
            Some(Ok(v)) => applied(v, VV::Str(name@)),
        },
        Expr::Apply(head, args) => match *head {
            Expr::Ident(name) => if bound_in(env, name@) is Some {
                Some(Err(()))
            } else {
                match ev.spec_of().definition_of(module, name@) {
                    Some((m, d)) => if d.params.len() != args.len() {
                        Some(Err(()))
                    } else if !value_params(d.params@) {
                        None
                    } else {
                        match meaning_list(ev, args@, m, state, next, primed, env, at, depth) {
                            None => None,
                            Some(Err(_)) => Some(Err(())),
                            Some(Ok(vs)) => if depth >= MAX_DEPTH {
                                Some(Err(()))
                            } else {
                                meaning(ev, d.body, m, state, next, primed, params_env(d.params@, vs), at, depth + 1)
                            },
                        }
                    },
                    None => match meaning_list(ev, args@, module, state, next, primed, env, at, depth) {
                        None => None,
                        Some(Err(_)) => Some(Err(())),
                        Some(Ok(vs)) => builtin::builtin_meaning(name@, vs),
                    },
                }
            },
            _ => Some(Err(())),
        },
        Expr::Record(fields) => match meaning_fields(ev, fields@, module, state, next, primed, env, at, depth) {
            None => None,
            Some(Err(_)) => Some(Err(())),
            Some(Ok(fs)) => Some(Ok(VV::Record(record_from(fs)))),
        },
        Expr::Case { arms, other } => match case_meaning(ev, arms@, module, state, next, primed, env, at, depth) {
            None => None,
            Some(Err(_)) => Some(Err(())),
            Some(Ok(Some(v))) => Some(Ok(v)),
            Some(Ok(None)) => match other {
                Some(o) => meaning(ev, *o, module, state, next, primed, env, at, depth),
                None => Some(Err(())),
            },
        },
        Expr::Choose { bound, body } => match one_bound(ev, *bound, module, state, next, primed, env, at, depth) {
            None => None,
            Some(Err(_)) => Some(Err(())),
            Some(Ok(bs)) => if bs.len() > MAX_ELEMENTS {
                Some(Err(()))
            } else {
                choose_fold(ev, *body, bs, module, state, next, primed, env, at, depth)
            },
        },
        Expr::SetFilter { bound, pred } => match one_bound(ev, *bound, module, state, next, primed, env, at, depth) {
            None => None,
            Some(Err(_)) => Some(Err(())),
            Some(Ok(bs)) => if bs.len() > MAX_ELEMENTS {
                Some(Err(()))
            } else {
                match filter_fold(ev, *pred, bs, module, state, next, primed, env, at, depth) {
                    None => None,
                    Some(Err(_)) => Some(Err(())),
                    Some(Ok(kept)) => Some(Ok(VV::FiniteSet(set_from(kept)))),
                }
            },
        },
        Expr::SetMap { expr, bounds } => match expansions(ev, bounds@, module, state, next, primed, env, Seq::empty(), at, depth) {
            None => None,
            Some(Err(_)) => Some(Err(())),
            Some(Ok(bs)) => if bs.len() > MAX_ELEMENTS {
                Some(Err(()))
            } else {
                match map_fold(ev, *expr, bs, module, state, next, primed, env, at, depth) {
                    None => None,
                    Some(Err(_)) => Some(Err(())),
                    Some(Ok(images)) => Some(Ok(VV::FiniteSet(set_from(images)))),
                }
            },
        },
        Expr::At => if at.len() == 0 { Some(Err(())) } else { Some(Ok(at.last())) },
        Expr::Except { base, updates } => match meaning(ev, *base, module, state, next, primed, env, at, depth) {
            None => None,
            Some(Err(_)) => Some(Err(())),
            Some(Ok(v)) => except_fold(ev, updates@, v, module, state, next, primed, env, at, depth),
        },
        Expr::FnDef { bounds, body } => match expansions(ev, bounds@, module, state, next, primed, env, Seq::empty(), at, depth) {
            None => None,
            Some(Err(_)) => Some(Err(())),
            Some(Ok(bs)) => if bs.len() > MAX_ELEMENTS {
                Some(Err(()))
            } else {
                match fn_fold(ev, *body, bs, module, state, next, primed, env, at, depth) {
                    None => None,
                    Some(Err(_)) => Some(Err(())),
                    Some(Ok(pairs)) => Some(Ok(function_from(pairs))),
                }
            },
        },
        Expr::FnSet { domain, range } => match meaning(ev, *domain, module, state, next, primed, env, at, depth) {
            None => None,
            Some(Ok(VV::FiniteSet(ks))) => match meaning(ev, *range, module, state, next, primed, env, at, depth) {
                None => None,
                Some(Ok(VV::FiniteSet(vs))) => fn_set_meaning(ks, vs),
                _ => Some(Err(())),
            },
            _ => Some(Err(())),
        },
        Expr::RecordSet(fields) => match record_combos(ev, fields@, module, state, next, primed, env, at, depth) {
            None => None,
            Some(Err(_)) => Some(Err(())),
            Some(Ok(cs)) => Some(Ok(VV::FiniteSet(set_from(Seq::new(cs.len(), |j: int| VV::Record(record_from(cs[j]))))))),
        },
        Expr::Quant { kind, bounds, body } => if kind.spec_is_temporal() {
            Some(Err(()))
        } else {
            match expansions(ev, bounds@, module, state, next, primed, env, Seq::empty(), at, depth) {
                None => None,
                Some(Err(_)) => Some(Err(())),
                Some(Ok(bs)) => if bs.len() > MAX_ELEMENTS {
                    Some(Err(()))
                } else {
                    quant_fold(ev, kind == QuantKind::Exists, *body, bs, module, state, next, primed, env, at, depth)
                },
            }
        },
        _ => None,
    }
}

/// Every way the bounds bind their names, in the order they are visited,
/// each binding following `current`: a bound's domain is read with `env`,
/// which holds the bindings before it, and must be a finite set; its names
/// range over the members, first to last, the first name changing slowest.
/// A bound that takes tuples apart lies outside the fragment.
pub open spec fn expansions<'m>(ev: Evaluator<'m>, rest: Seq<Bound>, module: int, state: Seq<(String, Value)>,
    next: Option<Seq<(String, Value)>>, primed: bool, env: Seq<(Seq<char>, VV)>, current: Seq<(Seq<char>, VV)>,
    at: Seq<VV>, depth: nat) -> Option<Result<Seq<Seq<(Seq<char>, VV)>>, ()>>
    decreases calls_left(depth), rest, 0nat,
{
    if rest.len() == 0 {
        Some(Ok(seq![current]))
    } else {
        match rest[0].domain {
            None => Some(Err(())),
            Some(d) => if rest[0].destructure {
                None
            } else {
                match meaning(ev, d, module, state, next, primed, env, at, depth) {
                    None => None,
                    Some(Ok(VV::FiniteSet(items))) => over_combos(ev, rest.drop_first(), combos(names_of(rest[0].names@), items),
                        module, state, next, primed, env, current, at, depth),
                    _ => Some(Err(())),
                }
            },
        }
    }
}

/// The bindings of a single bound, as [`expansions`] gives them.
pub open spec fn one_bound<'m>(ev: Evaluator<'m>, b: Bound, module: int, state: Seq<(String, Value)>,
    next: Option<Seq<(String, Value)>>, primed: bool, env: Seq<(Seq<char>, VV)>, at: Seq<VV>, depth: nat)
    -> Option<Result<Seq<Seq<(Seq<char>, VV)>>, ()>>
    decreases calls_left(depth), b, 0nat,
{
    match b.domain {
        None => Some(Err(())),
        Some(d) => if b.destructure {
            None
        } else {
            match meaning(ev, d, module, state, next, primed, env, at, depth) {
                None => None,
                Some(Ok(VV::FiniteSet(items))) => Some(Ok(combos(names_of(b.names@), items))),
                _ => Some(Err(())),
            }
        }
    }
}

/// The names of a bound, as characters.
pub open spec fn names_of(names: Seq<String>) -> Seq<Seq<char>> {
    Seq::new(names.len(), |i: int| names[i]@)
}

/// Every way of binding the names to members, the first name changing
/// slowest.
pub open spec fn combos(names: Seq<Seq<char>>, items: Seq<VV>) -> Seq<Seq<(Seq<char>, VV)>>
    decreases names.len(),
{
    if names.len() == 0 {
        seq![Seq::empty()]
    } else {
        combos_over(names[0], items, combos(names.drop_first(), items))
    }
}

/// `name` bound to each member in turn, each time before every one of the
/// `tails`.
pub open spec fn combos_over(name: Seq<char>, items: Seq<VV>, tails: Seq<Seq<(Seq<char>, VV)>>)
    -> Seq<Seq<(Seq<char>, VV)>>
    decreases items.len(),
{
    if items.len() == 0 {
        Seq::empty()
    } else {
        Seq::new(tails.len(), |i: int| seq![(name, items[0])] + tails[i]) + combos_over(name, items.drop_first(), tails)
    }
}

/// The bindings that follow from each of the combinations in turn, and then
/// the bounds that remain.
pub open spec fn over_combos<'m>(ev: Evaluator<'m>, rest: Seq<Bound>, cs: Seq<Seq<(Seq<char>, VV)>>, module: int,
    state: Seq<(String, Value)>, next: Option<Seq<(String, Value)>>, primed: bool, env: Seq<(Seq<char>, VV)>,
    current: Seq<(Seq<char>, VV)>, at: Seq<VV>, depth: nat) -> Option<Result<Seq<Seq<(Seq<char>, VV)>>, ()>>
    decreases calls_left(depth), rest, cs.len() + 1,
{
    if cs.len() == 0 {
        Some(Ok(Seq::empty()))
    } else {
        match expansions(ev, rest, module, state, next, primed, env + cs[0], current + cs[0], at, depth) {
            None => None,
            Some(Err(_)) => Some(Err(())),
            Some(Ok(first)) => after_done(first, over_combos(ev, rest, cs.drop_first(), module, state, next, primed, env, current, at, depth)),
        }
    }
}

/// The value a binding stands for: the one value it binds, or the tuple of
/// them all.
pub open spec fn element_v(b: Seq<(Seq<char>, VV)>) -> VV {
    if b.len() == 1 { b[0].1 } else { VV::Sequence(Seq::new(b.len(), |i: int| b[i].1)) }
}

/// What `CHOOSE` picks: the first binding under which the body is TRUE.
/// The body must be a truth value under each binding up to that one; with
/// no such binding it fails.
pub open spec fn choose_fold<'m>(ev: Evaluator<'m>, body: Expr, bs: Seq<Seq<(Seq<char>, VV)>>, module: int,
    state: Seq<(String, Value)>, next: Option<Seq<(String, Value)>>, primed: bool, env: Seq<(Seq<char>, VV)>,
    at: Seq<VV>, depth: nat) -> Option<Result<VV, ()>>
    decreases calls_left(depth), body, bs.len() + 1,
{
    if bs.len() == 0 {
        Some(Err(()))
    } else {
        match meaning(ev, body, module, state, next, primed, env + bs[0], at, depth) {
            None => None,
            Some(Ok(VV::Bool(true))) => Some(Ok(element_v(bs[0]))),
            Some(Ok(VV::Bool(false))) => choose_fold(ev, body, bs.drop_first(), module, state, next, primed, env, at, depth),
            _ => Some(Err(())),
        }
    }
}

/// The values a list of further outcomes comes to, after those found.
pub open spec fn after_found(found: Seq<VV>, rest: Option<Result<Seq<VV>, ()>>) -> Option<Result<Seq<VV>, ()>> {
    match rest {
        Some(Ok(more)) => Some(Ok(found + more)),
        other => other,
    }
}

/// The values of the bindings under which the predicate is TRUE, in order;
/// it must be a truth value under each.
pub open spec fn filter_fold<'m>(ev: Evaluator<'m>, pred: Expr, bs: Seq<Seq<(Seq<char>, VV)>>, module: int,
    state: Seq<(String, Value)>, next: Option<Seq<(String, Value)>>, primed: bool, env: Seq<(Seq<char>, VV)>,
    at: Seq<VV>, depth: nat) -> Option<Result<Seq<VV>, ()>>
    decreases calls_left(depth), pred, bs.len() + 1,
{
    if bs.len() == 0 {
        Some(Ok(Seq::empty()))
    } else {
        match meaning(ev, pred, module, state, next, primed, env + bs[0], at, depth) {
            None => None,
            Some(Ok(VV::Bool(true))) => after_found(seq![element_v(bs[0])],
                filter_fold(ev, pred, bs.drop_first(), module, state, next, primed, env, at, depth)),
            Some(Ok(VV::Bool(false))) => filter_fold(ev, pred, bs.drop_first(), module, state, next, primed, env, at, depth),
            _ => Some(Err(())),
        }
    }
}

/// The values of the expression under each binding, in order.
pub open spec fn map_fold<'m>(ev: Evaluator<'m>, e: Expr, bs: Seq<Seq<(Seq<char>, VV)>>, module: int,
    state: Seq<(String, Value)>, next: Option<Seq<(String, Value)>>, primed: bool, env: Seq<(Seq<char>, VV)>,
    at: Seq<VV>, depth: nat) -> Option<Result<Seq<VV>, ()>>
    decreases calls_left(depth), e, bs.len() + 1,
{
    if bs.len() == 0 {
        Some(Ok(Seq::empty()))
    } else {
        match meaning(ev, e, module, state, next, primed, env + bs[0], at, depth) {
            None => None,
            Some(Ok(v)) => after_found(seq![v], map_fold(ev, e, bs.drop_first(), module, state, next, primed, env, at, depth)),
            Some(Err(_)) => Some(Err(())),
        }
    }
}

/// The value after the `EXCEPT` updates, applied first to last to `v`.
pub open spec fn except_fold<'m>(ev: Evaluator<'m>, updates: Seq<(Vec<ExceptPath>, Expr)>, v: VV, module: int,
    state: Seq<(String, Value)>, next: Option<Seq<(String, Value)>>, primed: bool, env: Seq<(Seq<char>, VV)>,
    at: Seq<VV>, depth: nat) -> Option<Result<VV, ()>>
    decreases calls_left(depth), updates, 0nat,
{
    if updates.len() == 0 {
        Some(Ok(v))
    } else {
        match update_meaning(ev, updates[0], 0, v, module, state, next, primed, env, at, depth) {
            None => None,
            Some(Err(_)) => Some(Err(())),
            Some(Ok(w)) => except_fold(ev, updates.drop_first(), w, module, state, next, primed, env, at, depth),
        }
    }
}

/// One update `![a][b] = e` of `v`, from step `index` of its path on: at the
/// end of the path `e`'s value, with `@` standing for the value replaced;
/// before it, the function `v` with its value at the step's argument
/// replaced by the rest of the update applied to it. The argument must be
/// one where `v` is defined.
pub open spec fn update_meaning<'m>(ev: Evaluator<'m>, u: (Vec<ExceptPath>, Expr), index: int, v: VV, module: int,
    state: Seq<(String, Value)>, next: Option<Seq<(String, Value)>>, primed: bool, env: Seq<(Seq<char>, VV)>,
    at: Seq<VV>, depth: nat) -> Option<Result<VV, ()>>
    decreases calls_left(depth), u, u.0@.len() - index + 1,
{
    if index < 0 || index >= u.0@.len() {
        meaning(ev, u.1, module, state, next, primed, env, at.push(v), depth)
    } else {
        let key = match u.0@[index] {
            ExceptPath::Index(e) => meaning(ev, e, module, state, next, primed, env, at, depth),
            ExceptPath::Field(name) => Some(Ok(VV::Str(name@))),
        };
        match key {
            None => None,
            Some(Err(_)) => Some(Err(())),
            Some(Ok(k)) => match applied(v, k) {
                None => None,
                Some(Err(_)) => Some(Err(())),
                Some(Ok(old)) => match update_meaning(ev, u, index + 1, old, module, state, next, primed, env, at, depth) {
                    None => None,
                    Some(Err(_)) => Some(Err(())),
                    Some(Ok(replacement)) => if !is_function(v) {
                        Some(Err(()))
                    } else if graph(v).len() > i64::MAX {
                        None
                    } else {
                        Some(Ok(function_from(graph(v).push((k, replacement)))))
                    },
                },
            },
        }
    }
}

/// The pairs of a function definition: each binding's value, with the
/// body's value under that binding, in order.
pub open spec fn fn_fold<'m>(ev: Evaluator<'m>, body: Expr, bs: Seq<Seq<(Seq<char>, VV)>>, module: int,
    state: Seq<(String, Value)>, next: Option<Seq<(String, Value)>>, primed: bool, env: Seq<(Seq<char>, VV)>,
    at: Seq<VV>, depth: nat) -> Option<Result<Seq<(VV, VV)>, ()>>
    decreases calls_left(depth), body, bs.len() + 1,
{
    if bs.len() == 0 {
        Some(Ok(Seq::empty()))
    } else {
        match meaning(ev, body, module, state, next, primed, env + bs[0], at, depth) {
            None => None,
            Some(Ok(v)) => match fn_fold(ev, body, bs.drop_first(), module, state, next, primed, env, at, depth) {
                Some(Ok(more)) => Some(Ok(seq![(element_v(bs[0]), v)] + more)),
                other => other,
            },
            Some(Err(_)) => Some(Err(())),
        }
    }
}

/// The function whose graph the pairs give, the last pair for an argument
/// winning, in the one representation a function has.
pub open spec fn function_from(pairs: Seq<(VV, VV)>) -> VV {
    choose|f: VV| keys_sorted(graph(f)) && f == canonical(graph(f))
        && forall|k: VV| #[trigger] crate::eval::graph::lookup(graph(f), k) == crate::eval::graph::lookup(pairs, k)
}

/// A quantifier's verdict over the bindings, first to last: the body must
/// be a truth value under each; the first that gives `wanted` decides, and
/// when none does the verdict is its opposite.
pub open spec fn quant_fold<'m>(ev: Evaluator<'m>, wanted: bool, body: Expr, bs: Seq<Seq<(Seq<char>, VV)>>, module: int,
    state: Seq<(String, Value)>, next: Option<Seq<(String, Value)>>, primed: bool, env: Seq<(Seq<char>, VV)>,
    at: Seq<VV>, depth: nat) -> Option<Result<VV, ()>>
    decreases calls_left(depth), body, bs.len() + 1,
{
    if bs.len() == 0 {
        Some(Ok(VV::Bool(!wanted)))
    } else {
        match meaning(ev, body, module, state, next, primed, env + bs[0], at, depth) {
            None => None,
            Some(Ok(VV::Bool(b))) => if b == wanted {
                Some(Ok(VV::Bool(wanted)))
            } else {
                quant_fold(ev, wanted, body, bs.drop_first(), module, state, next, primed, env, at, depth)
            },
            _ => Some(Err(())),
        }
    }
}

/// The values of a record's fields, evaluated first to last, each with its
/// name.
pub open spec fn meaning_fields<'m>(ev: Evaluator<'m>, fields: Seq<(String, Expr)>, module: int,
    state: Seq<(String, Value)>, next: Option<Seq<(String, Value)>>, primed: bool, env: Seq<(Seq<char>, VV)>, at: Seq<VV>, depth: nat)
    -> Option<Result<Seq<(Seq<char>, VV)>, ()>>
    decreases calls_left(depth), fields, 0nat,
{
    if fields.len() == 0 {
        Some(Ok(Seq::empty()))
    } else {
        match meaning_fields(ev, fields.drop_last(), module, state, next, primed, env, at, depth) {
            None => None,
            Some(Err(_)) => Some(Err(())),
            Some(Ok(fs)) => match meaning(ev, fields.last().1, module, state, next, primed, env, at, depth) {
                None => None,
                Some(Err(_)) => Some(Err(())),
                Some(Ok(v)) => Some(Ok(fs.push((fields.last().0@, v)))),
            },
        }
    }
}

/// Each of the partial records `combos` in turn, extended by the field
/// `name` at each of `items` in turn.
pub open spec fn extend_combos<K>(combos: Seq<Seq<(K, VV)>>, name: K, items: Seq<VV>)
    -> Seq<Seq<(K, VV)>>
    decreases combos.len(),
{
    if combos.len() == 0 {
        Seq::empty()
    } else {
        extend_combos(combos.drop_last(), name, items)
            + Seq::new(items.len(), |k: int| combos.last().push((name, items[k])))
    }
}

/// The graphs of every function from `keys` to `values`: each key in turn
/// paired with each value in turn.
pub open spec fn fn_combos(keys: Seq<VV>, values: Seq<VV>) -> Seq<Seq<(VV, VV)>>
    decreases keys.len(),
{
    if keys.len() == 0 {
        seq![Seq::empty()]
    } else {
        extend_combos(fn_combos(keys.drop_last(), values), keys.last(), values)
    }
}

/// `[S -> T]` for the members `keys` of `S` and `values` of `T`: the empty
/// sequence alone when `S` is empty, nothing when only `T` is, and a failure
/// when there would be more than `MAX_ELEMENTS` functions.
pub open spec fn fn_set_meaning(keys: Seq<VV>, values: Seq<VV>) -> Option<Result<VV, ()>> {
    if keys.len() == 0 {
        Some(Ok(VV::FiniteSet(seq![VV::Sequence(Seq::empty())])))
    } else if values.len() == 0 {
        Some(Ok(VV::FiniteSet(Seq::empty())))
    } else if pow(values.len() as int, keys.len()) > MAX_ELEMENTS {
        Some(Err(()))
    } else {
        let cs = fn_combos(keys, values);
        Some(Ok(VV::FiniteSet(set_from(Seq::new(cs.len(), |j: int| function_from(cs[j]))))))
    }
}

/// The field lists of the records in a record set `[a : S, b : T]`, built
/// field by field; a set of more than `MAX_ELEMENTS` partial records, or a
/// field whose values are not a finite set, fails.
pub open spec fn record_combos<'m>(ev: Evaluator<'m>, fields: Seq<(String, Expr)>, module: int,
    state: Seq<(String, Value)>, next: Option<Seq<(String, Value)>>, primed: bool, env: Seq<(Seq<char>, VV)>, at: Seq<VV>, depth: nat)
    -> Option<Result<Seq<Seq<(Seq<char>, VV)>>, ()>>
    decreases calls_left(depth), fields, 0nat,
{
    if fields.len() == 0 {
        Some(Ok(seq![Seq::empty()]))
    } else {
        match record_combos(ev, fields.drop_last(), module, state, next, primed, env, at, depth) {
            None => None,
            Some(Err(_)) => Some(Err(())),
            Some(Ok(cs)) => match meaning(ev, fields.last().1, module, state, next, primed, env, at, depth) {
                None => None,
                Some(Ok(VV::FiniteSet(items))) => if cs.len() * items.len() > MAX_ELEMENTS {
                    Some(Err(()))
                } else {
                    Some(Ok(extend_combos(cs, fields.last().0@, items)))
                },
                _ => Some(Err(())),
            },
        }
    }
}

/// The arms of a `CASE` tried in order: the value of the first whose
/// condition holds, `Some(Ok(None))` when no condition holds.
pub open spec fn case_meaning<'m>(ev: Evaluator<'m>, arms: Seq<(Expr, Expr)>, module: int,
    state: Seq<(String, Value)>, next: Option<Seq<(String, Value)>>, primed: bool, env: Seq<(Seq<char>, VV)>, at: Seq<VV>, depth: nat)
    -> Option<Result<Option<VV>, ()>>
    decreases calls_left(depth), arms, 0nat,
{
    if arms.len() == 0 {
        Some(Ok(None))
    } else {
        match meaning(ev, arms[0].0, module, state, next, primed, env, at, depth) {
            None => None,
            Some(Ok(VV::Bool(true))) => match meaning(ev, arms[0].1, module, state, next, primed, env, at, depth) {
                None => None,
                Some(Err(_)) => Some(Err(())),
                Some(Ok(v)) => Some(Ok(Some(v))),
            },
            Some(Ok(VV::Bool(false))) => case_meaning(ev, arms.drop_first(), module, state, next, primed, env, at, depth),
            _ => Some(Err(())),
        }
    }
}

/// The argument a function is applied to: the single value, or the tuple of
/// several.
pub open spec fn key_of(ks: Seq<VV>) -> VV {
    if ks.len() == 1 { ks[0] } else { VV::Sequence(ks) }
}

/// A function's result at `k`, an error where it is not defined there or is
/// no function; nothing is claimed of a function whose graph is not sorted,
/// which this library never builds.
pub open spec fn applied(f: VV, k: VV) -> Option<Result<VV, ()>> {
    if !keys_sorted(graph(f)) {
        None
    } else {
        match crate::eval::graph::lookup(graph(f), k) {
            Some(x) => Some(Ok(x)),
            None => Some(Err(())),
        }
    }
}

/// The meanings of a list of expressions, evaluated first to last; the first
/// that fails or lies outside the fragment settles it.
pub open spec fn meaning_list<'m>(ev: Evaluator<'m>, items: Seq<Expr>, module: int, state: Seq<(String, Value)>,
    next: Option<Seq<(String, Value)>>, primed: bool, env: Seq<(Seq<char>, VV)>, at: Seq<VV>, depth: nat) -> Option<Result<Seq<VV>, ()>>
    decreases calls_left(depth), items, 0nat,
{
    if items.len() == 0 {
        Some(Ok(Seq::empty()))
    } else {
        match meaning_list(ev, items.drop_last(), module, state, next, primed, env, at, depth) {
            None => None,
            Some(Err(_)) => Some(Err(())),
            Some(Ok(vs)) => match meaning(ev, items.last(), module, state, next, primed, env, at, depth) {
                None => None,
                Some(Err(_)) => Some(Err(())),
                Some(Ok(v)) => Some(Ok(vs.push(v))),
            },
        }
    }
}

/// How much of the evaluator's nesting budget an expression of the core
/// fragment needs; evaluation given more than this never runs out of it.
pub open spec fn cost<'m>(ev: Evaluator<'m>, e: Expr, module: int, depth: nat) -> nat
    decreases calls_left(depth), e,
{
    match e {
        Expr::Ident(name) => {
            if !ev.spec_of().declares_var(module, name@) && last_binding(ev.constants_given(), name@) is None {
                match ev.spec_of().definition_of(module, name@) {
                    Some((m, d)) => if d.params.len() == 0 && depth < MAX_DEPTH {
                        4 + cost(ev, d.body, m, depth + 1)
                    } else {
                        4
                    },
                    None => 1,
                }
            } else {
                1
            }
        },
        Expr::Prime(inner) => 2 + cost(ev, *inner, module, depth),
        Expr::Unary(op, inner) => if user_unary(ev, op, module) && depth < MAX_DEPTH {
            let a = cost(ev, *inner, module, depth);
            let (m, d) = ev.spec_of().definition_of(module, op.spec_symbol())->Some_0;
            let b = cost(ev, d.body, m, depth + 1);
            5 + if a >= b { a } else { b }
        } else {
            4 + cost(ev, *inner, module, depth)
        },
        Expr::ActionBox { action, subscript } => {
            let a = cost(ev, *action, module, depth);
            let b = cost(ev, *subscript, module, depth);
            4 + if a >= b { a } else { b }
        },
        Expr::Binary(op, l, r) => {
            let a = cost(ev, *l, module, depth);
            let b = cost(ev, *r, module, depth);
            if user_binary(ev, op, module) && depth < MAX_DEPTH {
                let (m, d) = ev.spec_of().definition_of(module, op.spec_symbol())->Some_0;
                let c = cost(ev, d.body, m, depth + 1);
                5 + if a >= b && a >= c { a } else if b >= c { b } else { c }
            } else {
                3 + if a >= b { a } else { b }
            }
        },
        Expr::If { cond, then, otherwise } => {
            let a = cost(ev, *cond, module, depth);
            let b = cost(ev, *then, module, depth);
            let c = cost(ev, *otherwise, module, depth);
            3 + if a >= b && a >= c { a } else if b >= c { b } else { c }
        },
        Expr::Tuple(items) => 2 + cost_list(ev, items@, module, depth),
        Expr::SetEnum(items) => 2 + cost_list(ev, items@, module, depth),
        Expr::FnApply(f, args) => {
            let a = cost(ev, *f, module, depth);
            let b = cost_list(ev, args@, module, depth);
            3 + if a >= b { a } else { b }
        },
        Expr::Field(inner, _) => 2 + cost(ev, *inner, module, depth),
        Expr::Apply(head, args) => match *head {
            Expr::Ident(name) => match ev.spec_of().definition_of(module, name@) {
                Some((m, d)) => {
                    let a = cost_list(ev, args@, m, depth);
                    let b = if depth < MAX_DEPTH { cost(ev, d.body, m, depth + 1) } else { 0 };
                    6 + if a >= b { a } else { b }
                },
                None => 3 + cost_list(ev, args@, module, depth),
            },
            _ => 3 + cost_list(ev, args@, module, depth),
        },
        Expr::Record(fields) => 2 + cost_fields(ev, fields@, module, depth),
        Expr::RecordSet(fields) => 2 + cost_fields(ev, fields@, module, depth),
        Expr::FnSet { domain, range } => {
            let a = cost(ev, *domain, module, depth);
            let b = cost(ev, *range, module, depth);
            2 + if a >= b { a } else { b }
        },
        Expr::Quant { bounds, body, .. } => {
            let a = bounds_cost(ev, bounds@, module, depth);
            let b = cost(ev, *body, module, depth);
            4 + if a >= b { a } else { b }
        },
        Expr::Choose { bound, body } => {
            let a = bound_cost(ev, *bound, module, depth);
            let b = cost(ev, *body, module, depth);
            4 + if a >= b { a } else { b }
        },
        Expr::SetFilter { bound, pred } => {
            let a = bound_cost(ev, *bound, module, depth);
            let b = cost(ev, *pred, module, depth);
            4 + if a >= b { a } else { b }
        },
        Expr::SetMap { expr, bounds } => {
            let a = bounds_cost(ev, bounds@, module, depth);
            let b = cost(ev, *expr, module, depth);
            4 + if a >= b { a } else { b }
        },
        Expr::FnDef { bounds, body } => {
            let a = bounds_cost(ev, bounds@, module, depth);
            let b = cost(ev, *body, module, depth);
            4 + if a >= b { a } else { b }
        },
        Expr::Except { base, updates } => {
            let a = cost(ev, *base, module, depth);
            let b = updates_cost(ev, updates@, module, depth);
            2 + if a >= b { a } else { b }
        },
        Expr::Case { arms, other } => {
            let a = cost_arms(ev, arms@, module, depth);
            let b = match other {
                Some(o) => cost(ev, *o, module, depth),
                None => 0,
            };
            3 + if a >= b { a } else { b }
        },
        _ => 0,
    }
}

/// How deeply the argument expressions of an `EXCEPT` path may nest.
pub open spec fn path_cost<'m>(ev: Evaluator<'m>, path: Seq<ExceptPath>, module: int, depth: nat) -> nat
    decreases calls_left(depth), path,
{
    if path.len() == 0 {
        0
    } else {
        let a = match path[0] {
            ExceptPath::Index(e) => cost(ev, e, module, depth),
            ExceptPath::Field(_) => 0,
        };
        let b = path_cost(ev, path.drop_first(), module, depth);
        if a >= b { a } else { b }
    }
}

/// How deeply one `EXCEPT` update may nest.
pub open spec fn update_cost<'m>(ev: Evaluator<'m>, u: (Vec<ExceptPath>, Expr), module: int, depth: nat) -> nat
    decreases calls_left(depth), u,
{
    let a = cost(ev, u.1, module, depth);
    let b = path_cost(ev, u.0@, module, depth);
    u.0@.len() + 2 + if a >= b { a } else { b }
}

/// How deeply any of the `EXCEPT` updates may nest.
pub open spec fn updates_cost<'m>(ev: Evaluator<'m>, updates: Seq<(Vec<ExceptPath>, Expr)>, module: int, depth: nat) -> nat
    decreases calls_left(depth), updates,
{
    if updates.len() == 0 {
        0
    } else {
        let a = update_cost(ev, updates[0], module, depth);
        let b = updates_cost(ev, updates.drop_first(), module, depth);
        if a >= b { a } else { b }
    }
}

/// How deeply a walk over a single bound may nest.
pub open spec fn bound_cost<'m>(ev: Evaluator<'m>, b: Bound, module: int, depth: nat) -> nat
    decreases calls_left(depth), b,
{
    let a = match b.domain {
        Some(d) => cost(ev, d, module, depth),
        None => 0,
    };
    b.names@.len() + 3 + if a >= 1 { a } else { 1 }
}

/// How deeply a walk over the bounds may nest.
pub open spec fn bounds_cost<'m>(ev: Evaluator<'m>, rest: Seq<Bound>, module: int, depth: nat) -> nat
    decreases calls_left(depth), rest,
{
    if rest.len() == 0 {
        1
    } else {
        let a = match rest[0].domain {
            Some(d) => cost(ev, d, module, depth),
            None => 0,
        };
        let b = bounds_cost(ev, rest.drop_first(), module, depth);
        rest[0].names@.len() + 3 + if a >= b { a } else { b }
    }
}

pub open spec fn cost_fields<'m>(ev: Evaluator<'m>, fields: Seq<(String, Expr)>, module: int, depth: nat) -> nat
    decreases calls_left(depth), fields,
{
    if fields.len() == 0 {
        0
    } else {
        let a = cost_fields(ev, fields.drop_last(), module, depth);
        let b = cost(ev, fields.last().1, module, depth);
        if a >= b { a } else { b }
    }
}

pub open spec fn cost_arms<'m>(ev: Evaluator<'m>, arms: Seq<(Expr, Expr)>, module: int, depth: nat) -> nat
    decreases calls_left(depth), arms,
{
    if arms.len() == 0 {
        0
    } else {
        let a = cost(ev, arms[0].0, module, depth);
        let b = cost(ev, arms[0].1, module, depth);
        let c = cost_arms(ev, arms.drop_first(), module, depth);
        if a >= b && a >= c { a } else if b >= c { b } else { c }
    }
}

pub open spec fn cost_list<'m>(ev: Evaluator<'m>, items: Seq<Expr>, module: int, depth: nat) -> nat
    decreases calls_left(depth), items,
{
    if items.len() == 0 {
        0
    } else {
        let a = cost_list(ev, items.drop_last(), module, depth);
        let b = cost(ev, items.last(), module, depth);
        if a >= b { a } else { b }
    }
}

/// A conjunction whose left side is FALSE is FALSE whatever its right side
/// would give, even an error: the right side is never looked at. This is
/// what makes a guard like `Len(buf) > 0 /\ Head(buf) = x` safe.
pub proof fn law_false_guard_decides<'m>(ev: Evaluator<'m>, l: Expr, r: Expr, module: int,
    state: Seq<(String, Value)>, next: Option<Seq<(String, Value)>>, primed: bool, env: Seq<(Seq<char>, VV)>, at: Seq<VV>, depth: nat)
    requires
        meaning(ev, l, module, state, next, primed, env, at, depth) == Some(Ok::<VV, ()>(VV::Bool(false))),
    ensures
        meaning(ev, Expr::Binary(Op::And, Box::new(l), Box::new(r)), module, state, next, primed, env, at, depth)
            == Some(Ok::<VV, ()>(VV::Bool(false))),
        meaning(ev, Expr::Binary(Op::Implies, Box::new(l), Box::new(r)), module, state, next, primed, env, at, depth)
            == Some(Ok::<VV, ()>(VV::Bool(true))),
{
}

/// A disjunction whose left side is TRUE is TRUE whatever its right side
/// would give.
pub proof fn law_true_disjunct_decides<'m>(ev: Evaluator<'m>, l: Expr, r: Expr, module: int,
    state: Seq<(String, Value)>, next: Option<Seq<(String, Value)>>, primed: bool, env: Seq<(Seq<char>, VV)>, at: Seq<VV>, depth: nat)
    requires
        meaning(ev, l, module, state, next, primed, env, at, depth) == Some(Ok::<VV, ()>(VV::Bool(true))),
    ensures
        meaning(ev, Expr::Binary(Op::Or, Box::new(l), Box::new(r)), module, state, next, primed, env, at, depth)
            == Some(Ok::<VV, ()>(VV::Bool(true))),
{
}

/// A name that nothing local binds, that is neither a variable nor a
/// constant with a value, and that a module defines without parameters,
/// means that definition's body, read in the module that holds it with no
/// local bindings in scope, one operator application deeper; past the depth
/// limit it is an error, which is how a definition that recurses without
/// end is reported.
pub proof fn law_definition_means_its_body<'m>(ev: Evaluator<'m>, name: String, module: int,
    state: Seq<(String, Value)>, next: Option<Seq<(String, Value)>>, primed: bool, env: Seq<(Seq<char>, VV)>, at: Seq<VV>, depth: nat)
    requires
        bound_in(env, name@) is None,
        !ev.spec_of().declares_var(module, name@),
        last_binding(ev.constants_given(), name@) is None,
        ev.spec_of().definition_of(module, name@) is Some,
        ev.spec_of().definition_of(module, name@)->Some_0.1.params.len() == 0,
    ensures
        depth < MAX_DEPTH ==> meaning(ev, Expr::Ident(name), module, state, next, primed, env, at, depth)
            == meaning(ev, ev.spec_of().definition_of(module, name@)->Some_0.1.body,
                ev.spec_of().definition_of(module, name@)->Some_0.0, state, next, primed, Seq::empty(), at, depth + 1),
        depth >= MAX_DEPTH ==> meaning(ev, Expr::Ident(name), module, state, next, primed, env, at, depth)
            == Some(Err::<VV, ()>(())),
{
}

/// Under a prime a variable that nothing local hides is read in the
/// successor state, and without one in the current state; with no successor
/// state a primed variable is an error.
pub proof fn law_prime_reads_the_successor<'m>(ev: Evaluator<'m>, name: String, module: int,
    state: Seq<(String, Value)>, next: Option<Seq<(String, Value)>>, env: Seq<(Seq<char>, VV)>, at: Seq<VV>, depth: nat)
    requires
        bound_in(env, name@) is None,
        ev.spec_of().declares_var(module, name@),
    ensures
        next matches Some(n) ==> meaning(ev, Expr::Prime(Box::new(Expr::Ident(name))), module, state, next, false, env, at, depth)
            == (match last_binding(n, name@) { Some(v) => Some(Ok::<VV, ()>(v)), None => Some(Err(())) }),
        next is None ==> meaning(ev, Expr::Prime(Box::new(Expr::Ident(name))), module, state, next, false, env, at, depth)
            == Some(Err::<VV, ()>(())),
        meaning(ev, Expr::Ident(name), module, state, next, false, env, at, depth)
            == (match last_binding(state, name@) { Some(v) => Some(Ok::<VV, ()>(v)), None => Some(Err(())) }),
{
    let inner = Expr::Ident(name);
    assert(meaning(ev, Expr::Prime(Box::new(inner)), module, state, next, false, env, at, depth)
        == meaning(ev, inner, module, state, next, true, env, at, depth));
}

/// An operator whose parameters are values, applied to a name that nothing
/// local binds, means its body read in the module that defines it, one
/// operator application deeper, with each parameter bound to its argument's
/// value and nothing else local in scope; the arguments are read in that
/// module too. A failing argument makes the application fail, and so does
/// the wrong number of arguments or an application past the depth limit.
pub proof fn law_application_binds_parameters<'m>(ev: Evaluator<'m>, name: String, args: Vec<Expr>, module: int,
    state: Seq<(String, Value)>, next: Option<Seq<(String, Value)>>, primed: bool, env: Seq<(Seq<char>, VV)>, at: Seq<VV>, depth: nat)
    requires
        bound_in(env, name@) is None,
        ev.spec_of().definition_of(module, name@) is Some,
        value_params(ev.spec_of().definition_of(module, name@)->Some_0.1.params@),
    ensures
        ({
            let (m, d) = ev.spec_of().definition_of(module, name@)->Some_0;
            let applied = meaning(ev, Expr::Apply(Box::new(Expr::Ident(name)), args), module, state, next, primed, env, at, depth);
            &&& d.params.len() != args.len() ==> applied == Some(Err::<VV, ()>(()))
            &&& d.params.len() == args.len() ==> match meaning_list(ev, args@, m, state, next, primed, env, at, depth) {
                Some(Ok(vs)) => applied == if depth < MAX_DEPTH {
                    meaning(ev, d.body, m, state, next, primed, params_env(d.params@, vs), at, depth + 1)
                } else {
                    Some(Err(()))
                },
                Some(Err(_)) => applied == Some(Err::<VV, ()>(())),
                None => applied is None,
            }
        }),
{
}

/// With no bounds after them, the combinations are the bindings, each after
/// `current`.
proof fn lemma_over_combos_last<'m>(ev: Evaluator<'m>, cs: Seq<Seq<(Seq<char>, VV)>>, module: int,
    state: Seq<(String, Value)>, next: Option<Seq<(String, Value)>>, primed: bool, env: Seq<(Seq<char>, VV)>,
    current: Seq<(Seq<char>, VV)>, at: Seq<VV>, depth: nat)
    ensures
        over_combos(ev, Seq::empty(), cs, module, state, next, primed, env, current, at, depth)
            == Some(Ok::<Seq<Seq<(Seq<char>, VV)>>, ()>(Seq::new(cs.len(), |i: int| current + cs[i]))),
    decreases cs.len(),
{
    if cs.len() > 0 {
        lemma_over_combos_last(ev, cs.drop_first(), module, state, next, primed, env, current, at, depth);
        assert(expansions(ev, Seq::empty(), module, state, next, primed, env + cs[0], current + cs[0], at, depth)
            == Some(Ok::<Seq<Seq<(Seq<char>, VV)>>, ()>(seq![current + cs[0]])));
        assert(seq![current + cs[0]] + Seq::new(cs.drop_first().len(), |i: int| current + cs.drop_first()[i])
            =~= Seq::new(cs.len(), |i: int| current + cs[i]));
    } else {
        assert(Seq::new(cs.len(), |i: int| current + cs[i]) =~= Seq::<Seq<(Seq<char>, VV)>>::empty());
    }
}

/// Walking two lists of combinations one after the other is walking the
/// first, and then, if it gave bindings, the second.
proof fn lemma_over_combos_append<'m>(ev: Evaluator<'m>, rest: Seq<Bound>, a: Seq<Seq<(Seq<char>, VV)>>,
    b: Seq<Seq<(Seq<char>, VV)>>, module: int, state: Seq<(String, Value)>, next: Option<Seq<(String, Value)>>,
    primed: bool, env: Seq<(Seq<char>, VV)>, current: Seq<(Seq<char>, VV)>, at: Seq<VV>, depth: nat)
    ensures
        over_combos(ev, rest, a + b, module, state, next, primed, env, current, at, depth)
            == match over_combos(ev, rest, a, module, state, next, primed, env, current, at, depth) {
                Some(Ok(found)) => after_done(found, over_combos(ev, rest, b, module, state, next, primed, env, current, at, depth)),
                other => other,
            },
    decreases a.len(),
{
    if a.len() == 0 {
        assert(a + b =~= b);
        assert(Seq::<Seq<(Seq<char>, VV)>>::empty() + Seq::<Seq<(Seq<char>, VV)>>::empty() =~= Seq::<Seq<(Seq<char>, VV)>>::empty());
        if let Some(Ok(m)) = over_combos(ev, rest, b, module, state, next, primed, env, current, at, depth) {
            assert(Seq::<Seq<(Seq<char>, VV)>>::empty() + m =~= m);
        }
    } else {
        assert((a + b)[0] == a[0]);
        assert((a + b).drop_first() =~= a.drop_first() + b);
        lemma_over_combos_append(ev, rest, a.drop_first(), b, module, state, next, primed, env, current, at, depth);
        if let Some(Ok(f)) = expansions(ev, rest, module, state, next, primed, env + a[0], current + a[0], at, depth) {
            if let Some(Ok(fa)) = over_combos(ev, rest, a.drop_first(), module, state, next, primed, env, current, at, depth) {
                if let Some(Ok(m)) = over_combos(ev, rest, b, module, state, next, primed, env, current, at, depth) {
                    assert(f + (fa + m) =~= (f + fa) + m);
                }
            }
        }
    }
}

/// Walking combinations that all begin with the binding `p` is walking the
/// rest of them with `p` already bound.
proof fn lemma_over_combos_prefixed<'m>(ev: Evaluator<'m>, rest: Seq<Bound>, p: (Seq<char>, VV),
    tails: Seq<Seq<(Seq<char>, VV)>>, module: int, state: Seq<(String, Value)>, next: Option<Seq<(String, Value)>>,
    primed: bool, env: Seq<(Seq<char>, VV)>, current: Seq<(Seq<char>, VV)>, at: Seq<VV>, depth: nat)
    ensures
        over_combos(ev, rest, Seq::new(tails.len(), |i: int| seq![p] + tails[i]), module, state, next, primed, env, current, at, depth)
            == over_combos(ev, rest, tails, module, state, next, primed, env.push(p), current.push(p), at, depth),
    decreases tails.len(),
{
    let mapped = Seq::new(tails.len(), |i: int| seq![p] + tails[i]);
    if tails.len() > 0 {
        assert(env + mapped[0] =~= env.push(p) + tails[0]);
        assert(current + mapped[0] =~= current.push(p) + tails[0]);
        assert(mapped.drop_first() =~= Seq::new(tails.drop_first().len(), |i: int| seq![p] + tails.drop_first()[i]));
        lemma_over_combos_prefixed(ev, rest, p, tails.drop_first(), module, state, next, primed, env, current, at, depth);
    }
}

/// One name, bound to each member in turn.
proof fn lemma_combos_one(name: Seq<char>, items: Seq<VV>)
    ensures
        combos_over(name, items, seq![Seq::<(Seq<char>, VV)>::empty()]) == Seq::new(items.len(), |i: int| seq![(name, items[i])]),
    decreases items.len(),
{
    let tails = seq![Seq::<(Seq<char>, VV)>::empty()];
    if items.len() > 0 {
        lemma_combos_one(name, items.drop_first());
        assert(Seq::new(tails.len(), |i: int| seq![(name, items[0])] + tails[i]) =~= seq![seq![(name, items[0])]]);
        assert(seq![seq![(name, items[0])]] + Seq::new(items.drop_first().len(), |i: int| seq![(name, items.drop_first()[i])])
            =~= Seq::new(items.len(), |i: int| seq![(name, items[i])]));
    } else {
        assert(Seq::new(items.len(), |i: int| seq![(name, items[i])]) =~= Seq::<Seq<(Seq<char>, VV)>>::empty());
    }
}

/// A single bound walks as the list of that bound does.
proof fn lemma_one_bound<'m>(ev: Evaluator<'m>, b: Bound, module: int, state: Seq<(String, Value)>,
    next: Option<Seq<(String, Value)>>, primed: bool, env: Seq<(Seq<char>, VV)>, at: Seq<VV>, depth: nat)
    ensures
        one_bound(ev, b, module, state, next, primed, env, at, depth)
            == expansions(ev, seq![b], module, state, next, primed, env, Seq::empty(), at, depth),
        bound_cost(ev, b, module, depth) == bounds_cost(ev, seq![b], module, depth),
{
    let bs = seq![b];
    assert(bs[0] == b);
    assert(bs.drop_first() =~= Seq::<Bound>::empty());
    assert(bounds_cost(ev, bs.drop_first(), module, depth) == 1);
    if let Some(d) = b.domain {
        if !b.destructure {
            if let Some(Ok(VV::FiniteSet(items))) = meaning(ev, d, module, state, next, primed, env, at, depth) {
                let cs = combos(names_of(b.names@), items);
                lemma_over_combos_last(ev, cs, module, state, next, primed, env, Seq::empty(), at, depth);
                assert(Seq::new(cs.len(), |i: int| Seq::<(Seq<char>, VV)>::empty() + cs[i]) =~= cs);
            }
        }
    }
}

/// Walking the members from `from` on, `CHOOSE` gives the first under which
/// the body is TRUE, after members under which it is FALSE.
#[verifier::rlimit(40)]
#[verifier::spinoff_prover]
proof fn lemma_choose_fold_first<'m>(ev: Evaluator<'m>, body: Expr, name: Seq<char>, items: Seq<VV>, from: int,
    module: int, state: Seq<(String, Value)>, next: Option<Seq<(String, Value)>>, primed: bool,
    env: Seq<(Seq<char>, VV)>, at: Seq<VV>, depth: nat, v: VV)
    requires
        0 <= from <= items.len(),
        choose_fold(ev, body, Seq::new(items.len(), |i: int| seq![(name, items[i])]).skip(from), module, state, next,
            primed, env, at, depth) == Some(Ok::<VV, ()>(v)),
    ensures
        exists|k: int| from <= k < items.len() && v == items[k]
            && meaning(ev, body, module, state, next, primed, env.push((name, items[k])), at, depth) == Some(Ok::<VV, ()>(VV::Bool(true)))
            && forall|j: int| from <= j < k ==> meaning(ev, body, module, state, next, primed, #[trigger] env.push((name, items[j])), at, depth)
                == Some(Ok::<VV, ()>(VV::Bool(false))),
    decreases items.len() - from,
{
    let bs = Seq::new(items.len(), |i: int| seq![(name, items[i])]);
    let here = bs.skip(from);
    if here.len() == 0 {
        assert(choose_fold(ev, body, here, module, state, next, primed, env, at, depth) == Some(Err::<VV, ()>(())));
    } else {
        assert(here[0] == seq![(name, items[from])]);
        assert(env + here[0] =~= env.push((name, items[from])));
        assert(here.drop_first() =~= bs.skip(from + 1));
        match meaning(ev, body, module, state, next, primed, env.push((name, items[from])), at, depth) {
            Some(Ok(VV::Bool(true))) => {
                assert(element_v(here[0]) == items[from]);
            },
            Some(Ok(VV::Bool(false))) => {
                lemma_choose_fold_first(ev, body, name, items, from + 1, module, state, next, primed, env, at, depth, v);
                let k = choose|k: int| from + 1 <= k < items.len() && v == items[k]
                    && meaning(ev, body, module, state, next, primed, env.push((name, items[k])), at, depth) == Some(Ok::<VV, ()>(VV::Bool(true)))
                    && forall|j: int| from + 1 <= j < k ==> meaning(ev, body, module, state, next, primed, #[trigger] env.push((name, items[j])), at, depth)
                        == Some(Ok::<VV, ()>(VV::Bool(false)));
                assert forall|j: int| from <= j < k implies meaning(ev, body, module, state, next, primed, #[trigger] env.push((name, items[j])), at, depth)
                    == Some(Ok::<VV, ()>(VV::Bool(false))) by {
                    if j > from {
                        assert(from + 1 <= j < k);
                    }
                }
            },
            _ => {},
        }
    }
}

/// `CHOOSE x \in S : P` is the first member of `S`, in the order the set
/// holds its members, under which `P` is TRUE, and `P` is FALSE under every
/// member before it. A set holds its members in the value order, so this is
/// the least such member; and as a meaning is a function of what it is
/// given, the same set and predicate always give the same answer.
pub proof fn law_choose_takes_the_first<'m>(ev: Evaluator<'m>, bound: Bound, body: Expr, module: int,
    state: Seq<(String, Value)>, next: Option<Seq<(String, Value)>>, primed: bool, env: Seq<(Seq<char>, VV)>,
    at: Seq<VV>, depth: nat, v: VV)
    requires
        bound.names.len() == 1,
        !bound.destructure,
        bound.domain is Some,
        meaning(ev, bound.domain->Some_0, module, state, next, primed, env, at, depth) matches Some(Ok(VV::FiniteSet(_))),
        meaning(ev, Expr::Choose { bound: Box::new(bound), body: Box::new(body) }, module, state, next, primed, env, at, depth)
            == Some(Ok::<VV, ()>(v)),
    ensures
        ({
            let items = meaning(ev, bound.domain->Some_0, module, state, next, primed, env, at, depth)->Some_0->Ok_0->FiniteSet_0;
            let name = bound.names@[0]@;
            exists|k: int| 0 <= k < items.len() && v == items[k]
                && meaning(ev, body, module, state, next, primed, env.push((name, items[k])), at, depth) == Some(Ok::<VV, ()>(VV::Bool(true)))
                && forall|j: int| 0 <= j < k ==> meaning(ev, body, module, state, next, primed, #[trigger] env.push((name, items[j])), at, depth)
                    == Some(Ok::<VV, ()>(VV::Bool(false)))
        }),
{
    let items = meaning(ev, bound.domain->Some_0, module, state, next, primed, env, at, depth)->Some_0->Ok_0->FiniteSet_0;
    let name = bound.names@[0]@;
    let bs = Seq::new(items.len(), |i: int| seq![(name, items[i])]);
    let names = names_of(bound.names@);
    assert(names.drop_first() =~= Seq::<Seq<char>>::empty());
    assert(combos(names.drop_first(), items) == seq![Seq::<(Seq<char>, VV)>::empty()]);
    lemma_combos_one(name, items);
    assert(one_bound(ev, bound, module, state, next, primed, env, at, depth) == Some(Ok::<Seq<Seq<(Seq<char>, VV)>>, ()>(bs)));
    assert(bs.skip(0) =~= bs);
    lemma_choose_fold_first(ev, body, name, items, 0, module, state, next, primed, env, at, depth, v);
}

/// An argument expression of a path nests no deeper than the path allows.
proof fn lemma_path_cost<'m>(ev: Evaluator<'m>, path: Seq<ExceptPath>, i: int, module: int, depth: nat)
    requires
        0 <= i < path.len(),
    ensures
        path[i] matches ExceptPath::Index(e) ==> cost(ev, e, module, depth) <= path_cost(ev, path, module, depth),
    decreases i,
{
    if i > 0 {
        lemma_path_cost(ev, path.drop_first(), i - 1, module, depth);
        assert(path.drop_first()[i - 1] == path[i]);
    }
}

/// One update nests no deeper than the updates allow.
proof fn lemma_updates_cost<'m>(ev: Evaluator<'m>, updates: Seq<(Vec<ExceptPath>, Expr)>, i: int, module: int, depth: nat)
    requires
        0 <= i < updates.len(),
    ensures
        update_cost(ev, updates[i], module, depth) <= updates_cost(ev, updates, module, depth),
    decreases i,
{
    if i > 0 {
        lemma_updates_cost(ev, updates.drop_first(), i - 1, module, depth);
        assert(updates.drop_first()[i - 1] == updates[i]);
    }
}

/// Does the result agree with what the core fragment says?
pub open spec fn agrees(r: Result<Value, Error>, c: Option<Result<VV, ()>>) -> bool {
    match c {
        Some(Ok(v)) => r is Ok && r->Ok_0@ == v,
        Some(Err(_)) => r is Err,
        None => true,
    }
}

/// The same for a list of values.
pub open spec fn agrees_list(r: Result<Vec<Value>, Error>, c: Option<Result<Seq<VV>, ()>>) -> bool {
    match c {
        Some(Ok(vs)) => r is Ok && crate::eval::value::view_list(r->Ok_0@) == vs,
        Some(Err(_)) => r is Err,
        None => true,
    }
}

proof fn lemma_list_cost<'m>(ev: Evaluator<'m>, items: Seq<Expr>, i: int, module: int, depth: nat)
    requires
        0 <= i < items.len(),
    ensures
        cost(ev, items[i], module, depth) <= cost_list(ev, items, module, depth),
    decreases items.len(),
{
    if i < items.len() - 1 {
        lemma_list_cost(ev, items.drop_last(), i, module, depth);
    }
}

/// Once a prefix of the list fails or leaves the fragment, so does the
/// whole list.
proof fn lemma_meaning_list_prefix<'m>(ev: Evaluator<'m>, items: Seq<Expr>, i: int, module: int,
    state: Seq<(String, Value)>, next: Option<Seq<(String, Value)>>, primed: bool, env: Seq<(Seq<char>, VV)>, at: Seq<VV>, depth: nat)
    requires
        0 <= i <= items.len(),
        !(meaning_list(ev, items.take(i), module, state, next, primed, env, at, depth) is Some
            && meaning_list(ev, items.take(i), module, state, next, primed, env, at, depth)->Some_0 is Ok),
    ensures
        meaning_list(ev, items, module, state, next, primed, env, at, depth)
            == meaning_list(ev, items.take(i), module, state, next, primed, env, at, depth)
            || (meaning_list(ev, items, module, state, next, primed, env, at, depth) matches Some(Err(_))
                && meaning_list(ev, items.take(i), module, state, next, primed, env, at, depth) matches Some(Err(_))),
    decreases items.len() - i,
{
    if i < items.len() {
        assert(items.drop_last().take(i) =~= items.take(i));
        lemma_meaning_list_prefix(ev, items.drop_last(), i, module, state, next, primed, env, at, depth);
    } else {
        assert(items.take(i) =~= items);
    }
}

/// The graphs of partial functions, by their views.
pub open spec fn pairs_view(out: Seq<Vec<(Value, Value)>>) -> Seq<Seq<(VV, VV)>> {
    Seq::new(out.len(), |j: int| view_pairs(out[j]@))
}

proof fn lemma_pow_succ(b: int, e: nat)
    ensures
        pow(b, e + 1) == b * pow(b, e),
{
    reveal(pow);
}

proof fn lemma_pow_mono(b: int, i: nat, j: nat)
    requires
        b >= 1,
        i <= j,
    ensures
        pow(b, i) <= pow(b, j),
    decreases j - i,
{
    if i < j {
        lemma_pow_mono(b, i, (j - 1) as nat);
        lemma_pow_succ(b, (j - 1) as nat);
        vstd::arithmetic::power::lemma_pow_positive(b, (j - 1) as nat);
        assert(pow(b, (j - 1) as nat) <= b * pow(b, (j - 1) as nat)) by (nonlinear_arith)
            requires b >= 1, pow(b, (j - 1) as nat) > 0;
    }
}

/// The field lists of partial records, by their views.
pub open spec fn combos_view(out: Seq<Vec<(String, Value)>>) -> Seq<Seq<(Seq<char>, VV)>> {
    Seq::new(out.len(), |j: int| view_fields(out[j]@))
}

/// Once a prefix of the fields of a record set fails or leaves the fragment,
/// so does the whole record set.
proof fn lemma_record_combos_prefix<'m>(ev: Evaluator<'m>, fields: Seq<(String, Expr)>, i: int, module: int,
    state: Seq<(String, Value)>, next: Option<Seq<(String, Value)>>, primed: bool, env: Seq<(Seq<char>, VV)>, at: Seq<VV>, depth: nat)
    requires
        0 <= i <= fields.len(),
        !(record_combos(ev, fields.take(i), module, state, next, primed, env, at, depth) is Some
            && record_combos(ev, fields.take(i), module, state, next, primed, env, at, depth)->Some_0 is Ok),
    ensures
        record_combos(ev, fields, module, state, next, primed, env, at, depth)
            == record_combos(ev, fields.take(i), module, state, next, primed, env, at, depth)
            || (record_combos(ev, fields, module, state, next, primed, env, at, depth) matches Some(Err(_))
                && record_combos(ev, fields.take(i), module, state, next, primed, env, at, depth) matches Some(Err(_))),
    decreases fields.len() - i,
{
    if i < fields.len() {
        assert(fields.drop_last().take(i) =~= fields.take(i));
        lemma_record_combos_prefix(ev, fields.drop_last(), i, module, state, next, primed, env, at, depth);
    } else {
        assert(fields.take(i) =~= fields);
    }
}

proof fn lemma_fields_cost<'m>(ev: Evaluator<'m>, fields: Seq<(String, Expr)>, i: int, module: int, depth: nat)
    requires
        0 <= i < fields.len(),
    ensures
        cost(ev, fields[i].1, module, depth) <= cost_fields(ev, fields, module, depth),
    decreases fields.len(),
{
    if i < fields.len() - 1 {
        lemma_fields_cost(ev, fields.drop_last(), i, module, depth);
    }
}

/// Once a prefix of the fields fails or leaves the fragment, so does the
/// whole record.
proof fn lemma_meaning_fields_prefix<'m>(ev: Evaluator<'m>, fields: Seq<(String, Expr)>, i: int, module: int,
    state: Seq<(String, Value)>, next: Option<Seq<(String, Value)>>, primed: bool, env: Seq<(Seq<char>, VV)>, at: Seq<VV>, depth: nat)
    requires
        0 <= i <= fields.len(),
        !(meaning_fields(ev, fields.take(i), module, state, next, primed, env, at, depth) is Some
            && meaning_fields(ev, fields.take(i), module, state, next, primed, env, at, depth)->Some_0 is Ok),
    ensures
        meaning_fields(ev, fields, module, state, next, primed, env, at, depth)
            == meaning_fields(ev, fields.take(i), module, state, next, primed, env, at, depth)
            || (meaning_fields(ev, fields, module, state, next, primed, env, at, depth) matches Some(Err(_))
                && meaning_fields(ev, fields.take(i), module, state, next, primed, env, at, depth) matches Some(Err(_))),
    decreases fields.len() - i,
{
    if i < fields.len() {
        assert(fields.drop_last().take(i) =~= fields.take(i));
        lemma_meaning_fields_prefix(ev, fields.drop_last(), i, module, state, next, primed, env, at, depth);
    } else {
        assert(fields.take(i) =~= fields);
    }
}

/// The same for a truth value.
pub open spec fn agrees_bool(r: Result<bool, Error>, c: Option<Result<VV, ()>>) -> bool {
    match c {
        Some(Ok(VV::Bool(b))) => r == Ok::<bool, Error>(b),
        Some(Ok(_)) => r is Err,
        Some(Err(_)) => r is Err,
        None => true,
    }
}

fn too_deep() -> (e: Error)
    ensures
        e is Malformed,
{
    Error::Malformed(text("evaluation nested too deeply"))
}

/// "`name` takes `wanted` argument(s), given `given`".
fn arity_error(name: &str, wanted: usize, given: usize) -> (e: Error)
    ensures
        e is Malformed,
{
    let mut m = text("`");
    append(&mut m, name);
    append(&mut m, "` takes ");
    push_count(&mut m, wanted);
    append(&mut m, " argument(s), given ");
    push_count(&mut m, given);
    Error::Malformed(m)
}

fn push_count(m: &mut String, n: usize)
    ensures
        final(m)@ == old(m)@ + if n <= i64::MAX { crate::text::int_digits(n as int) } else { Seq::empty() },
{
    proof { if n > i64::MAX { assert(old(m)@ + Seq::<char>::empty() =~= old(m)@); } }
    if (n as u64) <= (i64::MAX as u64) {
        push_int(m, n as i64);
    }
}

/// The value a binding contributes to a set or a function's domain: the
/// single bound variable, or the tuple of them.
pub fn element_of(binding: &Vec<(String, Value)>) -> (r: Value)
    ensures
        binding.len() == 1 ==> r@ == binding@[0].1@,
        binding.len() != 1 ==> r is Sequence && r->Sequence_0.len() == binding.len(),
        r@ == element_v(view_fields(binding@)),
{
    proof { crate::eval::value::lemma_view_fields_len(binding@); }
    if binding.len() == 1 {
        return copy(&binding[0].1);
    }
    let mut items: Vec<Value> = Vec::new();
    let mut i: usize = 0;
    while i < binding.len()
        invariant
            i <= binding.len(),
            items.len() == i,
            view_fields(binding@).len() == binding.len(),
            view_list(items@) == Seq::new(i as nat, |k: int| view_fields(binding@)[k].1),
        decreases binding.len() - i,
    {
        let ghost before = items@;
        items.push(copy(&binding[i].1));
        proof {
            crate::eval::value::lemma_view_fields_len(binding@);
            crate::eval::value::lemma_view_list_push(before, items@.last());
            assert(items@ == before.push(items@.last()));
            assert(Seq::new((i + 1) as nat, |k: int| view_fields(binding@)[k].1)
                =~= Seq::new(i as nat, |k: int| view_fields(binding@)[k].1).push(view_fields(binding@)[i as int].1));
        }
        i = i + 1;
    }
    Value::Sequence(items)
}

/// Bind every name of a binding as a value; the length to restore to comes
/// back.
pub fn push_binding<'m>(ctx: &mut Ctx<'m, '_>, binding: &Vec<(String, Value)>) -> (restore: usize)
    ensures
        restore == old(ctx).locals.len(),
        final(ctx).locals.len() == old(ctx).locals.len() + binding.len(),
        extended(*final(ctx), *old(ctx)),
        env_of(old(ctx).locals@) is Some ==> env_of(final(ctx).locals@)
            == Some(env_of(old(ctx).locals@)->Some_0 + view_fields(binding@)),
{
    let restore = ctx.locals.len();
    let mut i: usize = 0;
    proof {
        assert(ctx.locals@.subrange(0, restore as int) =~= ctx.locals@);
        assert(binding@.take(0) =~= Seq::<(String, Value)>::empty());
        if env_of(old(ctx).locals@) is Some {
            assert(env_of(old(ctx).locals@)->Some_0 + view_fields(binding@.take(0)) =~= env_of(old(ctx).locals@)->Some_0);
        }
    }
    while i < binding.len()
        invariant
            i <= binding.len(),
            restore == old(ctx).locals.len(),
            ctx.locals.len() == restore + i,
            extended(*ctx, *old(ctx)),
            env_of(old(ctx).locals@) is Some ==> env_of(ctx.locals@)
                == Some(env_of(old(ctx).locals@)->Some_0 + view_fields(binding@.take(i as int))),
        decreases binding.len() - i,
    {
        let ghost before = ctx.locals@;
        ctx.locals.push((binding[i].0.clone(), Local::Val(copy(&binding[i].1))));
        proof {
            assert(ctx.locals@.subrange(0, restore as int) =~= before.subrange(0, restore as int));
            assert(ctx.locals@.drop_last() =~= before);
            assert(binding@.take(i + 1).drop_last() =~= binding@.take(i as int));
            if env_of(old(ctx).locals@) is Some {
                let e0 = env_of(old(ctx).locals@)->Some_0;
                assert(e0 + view_fields(binding@.take(i + 1))
                    =~= (e0 + view_fields(binding@.take(i as int))).push((binding@[i as int].0@, view_of(binding@[i as int].1))));
            }
        }
        i = i + 1;
    }
    proof { assert(binding@.take(i as int) =~= binding@); }
    restore
}

/// The operator a bare symbol names, for `FoldSet(+, 0, S)`.
fn symbol_operator(name: &str) -> (r: Option<Op>)
    ensures
        r is Some <==> exists|k: int| 0 <= k < 15 && (#[trigger] symbol_candidates()[k]).spec_symbol() == name@,
        r matches Some(op) ==> op.spec_symbol() == name@ && symbol_candidates().contains(op),
{
    let candidates = [Op::Plus, Op::Minus, Op::Times, Op::Div, Op::Mod, Op::Pow, Op::Cup, Op::Cap,
        Op::SetMinus, Op::Concat, Op::AtAt, Op::And, Op::Or, Op::Eq, Op::DotDot];
    proof { assert(candidates@ =~= symbol_candidates()); }
    let mut i: usize = 0;
    while i < 15
        invariant
            i <= 15,
            candidates@ == symbol_candidates(),
            forall|k: int| 0 <= k < i ==> (#[trigger] symbol_candidates()[k]).spec_symbol() != name@,
        decreases 15 - i,
    {
        let op = candidates[i];
        if str_eq(op.symbol(), name) {
            return Some(op);
        }
        i = i + 1;
    }
    None
}

/// The operators that a bare symbol can name.
spec fn symbol_candidates() -> Seq<Op> {
    seq![Op::Plus, Op::Minus, Op::Times, Op::Div, Op::Mod, Op::Pow, Op::Cup, Op::Cap,
        Op::SetMinus, Op::Concat, Op::AtAt, Op::And, Op::Or, Op::Eq, Op::DotDot]
}

/// An operator symbol used as a value: `+` in `FoldSet(+, 0, S)`.
fn apply_symbol(op: Op, values: Vec<Value>) -> (r: Result<Value, Error>)
    ensures
        values.len() != 2 ==> (r matches Err(e) && e is Malformed),
{
    if values.len() == 2 {
        combine(op, &values[0], &values[1])
    } else {
        let mut m = text("`");
        append(&mut m, op.symbol());
        append(&mut m, "` takes two arguments, given ");
        push_count(&mut m, values.len());
        Err(Error::Malformed(m))
    }
}

/// The declared constants that `constants` gives no value, in order.
pub open spec fn missing_constants(declared: Seq<String>, constants: Seq<(String, Value)>) -> Seq<String>
    decreases declared.len(),
{
    if declared.len() == 0 {
        Seq::empty()
    } else if last_binding(constants, declared.last()@) is Some {
        missing_constants(declared.drop_last(), constants)
    } else {
        missing_constants(declared.drop_last(), constants).push(declared.last())
    }
}

/// The names of a bound, joined by commas.
fn joined(names: &Vec<String>) -> (s: String)
    ensures
        s@ == crate::syntax::print::names_text(names@),
{
    let mut s = String::new();
    let mut i: usize = 0;
    proof { assert(names@.take(0) =~= Seq::<String>::empty()); }
    while i < names.len()
        invariant
            i <= names.len(),
            s@ == crate::syntax::print::names_text(names@.take(i as int)),
        decreases names.len() - i,
    {
        proof {
            assert(names@.take(i + 1).drop_last() =~= names@.take(i as int));
            assert(names@.take(i + 1).last() == names@[i as int]);
        }
        if i > 0 {
            append(&mut s, ", ");
        }
        append(&mut s, names[i].as_str());
        proof {
            if i == 0 {
                assert(Seq::<char>::empty() + names@[0]@ =~= names@[0]@);
            }
        }
        i = i + 1;
    }
    proof { assert(names@.take(i as int) =~= names@); }
    s
}

/// Put back what was hidden: the locals are cut back to `scope` and the
/// hidden ones follow again.
fn restore<'m>(ctx: &mut Ctx<'m, '_>, scope: usize, hidden: Vec<(String, Local<'m>)>)
    requires
        scope <= old(ctx).locals.len(),
    ensures
        same_but_locals(*final(ctx), *old(ctx)),
        final(ctx).locals@ == old(ctx).locals@.subrange(0, scope as int) + hidden@,
{
    let mut hidden = hidden;
    ctx.locals.truncate(scope);
    ctx.locals.append(&mut hidden);
}

/// Hide the locals from `scope` on; they come back from [`restore`].
fn set_aside<'m>(ctx: &mut Ctx<'m, '_>, scope: usize) -> (r: (usize, Vec<(String, Local<'m>)>))
    ensures
        r.0 <= old(ctx).locals.len(),
        r.0 == (if scope <= old(ctx).locals.len() { scope } else { old(ctx).locals.len() }),
        same_but_locals(*final(ctx), *old(ctx)),
        final(ctx).locals@ == old(ctx).locals@.subrange(0, r.0 as int),
        r.1@ == old(ctx).locals@.subrange(r.0 as int, old(ctx).locals.len() as int),
{
    let at = if scope <= ctx.locals.len() { scope } else { ctx.locals.len() };
    let hidden = ctx.locals.split_off(at);
    (at, hidden)
}

impl<'m> Evaluator<'m> {
    /// Every declared constant must be given a value; a specification with a
    /// free constant has no determinate meaning at a state.
    pub fn new(spec: &'m Spec, constants: Vec<(String, Value)>) -> (r: Result<Evaluator<'m>, Error>)
        ensures
            r matches Ok(ev) ==> ev.constants_given() == constants@ && ev.spec_of() == *spec
                && ev == Evaluator::evaluator_for(spec, constants),
            r matches Err(e) ==> e is Undefined,
            r is Ok <==> forall|k: int| 0 <= k < spec.root_constants().len()
                ==> last_binding(constants@, (#[trigger] spec.root_constants()[k])@) is Some,
            r matches Err(Error::Undefined(m)) ==> m@ == "constants without a value: "@
                + crate::syntax::print::names_text(missing_constants(spec.root_constants(), constants@)),
    {
        let declared = spec.constants();
        let mut missing: Vec<String> = Vec::new();
        let mut i: usize = 0;
        proof { assert(declared@.take(0) =~= Seq::<String>::empty()); }
        while i < declared.len()
            invariant
                i <= declared.len(),
                declared@ == spec.root_constants(),
                missing.len() == 0 <==> forall|k: int| 0 <= k < i
                    ==> last_binding(constants@, (#[trigger] declared@[k])@) is Some,
                missing@ == missing_constants(declared@.take(i as int), constants@),
            decreases declared.len() - i,
        {
            proof {
                assert(declared@.take(i + 1).drop_last() =~= declared@.take(i as int));
                assert(declared@.take(i + 1).last() == declared@[i as int]);
            }
            if value_in(&constants, declared[i].as_str()).is_none() {
                missing.push(declared[i].clone());
            }
            i = i + 1;
        }
        proof { assert(declared@.take(i as int) =~= declared@); }
        if missing.len() > 0 {
            let mut m = text("constants without a value: ");
            append(&mut m, joined(&missing).as_str());
            return Err(Error::Undefined(m));
        }
        Ok(Evaluator { spec, constants })
    }

    /// The specification being evaluated.
    pub(crate) fn source_spec(&self) -> (r: &'m Spec)
        ensures
            *r == self.spec_of(),
    {
        self.spec
    }

    /// The evaluator of `spec` with the given values for its constants.
    pub closed spec fn evaluator_for(spec: &'m Spec, constants: Vec<(String, Value)>) -> Evaluator<'m> {
        Evaluator { spec, constants }
    }

    /// The specification being evaluated.
    pub closed spec fn spec_of(&self) -> Spec {
        *self.spec
    }

    /// The values the constants were given.
    pub closed spec fn constants_given(&self) -> Seq<(String, Value)> {
        self.constants@
    }

    /// Does the named state predicate hold at `state`?
    pub fn holds_at(&self, name: &str, state: &State) -> (r: Result<bool, Error>)
        ensures
            match self.spec_of().definition_of(self.spec_of().root_at(), name@) {
                None => r matches Err(e) && e is Undefined,
                Some((_, d)) => (d.params.len() > 0 ==> (r matches Err(e) && e is Malformed))
                    && (d.params.len() == 0 && cost(*self, d.body, self.spec_of().root_at(), 0) + 1 < NESTING ==> agrees_bool(r,
                        meaning(*self, d.body, self.spec_of().root_at(), state@, None, false, Seq::empty(), Seq::empty(), 0))),
            },
    {
        let body = self.body_of(name)?;
        let mut ctx = Self::ctx(self.spec.root(), state, None);
        self.eval_bool(body, &mut ctx, NESTING)
    }

    /// Is `from -> to` a step the named action permits?
    pub fn step_allowed(&self, name: &str, from: &State, to: &State) -> (r: Result<bool, Error>)
        ensures
            match self.spec_of().definition_of(self.spec_of().root_at(), name@) {
                None => r matches Err(e) && e is Undefined,
                Some((_, d)) => (d.params.len() > 0 ==> (r matches Err(e) && e is Malformed))
                    && (d.params.len() == 0 && cost(*self, d.body, self.spec_of().root_at(), 0) + 1 < NESTING ==> agrees_bool(r,
                        meaning(*self, d.body, self.spec_of().root_at(), from@, Some(to@), false, Seq::empty(), Seq::empty(), 0))),
            },
    {
        let body = self.body_of(name)?;
        let mut ctx = Self::ctx(self.spec.root(), from, Some(to));
        self.eval_bool(body, &mut ctx, NESTING)
    }

    /// The value of a definition without parameters at `state`.
    pub fn value_of(&self, name: &str, state: &State) -> (r: Result<Value, Error>)
        ensures
            match self.spec_of().definition_of(self.spec_of().root_at(), name@) {
                None => r matches Err(e) && e is Undefined,
                Some((_, d)) => (d.params.len() > 0 ==> (r matches Err(e) && e is Malformed))
                    && (d.params.len() == 0 && cost(*self, d.body, self.spec_of().root_at(), 0) < NESTING ==> agrees(r,
                        meaning(*self, d.body, self.spec_of().root_at(), state@, None, false, Seq::empty(), Seq::empty(), 0))),
            },
    {
        let body = self.body_of(name)?;
        let mut ctx = Self::ctx(self.spec.root(), state, None);
        self.eval(body, &mut ctx, NESTING)
    }

    /// The value of an expression at `from`, or at the step `from -> to`.
    pub fn eval_at(&self, expr: &'m Expr, from: &State, to: Option<&State>) -> (r: Result<Value, Error>)
        ensures
            *expr matches Expr::Num(n) ==> (r matches Ok(v) && v@ == VV::Int(n as int)),
            *expr matches Expr::Bool(b) ==> (r matches Ok(v) && v@ == VV::Bool(b)),
            *expr matches Expr::Str(s) ==> (r matches Ok(v) && v@ == VV::Str(s@)),
            temporal_form(*expr) ==> (r matches Err(e) && e is NotGround),
            cost(*self, *expr, self.spec_of().root_at(), 0) < NESTING ==> agrees(r,
                meaning(*self, *expr, self.spec_of().root_at(), from@, opt_view(to), false, Seq::empty(), Seq::empty(), 0)),
    {
        let mut ctx = Self::ctx(self.spec.root(), from, to);
        self.eval(expr, &mut ctx, NESTING)
    }

    /// The body of a definition without parameters, as the root module sees it.
    pub(crate) fn body_of(&self, name: &str) -> (r: Result<&'m Expr, Error>)
        ensures
            r matches Err(e) ==> e is Undefined || e is Malformed,
            match self.spec_of().definition_of(self.spec_of().root_at(), name@) {
                None => r matches Err(e) && e is Undefined,
                Some((_, d)) => if d.params.len() == 0 {
                    r matches Ok(b) && *b == d.body
                } else {
                    r matches Err(e) && e is Malformed
                },
            },
    {
        match self.spec.definition(self.spec.root(), name) {
            None => Err(Error::Undefined(text(name))),
            Some((_, def)) => {
                if def.params.len() == 0 {
                    Ok(&def.body)
                } else {
                    let mut m = text("`");
                    append(&mut m, name);
                    append(&mut m, "` takes ");
                    push_count(&mut m, def.params.len());
                    append(&mut m, " argument(s) and is not a predicate");
                    Err(Error::Malformed(m))
                }
            },
        }
    }

    /// A fresh context at the given states.
    pub(crate) fn ctx<'a>(module: usize, state: &'a State, next: Option<&'a State>) -> (c: Ctx<'m, 'a>)
        ensures
            c.module == module,
            c.state == state,
            c.next == next,
            c.locals.len() == 0,
            c.depth == 0,
            !c.primed,
            view_list(c.at@) == Seq::<VV>::empty(),
    {
        proof { assert(view_list(Seq::<Value>::empty()) =~= Seq::<VV>::empty()); }
        Ctx { module, state, next, primed: false, locals: Vec::new(), at: Vec::new(), depth: 0 }
    }

    // ------------------------------------------------------------ evaluation

    #[verifier::loop_isolation(false)]
    pub(crate) fn eval(&self, e: &'m Expr, ctx: &mut Ctx<'m, '_>, fuel: u64) -> (r: Result<Value, Error>)
        ensures
            *e matches Expr::Num(n) ==> (r matches Ok(v) && v@ == VV::Int(n as int)),
            *e matches Expr::Bool(b) ==> (r matches Ok(v) && v@ == VV::Bool(b)),
            *e matches Expr::Str(s) ==> (r matches Ok(v) && v@ == VV::Str(s@)),
            *e matches Expr::Tuple(items) && r is Ok ==> r->Ok_0 is Sequence,
            *e matches Expr::SetEnum(items) && r is Ok ==> r->Ok_0 is FiniteSet && sorted(r->Ok_0->FiniteSet_0@),
            (*e is Lambda) ==> (r matches Err(err) && err is Malformed),
            temporal_form(*e) ==> (r matches Err(err) && err is NotGround),
            kept(*final(ctx), *old(ctx)),
            env_of(old(ctx).locals@) is Some && fuel > cost(*self, *e, old(ctx).module as int, old(ctx).depth as nat)
                ==> agrees(r, meaning(*self, *e, old(ctx).module as int, old(ctx).state@, opt_view(old(ctx).next), old(ctx).primed, env_of(old(ctx).locals@)->Some_0, view_list(old(ctx).at@), old(ctx).depth as nat)),
        decreases fuel,
    {
        match e {
            Expr::Num(n) => return Ok(Value::Int(*n)),
            Expr::Str(s) => return Ok(Value::Str(s.clone())),
            Expr::Bool(b) => return Ok(Value::Bool(*b)),
            Expr::Lambda { .. } => return Err(Error::Malformed(text("a LAMBDA is an operator, and can only be passed to one"))),
            Expr::ActionAngle { .. } | Expr::Fairness { .. } => return Err(Error::NotGround(text(
                "a fairness or angle-bracket formula is about behaviours, not about one step"))),
            Expr::Unary(Op::Enabled, _) => return Err(Error::NotGround(text(
                "ENABLED asks whether some successor state exists, which needs a search"))),
            Expr::Unary(Op::Always, _) | Expr::Unary(Op::Eventually, _) | Expr::Binary(Op::LeadsTo, _, _) =>
                return Err(Error::NotGround(text("a temporal formula is about behaviours, not about one state"))),
            Expr::Quant { kind, .. } => {
                if kind.is_temporal() {
                    return Err(Error::NotGround(text("a quantifier over behaviours is not about one state")));
                }
            },
            _ => {},
        }
        if fuel == 0 {
            return Err(too_deep());
        }
        let fuel = fuel - 1;
        match e {
            Expr::Decimal(d) => {
                let mut m = text(d.as_str());
                append(&mut m, " is a real number, which cannot be evaluated");
                Err(Error::Type(m))
            },
            Expr::Ident(name) => self.ident(name, ctx, fuel),
            Expr::Prime(inner) => self.primed(inner, ctx, fuel),
            Expr::At => {
                if ctx.at.len() == 0 {
                    Err(Error::Malformed(text("`@` outside an EXCEPT update")))
                } else {
                    Ok(copy(&ctx.at[ctx.at.len() - 1]))
                }
            },
            Expr::Apply(head, args) => self.apply(head, args, ctx, fuel),
            Expr::FnApply(f, args) => {
                let func = self.eval(f, ctx, fuel)?;
                let key = self.key(args, ctx, fuel)?;
                match func.apply(&key) {
                    Some(v) => Ok(v),
                    None => {
                        let mut m = about("", &func, " is not defined at ");
                        append(&mut m, key.to_string().as_str());
                        Err(Error::Type(m))
                    },
                }
            },
            Expr::Field(inner, name) => {
                let v = self.eval(inner, ctx, fuel)?;
                match v.apply(&Value::Str(name.clone())) {
                    Some(x) => Ok(x),
                    None => {
                        let mut m = about("", &v, " has no field `");
                        append(&mut m, name.as_str());
                        append(&mut m, "`");
                        Err(Error::Type(m))
                    },
                }
            },
            Expr::Qualified { instance, name, args } => self.qualified(instance.as_str(), name.as_str(), args, ctx, fuel),
            Expr::Unary(op, inner) => self.unary(*op, inner, ctx, fuel),
            Expr::Binary(op, l, r) => self.binary(*op, l, r, ctx, fuel),
            Expr::Tuple(items) => Ok(Value::Sequence(self.eval_all(items, ctx, fuel)?)),
            Expr::SetEnum(items) => {
                let vals = self.eval_all(items, ctx, fuel)?;
                let ghost vs = view_list(vals@);
                let ghost given = vals@;
                let r = Value::set(vals);
                proof {
                    assert forall|y: VV| #[trigger] crate::eval::value::holds(r->FiniteSet_0@, y) <==> vs.contains(y) by {
                        lemma_holds_view(given, y);
                    }
                    lemma_set_from(r->FiniteSet_0@, vs);
                }
                Ok(r)
            },
            Expr::SetFilter { bound, pred } => self.set_filter(bound, pred, ctx, fuel),
            Expr::SetMap { expr, bounds } => self.set_map(expr, bounds, ctx, fuel),
            Expr::Record(_) => self.record_value(e, ctx, fuel),
            Expr::RecordSet(fields) => self.record_set(fields, ctx, fuel),
            Expr::FnDef { bounds, body } => self.fn_def(bounds, body, ctx, fuel),
            Expr::FnSet { domain, range } => self.fn_set(domain, range, ctx, fuel),
            Expr::Except { base, updates } => self.except_value(base, updates, ctx, fuel),
            Expr::Quant { kind, bounds, body } => self.quantify(*kind, bounds, body, ctx, fuel),
            Expr::Choose { bound, body } => self.choose_one(bound, body, ctx, fuel),
            Expr::Let { defs, body, .. } => {
                let base = ctx.locals.len();
                let scope = if defs.len() <= usize::MAX - base { base + defs.len() } else { base };
                let mut i: usize = 0;
                proof { assert(ctx.locals@.subrange(0, base as int) =~= ctx.locals@); }
                while i < defs.len()
                    invariant
                        i <= defs.len(),
                        base == old(ctx).locals.len(),
                        extended(*ctx, *old(ctx)),
                    decreases defs.len() - i,
                {
                    let ghost before = ctx.locals@;
                    ctx.locals.push((defs[i].name.clone(), Local::Def { def: &defs[i], scope }));
                    proof { assert(ctx.locals@.subrange(0, base as int) =~= before.subrange(0, base as int)); }
                    i = i + 1;
                }
                let out = self.eval(body, ctx, fuel);
                ctx.locals.truncate(base);
                out
            },
            Expr::If { cond, then, otherwise } => {
                if self.eval_bool(cond, ctx, fuel)? {
                    self.eval(then, ctx, fuel)
                } else {
                    self.eval(otherwise, ctx, fuel)
                }
            },
            Expr::Case { .. } => self.case_of(e, ctx, fuel),
            // `[A]_v` is `A \/ UNCHANGED v`, which one step decides.
            Expr::ActionBox { action, subscript } => {
                if self.eval_bool(action, ctx, fuel)? {
                    return Ok(Value::Bool(true));
                }
                self.unchanged(subscript, ctx, fuel)
            },
            _ => Err(Error::Malformed(text("this expression cannot be evaluated"))),
        }
    }

    pub(crate) fn eval_bool(&self, e: &'m Expr, ctx: &mut Ctx<'m, '_>, fuel: u64) -> (r: Result<bool, Error>)
        ensures
            kept(*final(ctx), *old(ctx)),
            env_of(old(ctx).locals@) is Some && fuel > cost(*self, *e, old(ctx).module as int, old(ctx).depth as nat) + 1
                ==> agrees_bool(r, meaning(*self, *e, old(ctx).module as int, old(ctx).state@, opt_view(old(ctx).next), old(ctx).primed, env_of(old(ctx).locals@)->Some_0, view_list(old(ctx).at@), old(ctx).depth as nat)),
        decreases fuel,
    {
        if fuel == 0 {
            return Err(too_deep());
        }
        match self.eval(e, ctx, fuel - 1)? {
            Value::Bool(b) => Ok(b),
            other => Err(Error::Type(about("expected a boolean, got ", &other, ""))),
        }
    }

    #[verifier::loop_isolation(false)]
    fn eval_all(&self, items: &'m Vec<Expr>, ctx: &mut Ctx<'m, '_>, fuel: u64) -> (r: Result<Vec<Value>, Error>)
        ensures
            r matches Ok(vs) ==> vs.len() == items.len(),
            kept(*final(ctx), *old(ctx)),
            env_of(old(ctx).locals@) is Some && fuel > cost_list(*self, items@, old(ctx).module as int, old(ctx).depth as nat) + 1
                ==> agrees_list(r, meaning_list(*self, items@, old(ctx).module as int, old(ctx).state@, opt_view(old(ctx).next), old(ctx).primed, env_of(old(ctx).locals@)->Some_0, view_list(old(ctx).at@), old(ctx).depth as nat)),
        decreases fuel,
    {
        if fuel == 0 {
            return Err(too_deep());
        }
        let ghost module = ctx.module as int;
        let ghost state = ctx.state@;
        let ghost next = opt_view(ctx.next);
        let ghost primed = ctx.primed;
        let ghost depth = ctx.depth as nat;
        let ghost env = env_of(ctx.locals@)->Some_0;
        let ghost at = view_list(ctx.at@);
        let ghost claim = env_of(old(ctx).locals@) is Some && fuel > cost_list(*self, items@, module, depth) + 1;
        let mut out: Vec<Value> = Vec::new();
        let mut i: usize = 0;
        proof { assert(items@.take(0) =~= Seq::<Expr>::empty()); }
        while i < items.len()
            invariant
                i <= items.len(),
                out.len() == i,
                fuel > 0,
                kept(*ctx, *old(ctx)),
                claim ==> (meaning_list(*self, items@.take(i as int), module, state, next, primed, env, at, depth) matches Some(Ok(vs))
                    ==> vs == crate::eval::value::view_list(out@)),
                claim ==> !(meaning_list(*self, items@.take(i as int), module, state, next, primed, env, at, depth) matches Some(Err(_))),
            decreases items.len() - i,
        {
            proof {
                assert(items@.take(i + 1).drop_last() =~= items@.take(i as int));
                assert(items@.take(i + 1).last() == items@[i as int]);
                if claim {
                    lemma_list_cost(*self, items@, i as int, module, depth);
                }
            }
            let x = self.eval(&items[i], ctx, fuel - 1);
            match x {
                Ok(v) => {
                    let ghost before = out@;
                    out.push(v);
                    proof {
                        assert(out@ == before.push(out@.last()));
                        crate::eval::value::lemma_view_list_push(before, out@.last());
                    }
                },
                Err(err) => {
                    proof {
                        if claim {
                            lemma_meaning_list_prefix(*self, items@, i + 1, module, state, next, primed, env, at, depth);
                        }
                    }
                    return Err(err);
                },
            }
            i = i + 1;
        }
        proof { assert(items@.take(i as int) =~= items@); }
        Ok(out)
    }

    /// `[a |-> e, ...]`: each field's value, first to last.
    fn record_value(&self, e: &'m Expr, ctx: &mut Ctx<'m, '_>, fuel: u64) -> (r: Result<Value, Error>)
        requires
            e is Record,
        ensures
            kept(*final(ctx), *old(ctx)),
            env_of(old(ctx).locals@) is Some && fuel + 1 > cost(*self, *e, old(ctx).module as int, old(ctx).depth as nat)
                ==> agrees(r, meaning(*self, *e, old(ctx).module as int, old(ctx).state@, opt_view(old(ctx).next), old(ctx).primed, env_of(old(ctx).locals@)->Some_0, view_list(old(ctx).at@), old(ctx).depth as nat)),
        decreases fuel,
    {
        let fields = match e {
            Expr::Record(fields) => fields,
            _ => return Err(Error::Malformed(text("not a record"))),
        };
        let ghost module = ctx.module as int;
        let ghost state = ctx.state@;
        let ghost next = opt_view(ctx.next);
        let ghost primed = ctx.primed;
        let ghost depth = ctx.depth as nat;
        let ghost env = env_of(ctx.locals@)->Some_0;
        let ghost at = view_list(ctx.at@);
        let ghost claim = env_of(old(ctx).locals@) is Some && fuel + 1 > cost(*self, *e, module, depth);
        let mut out: Vec<(String, Value)> = Vec::new();
        let mut i: usize = 0;
        proof { assert(fields@.take(0) =~= Seq::<(String, Expr)>::empty()); }
        while i < fields.len()
            invariant
                i <= fields.len(),
                kept(*ctx, *old(ctx)),
                *e == Expr::Record(*fields),
                module == ctx.module as int,
                state == ctx.state@,
                next == opt_view(ctx.next),
                primed == ctx.primed,
                depth == ctx.depth as nat,
                env == env_of(ctx.locals@)->Some_0,
                at == view_list(ctx.at@),
                claim == (env_of(old(ctx).locals@) is Some && fuel + 1 > cost(*self, *e, module, depth)),
                claim ==> (meaning_fields(*self, fields@.take(i as int), module, state, next, primed, env, at, depth) matches Some(Ok(fs))
                    ==> fs == view_fields(out@)),
                claim ==> !(meaning_fields(*self, fields@.take(i as int), module, state, next, primed, env, at, depth) matches Some(Err(_))),
            decreases fields.len() - i,
        {
            proof {
                assert(fields@.take(i + 1).drop_last() =~= fields@.take(i as int));
                assert(fields@.take(i + 1).last() == fields@[i as int]);
                if claim {
                    lemma_fields_cost(*self, fields@, i as int, module, depth);
                }
            }
            if fuel == 0 {
                return Err(too_deep());
            }
            let x = self.eval(&fields[i].1, ctx, fuel - 1);
            match x {
                Ok(v) => {
                    let ghost before = out@;
                    out.push((fields[i].0.clone(), v));
                    proof { assert(out@.drop_last() =~= before); }
                },
                Err(err) => {
                    proof {
                        if claim {
                            lemma_meaning_fields_prefix(*self, fields@, i + 1, module, state, next, primed, env, at, depth);
                        }
                    }
                    return Err(err);
                },
            }
            i = i + 1;
        }
        proof { assert(fields@.take(i as int) =~= fields@); }
        let r = Value::record(out);
        proof {
            if claim {
                if let Some(Ok(fs)) = meaning_fields(*self, fields@, module, state, next, primed, env, at, depth) {
                    lemma_record_from(view_fields(r->Record_0@), fs);
                }
            }
        }
        Ok(r)
    }

    /// `CASE c1 -> e1 [] ... [] OTHER -> e`: the first arm whose condition
    /// holds, in order.
    fn case_of(&self, e: &'m Expr, ctx: &mut Ctx<'m, '_>, fuel: u64) -> (r: Result<Value, Error>)
        requires
            e is Case,
        ensures
            kept(*final(ctx), *old(ctx)),
            env_of(old(ctx).locals@) is Some && fuel + 1 > cost(*self, *e, old(ctx).module as int, old(ctx).depth as nat)
                ==> agrees(r, meaning(*self, *e, old(ctx).module as int, old(ctx).state@, opt_view(old(ctx).next), old(ctx).primed, env_of(old(ctx).locals@)->Some_0, view_list(old(ctx).at@), old(ctx).depth as nat)),
        decreases fuel,
    {
        let (arms, other) = match e {
            Expr::Case { arms, other } => (arms, other),
            _ => return Err(Error::Malformed(text("not a CASE"))),
        };
        let ghost module = ctx.module as int;
        let ghost state = ctx.state@;
        let ghost next = opt_view(ctx.next);
        let ghost primed = ctx.primed;
        let ghost depth = ctx.depth as nat;
        let ghost env = env_of(ctx.locals@)->Some_0;
        let ghost at = view_list(ctx.at@);
        let ghost claim = env_of(old(ctx).locals@) is Some && fuel + 1 > cost(*self, *e, module, depth);
        if fuel == 0 {
            return Err(too_deep());
        }
        let mut i: usize = 0;
        proof { assert(arms@.skip(0) =~= arms@); }
        while i < arms.len()
            invariant
                i <= arms.len(),
                fuel > 0,
                kept(*ctx, *old(ctx)),
                *e == (Expr::Case { arms: *arms, other: *other }),
                module == ctx.module as int,
                state == ctx.state@,
                next == opt_view(ctx.next),
                primed == ctx.primed,
                depth == ctx.depth as nat,
                env == env_of(ctx.locals@)->Some_0,
                at == view_list(ctx.at@),
                claim == (env_of(old(ctx).locals@) is Some && fuel + 1 > cost(*self, *e, module, depth)),
                claim ==> (case_meaning(*self, arms@, module, state, next, primed, env, at, depth)
                    == case_meaning(*self, arms@.skip(i as int), module, state, next, primed, env, at, depth)
                    || case_meaning(*self, arms@, module, state, next, primed, env, at, depth) is None),
                claim ==> cost_arms(*self, arms@.skip(i as int), module, depth) <= cost_arms(*self, arms@, module, depth),
            decreases arms.len() - i,
        {
            proof {
                assert(arms@.skip(i as int)[0] == arms@[i as int]);
                assert(arms@.skip(i as int).drop_first() =~= arms@.skip(i + 1));
            }
            let holds = self.eval_bool(&arms[i].0, ctx, fuel - 1);
            match holds {
                Err(err) => return Err(err),
                Ok(true) => return self.eval(&arms[i].1, ctx, fuel - 1),
                Ok(false) => {},
            }
            i = i + 1;
        }
        proof { assert(arms@.skip(i as int) =~= Seq::<(Expr, Expr)>::empty()); }
        match other {
            Some(o) => self.eval(o, ctx, fuel - 1),
            None => Err(Error::Malformed(text("no CASE arm applies"))),
        }
    }

    /// The argument of a function application: the single value, or the
    /// tuple of several.
    fn key(&self, args: &'m Vec<Expr>, ctx: &mut Ctx<'m, '_>, fuel: u64) -> (r: Result<Value, Error>)
        ensures
            kept(*final(ctx), *old(ctx)),
            env_of(old(ctx).locals@) is Some && fuel > cost_list(*self, args@, old(ctx).module as int, old(ctx).depth as nat) + 2
                ==> match meaning_list(*self, args@, old(ctx).module as int, old(ctx).state@, opt_view(old(ctx).next),
                    old(ctx).primed, env_of(old(ctx).locals@)->Some_0, view_list(old(ctx).at@), old(ctx).depth as nat) {
                    Some(Ok(ks)) => r is Ok && r->Ok_0@ == key_of(ks),
                    Some(Err(_)) => r is Err,
                    None => true,
                },
        decreases fuel,
    {
        if fuel == 0 {
            return Err(too_deep());
        }
        let mut values = self.eval_all(args, ctx, fuel - 1)?;
        proof { crate::eval::value::lemma_view_list_len(values@); }
        if values.len() == 1 {
            Ok(values.pop().unwrap())
        } else {
            Ok(Value::Sequence(values))
        }
    }

    fn primed(&self, e: &'m Expr, ctx: &mut Ctx<'m, '_>, fuel: u64) -> (r: Result<Value, Error>)
        ensures
            kept(*final(ctx), *old(ctx)),
            env_of(old(ctx).locals@) is Some && fuel > cost(*self, *e, old(ctx).module as int, old(ctx).depth as nat) + 1
                ==> agrees(r, meaning(*self, *e, old(ctx).module as int, old(ctx).state@, opt_view(old(ctx).next), true,
                    env_of(old(ctx).locals@)->Some_0, view_list(old(ctx).at@), old(ctx).depth as nat)),
        decreases fuel,
    {
        if fuel == 0 {
            return Err(too_deep());
        }
        let saved = ctx.primed;
        ctx.primed = true;
        let out = self.eval(e, ctx, fuel - 1);
        ctx.primed = saved;
        out
    }

    fn ident(&self, name: &String, ctx: &mut Ctx<'m, '_>, fuel: u64) -> (r: Result<Value, Error>)
        ensures
            kept(*final(ctx), *old(ctx)),
            env_of(old(ctx).locals@) is Some && fuel > cost(*self, Expr::Ident(*name), old(ctx).module as int, old(ctx).depth as nat) - 1
                ==> agrees(r, meaning(*self, Expr::Ident(*name), old(ctx).module as int, old(ctx).state@, opt_view(old(ctx).next), old(ctx).primed, env_of(old(ctx).locals@)->Some_0, view_list(old(ctx).at@), old(ctx).depth as nat)),
        decreases fuel,
    {
        let whole = name;
        let name = whole.as_str();
        if fuel == 0 {
            return Err(too_deep());
        }
        let fuel = fuel - 1;
        if let Some(local) = lookup(name, &ctx.locals) {
            return match local {
                Local::Val(v) => Ok(v),
                Local::Def { def, scope } => self.call(def, scope, Vec::new(), ctx, fuel),
                Local::Closure { params, body, scope } => {
                    self.run(name, body, scope, params, Vec::new(), ctx, fuel)
                },
                Local::Subst { expr, module, scope } => self.substituted(expr, module, scope, ctx, fuel),
                Local::Symbol(_) | Local::Builtin(_) => {
                    let mut m = text("`");
                    append(&mut m, name);
                    append(&mut m, "` is an operator and must be applied to arguments");
                    Err(Error::Malformed(m))
                },
            };
        }
        if self.spec.declares_variable(ctx.module, name) {
            let source = if ctx.primed {
                match ctx.next {
                    Some(next) => next,
                    None => {
                        let mut m = text("`");
                        append(&mut m, name);
                        append(&mut m, "'` needs a successor state, but only one state was given");
                        return Err(Error::NoNextState(m));
                    },
                }
            } else {
                ctx.state
            };
            return match value_in(source, name) {
                Some(v) => Ok(v),
                None => {
                    let mut m = text("the state gives no value for variable `");
                    append(&mut m, name);
                    append(&mut m, "`");
                    Err(Error::Malformed(m))
                },
            };
        }
        if let Some(v) = value_in(&self.constants, name) {
            return Ok(v);
        }
        if let Some((module, def)) = self.spec.definition(ctx.module, name) {
            if def.params.len() != 0 {
                let mut m = text("`");
                append(&mut m, name);
                append(&mut m, "` takes ");
                push_count(&mut m, def.params.len());
                append(&mut m, " argument(s) but was used as a value");
                return Err(Error::Malformed(m));
            }
            let previous = ctx.module;
            ctx.module = module;
            let none: Vec<Value> = Vec::new();
            proof {
                assert(params_env(def.params@, view_list(none@)) =~= Seq::<(Seq<char>, VV)>::empty());
            }
            let out = self.call(def, 0, none, ctx, fuel);
            ctx.module = previous;
            return out;
        }
        if self.spec.declares_constant(ctx.module, name) {
            let mut m = text("constant `");
            append(&mut m, name);
            append(&mut m, "` has no value");
            return Err(Error::Undefined(m));
        }
        match builtin::constant(name) {
            Some(v) => Ok(v),
            None => Err(Error::Undefined(text(name))),
        }
    }

    fn apply(&self, head: &'m Expr, args: &'m Vec<Expr>, ctx: &mut Ctx<'m, '_>, fuel: u64) -> (r: Result<Value, Error>)
        ensures
            !(head is Ident) ==> (r matches Err(e) && e is Malformed),
            kept(*final(ctx), *old(ctx)),
            env_of(old(ctx).locals@) is Some
                && fuel + 1 > cost(*self, Expr::Apply(Box::new(*head), *args), old(ctx).module as int, old(ctx).depth as nat)
                ==> agrees(r, meaning(*self, Expr::Apply(Box::new(*head), *args), old(ctx).module as int, old(ctx).state@,
                    opt_view(old(ctx).next), old(ctx).primed, env_of(old(ctx).locals@)->Some_0, view_list(old(ctx).at@), old(ctx).depth as nat)),
        decreases fuel,
    {
        let name = match head {
            Expr::Ident(name) => name,
            _ => return Err(Error::Malformed(text("only a named operator can be applied to arguments"))),
        };
        if fuel == 0 {
            return Err(too_deep());
        }
        let fuel = fuel - 1;
        match lookup(name.as_str(), &ctx.locals) {
            Some(Local::Def { def, scope }) => return self.invoke(&def.name, &def.params, &def.body, scope, args, ctx, fuel),
            Some(Local::Closure { params, body, scope }) => return self.invoke(name, params, body, scope, args, ctx, fuel),
            Some(Local::Symbol(op)) => {
                let values = self.eval_all(args, ctx, fuel)?;
                return apply_symbol(op, values);
            },
            Some(Local::Builtin(builtin)) => {
                let values = self.eval_all(args, ctx, fuel)?;
                return builtin::call(builtin.as_str(), &values);
            },
            // An instance's declared name can itself be an operator, so an
            // application of it applies whatever it stands for.
            Some(Local::Subst { expr, module, scope }) => {
                let replacement = match expr {
                    Expr::Ident(r) => r,
                    _ => {
                        let mut m = text("`");
                        append(&mut m, name.as_str());
                        append(&mut m, "` stands for ");
                        append(&mut m, expr.to_string().as_str());
                        append(&mut m, ", which cannot be applied");
                        return Err(Error::Malformed(m));
                    },
                };
                let values = self.eval_all(args, ctx, fuel)?;
                let (at, hidden) = set_aside(ctx, scope);
                let previous = ctx.module;
                ctx.module = module;
                let out = match self.spec.definition(ctx.module, replacement.as_str()) {
                    Some((defining, def)) => {
                        ctx.module = defining;
                        self.call(def, 0, values, ctx, fuel)
                    },
                    None => builtin::call(replacement.as_str(), &values),
                };
                ctx.module = previous;
                restore(ctx, at, hidden);
                proof { assert(ctx.locals@ =~= old(ctx).locals@); }
                return out;
            },
            Some(Local::Val(_)) => {
                let mut m = text("`");
                append(&mut m, name.as_str());
                append(&mut m, "` is a value, and cannot be applied to arguments");
                return Err(Error::Malformed(m));
            },
            None => {},
        }
        if let Some((module, def)) = self.spec.definition(ctx.module, name.as_str()) {
            let previous = ctx.module;
            ctx.module = module;
            let out = self.invoke(&def.name, &def.params, &def.body, 0, args, ctx, fuel);
            ctx.module = previous;
            return out;
        }
        let values = self.eval_all(args, ctx, fuel)?;
        let r = builtin::call(name.as_str(), &values);
        proof { builtin::lemma_call_meaning(name@, values@, r); }
        r
    }

    /// Call an operator with argument *expressions*, so that an argument for
    /// an operator parameter is bound rather than evaluated.
    #[verifier::loop_isolation(false)]
    fn invoke(
        &self,
        name: &str,
        params: &'m Vec<Param>,
        body: &'m Expr,
        scope: usize,
        args: &'m Vec<Expr>,
        ctx: &mut Ctx<'m, '_>,
        fuel: u64,
    ) -> (r: Result<Value, Error>)
        ensures
            params.len() != args.len() ==> (r matches Err(e) && e is Malformed),
            kept(*final(ctx), *old(ctx)),
            scope == 0 && params.len() == args.len() && value_params(params@) && env_of(old(ctx).locals@) is Some
                && fuel > cost_list(*self, args@, old(ctx).module as int, old(ctx).depth as nat) + 1
                && (old(ctx).depth < MAX_DEPTH ==> fuel > cost(*self, *body, old(ctx).module as int, (old(ctx).depth + 1) as nat) + 2)
                ==> agrees(r, match meaning_list(*self, args@, old(ctx).module as int, old(ctx).state@, opt_view(old(ctx).next),
                    old(ctx).primed, env_of(old(ctx).locals@)->Some_0, view_list(old(ctx).at@), old(ctx).depth as nat) {
                    None => None,
                    Some(Err(_)) => Some(Err(())),
                    Some(Ok(vs)) => if old(ctx).depth >= MAX_DEPTH {
                        Some(Err(()))
                    } else {
                        meaning(*self, *body, old(ctx).module as int, old(ctx).state@, opt_view(old(ctx).next), old(ctx).primed,
                            params_env(params@, vs), view_list(old(ctx).at@), (old(ctx).depth + 1) as nat)
                    },
                }),
        decreases fuel,
    {
        if params.len() != args.len() {
            return Err(arity_error(name, params.len(), args.len()));
        }
        if fuel == 0 {
            return Err(too_deep());
        }
        let fuel = fuel - 1;
        let ghost module = ctx.module as int;
        let ghost state = ctx.state@;
        let ghost next = opt_view(ctx.next);
        let ghost primed = ctx.primed;
        let ghost depth = ctx.depth as nat;
        let ghost env = env_of(ctx.locals@)->Some_0;
        let ghost at = view_list(ctx.at@);
        let ghost claim = value_params(params@) && env_of(old(ctx).locals@) is Some
            && fuel > cost_list(*self, args@, module, depth);
        let mut bindings: Vec<Local<'m>> = Vec::new();
        let mut i: usize = 0;
        proof { assert(args@.take(0) =~= Seq::<Expr>::empty()); }
        while i < args.len()
            invariant
                params.len() == args.len(),
                i <= args.len(),
                bindings.len() == i,
                kept(*ctx, *old(ctx)),
                module == ctx.module as int,
                state == ctx.state@,
                next == opt_view(ctx.next),
                primed == ctx.primed,
                depth == ctx.depth as nat,
                env == env_of(ctx.locals@)->Some_0,
                at == view_list(ctx.at@),
                claim == (value_params(params@) && env_of(old(ctx).locals@) is Some
                    && fuel > cost_list(*self, args@, module, depth)),
                claim ==> all_vals(bindings@),
                claim ==> (meaning_list(*self, args@.take(i as int), module, state, next, primed, env, at, depth) matches Some(Ok(vs))
                    ==> vs == vals_of(bindings@)),
                claim ==> !(meaning_list(*self, args@.take(i as int), module, state, next, primed, env, at, depth) matches Some(Err(_))),
            decreases args.len() - i,
        {
            proof {
                assert(args@.take(i + 1).drop_last() =~= args@.take(i as int));
                assert(args@.take(i + 1).last() == args@[i as int]);
                if claim {
                    lemma_list_cost(*self, args@, i as int, module, depth);
                }
            }
            let binding = if params[i].arity == 0 {
                match self.eval(&args[i], ctx, fuel) {
                    Ok(v) => Local::Val(v),
                    Err(err) => {
                        proof {
                            if claim {
                                lemma_meaning_list_prefix(*self, args@, i + 1, module, state, next, primed, env, at, depth);
                            }
                        }
                        return Err(err);
                    },
                }
            } else {
                self.operator_argument(&args[i], ctx)?
            };
            let ghost before = bindings@;
            bindings.push(binding);
            proof {
                if claim {
                    assert(bindings@ =~= before.push(binding));
                    assert(vals_of(bindings@) =~= vals_of(before).push(binding->Val_0@));
                }
            }
            i = i + 1;
        }
        proof { assert(args@.take(i as int) =~= args@); }
        self.run(name, body, scope, params, bindings, ctx, fuel)
    }

    /// What an argument means when the parameter it fills is an operator.
    fn operator_argument(&self, arg: &'m Expr, ctx: &Ctx<'m, '_>) -> (r: Result<Local<'m>, Error>)
        ensures
            *arg matches Expr::Lambda { params: ps, body: b } ==> (r matches Ok(Local::Closure { params, body, scope })
                && *params == ps && *body == *b && scope == ctx.locals.len()),
            !(*arg is Lambda) && !(*arg is Ident) ==> (r matches Err(e) && e is Malformed),
            *arg is Ident ==> r is Ok,
            *arg matches Expr::Ident(n) ==> (env_of(ctx.locals@) is Some ==> match self.spec_of().definition_of(ctx.module as int, n@) {
                Some((_, d)) => r matches Ok(Local::Closure { params, body, scope }) && *params == d.params && *body == d.body
                    && scope == 0,
                None => if exists|k: int| 0 <= k < 15 && (#[trigger] symbol_candidates()[k]).spec_symbol() == n@ {
                    r matches Ok(Local::Symbol(op)) && op.spec_symbol() == n@
                } else {
                    r matches Ok(Local::Builtin(b)) && b == n
                },
            }),
    {
        match arg {
            Expr::Lambda { params, body } => Ok(Local::Closure { params, body, scope: ctx.locals.len() }),
            Expr::Ident(name) => {
                match lookup(name.as_str(), &ctx.locals) {
                    Some(Local::Closure { params, body, scope }) => return Ok(Local::Closure { params, body, scope }),
                    Some(Local::Symbol(op)) => return Ok(Local::Symbol(op)),
                    Some(Local::Builtin(b)) => return Ok(Local::Builtin(b)),
                    _ => {},
                }
                if let Some((_, def)) = self.spec.definition(ctx.module, name.as_str()) {
                    return Ok(Local::Closure { params: &def.params, body: &def.body, scope: 0 });
                }
                if let Some(op) = symbol_operator(name.as_str()) {
                    return Ok(Local::Symbol(op));
                }
                Ok(Local::Builtin(name.clone()))
            },
            other => Err(Error::Malformed(about_expr("an operator was expected here, but ", other, " is an expression"))),
        }
    }

    /// A declared name of an instantiated module, which stands for whatever
    /// the `WITH` clause put in its place: read back where the instance was
    /// written, and under the prime in force here.
    fn substituted(&self, expr: &'m Expr, module: usize, scope: usize, ctx: &mut Ctx<'m, '_>, fuel: u64) -> (r: Result<Value, Error>)
        ensures
            kept(*final(ctx), *old(ctx)),
            ({
                let kept_locals = old(ctx).locals@.subrange(0, if scope <= old(ctx).locals.len() { scope as int } else { old(ctx).locals.len() as int });
                env_of(kept_locals) is Some && fuel > cost(*self, *expr, module as int, old(ctx).depth as nat) + 1
                    ==> agrees(r, meaning(*self, *expr, module as int, old(ctx).state@, opt_view(old(ctx).next), old(ctx).primed,
                        env_of(kept_locals)->Some_0, view_list(old(ctx).at@), old(ctx).depth as nat))
            }),
        decreases fuel,
    {
        if fuel == 0 {
            return Err(too_deep());
        }
        let (at, hidden) = set_aside(ctx, scope);
        let previous = ctx.module;
        ctx.module = module;
        let out = self.eval(expr, ctx, fuel - 1);
        ctx.module = previous;
        restore(ctx, at, hidden);
        proof { assert(ctx.locals@ =~= old(ctx).locals@); }
        out
    }

    /// `S!Op(args)`: `Op` as written in the module `S` instantiates, with
    /// that module's declared names standing for what `S` substituted for
    /// them. `A!B!C` names a chain of instances; each step moves into the
    /// next.
    #[verifier::loop_isolation(false)]
    fn qualified(&self, instance: &str, name: &str, args: &'m Vec<Expr>, ctx: &mut Ctx<'m, '_>, fuel: u64) -> (r: Result<Value, Error>)
        ensures
            kept(*final(ctx), *old(ctx)),
            fuel == 0 ==> r is Err,
            fuel > 0 && no_bang(instance@) && self.spec_of().instance_of(old(ctx).module as int, instance@) is None
                ==> (r matches Err(e) && e is Undefined),
            fuel > 0 && no_bang(instance@) && (self.spec_of().instance_of(old(ctx).module as int, instance@) matches Some(inst)
                && self.spec_of().definition_of(inst.target as int, name@) is None)
                ==> (r matches Err(e) && e is Undefined),
        decreases fuel,
    {
        if fuel == 0 {
            return Err(too_deep());
        }
        let fuel = fuel - 1;
        let chain = split_bang(instance);
        let outer = ctx.locals.len();
        let previous = ctx.module;
        let mut i: usize = 0;
        proof { assert(ctx.locals@.subrange(0, outer as int) =~= ctx.locals@); }
        while i < chain.len() - 1
            invariant
                i <= chain.len(),
                chain.len() >= 1,
                no_bang(instance@) ==> chain.len() == 1 && chain@[0]@ == instance@ && i == 0,
                i == 0 ==> ctx.module == old(ctx).module,
                outer == old(ctx).locals.len(),
                previous == old(ctx).module,
                same_but_scope(*ctx, *old(ctx)),
                ctx.locals.len() >= outer,
                ctx.locals@.subrange(0, outer as int) == old(ctx).locals@,
            decreases chain.len() - i,
        {
            let step = match self.spec.instance(ctx.module, chain[i].as_str()) {
                Some(s) => s,
                None => {
                    ctx.module = previous;
                    ctx.locals.truncate(outer);
                    return Err(no_instance(chain[i].as_str()));
                },
            };
            let ghost before = ctx.locals@;
            self.bind_substitutions(step, ctx);
            proof { assert(ctx.locals@.subrange(0, outer as int) =~= before.subrange(0, outer as int)); }
            ctx.module = step.target;
            i = i + 1;
        }
        let last = if chain.len() > 0 { chain[chain.len() - 1].as_str() } else { instance };
        let found = match self.spec.instance(ctx.module, last) {
            Some(s) => s,
            None => {
                ctx.module = previous;
                ctx.locals.truncate(outer);
                return Err(no_instance(last));
            },
        };
        let (module, def) = match self.spec.definition(found.target, name) {
            Some(d) => d,
            None => {
                ctx.module = previous;
                ctx.locals.truncate(outer);
                let mut m = text("`");
                append(&mut m, instance);
                append(&mut m, "!");
                append(&mut m, name);
                append(&mut m, "`");
                return Err(Error::Undefined(m));
            },
        };
        // The substituting expressions belong to the scope the instance was
        // written in, so they are bound before the arguments are read.
        let ghost before = ctx.locals@;
        let scope = self.bind_substitutions(found, ctx);
        proof { assert(ctx.locals@.subrange(0, outer as int) =~= before.subrange(0, outer as int)); }
        ctx.module = module;
        let out = self.invoke(&def.name, &def.params, &def.body, scope, args, ctx, fuel);
        ctx.module = previous;
        ctx.locals.truncate(outer);
        out
    }

    /// Bind every declared name of an instance's target to what replaces it,
    /// read in the current module; the new length of the locals comes back.
    fn bind_substitutions(&self, instance: &'m Instance, ctx: &mut Ctx<'m, '_>) -> (r: usize)
        ensures
            extended(*final(ctx), *old(ctx)),
            r == final(ctx).locals.len(),
    {
        let outer = ctx.locals.len();
        let here = ctx.module;
        proof { assert(ctx.locals@.subrange(0, outer as int) =~= ctx.locals@); }
        if let Some(subs) = self.spec.written_substitutions(instance) {
            let mut i: usize = 0;
            while i < subs.len()
                invariant
                    i <= subs.len(),
                    outer == old(ctx).locals.len(),
                    extended(*ctx, *old(ctx)),
                decreases subs.len() - i,
            {
                let ghost before = ctx.locals@;
                ctx.locals.push((subs[i].0.clone(), Local::Subst { expr: &subs[i].1, module: here, scope: outer }));
                proof { assert(ctx.locals@.subrange(0, outer as int) =~= before.subrange(0, outer as int)); }
                i = i + 1;
            }
        }
        let implicit = &instance.implicit;
        let mut i: usize = 0;
        while i < implicit.len()
            invariant
                i <= implicit.len(),
                outer == old(ctx).locals.len(),
                extended(*ctx, *old(ctx)),
            decreases implicit.len() - i,
        {
            let ghost before = ctx.locals@;
            ctx.locals.push((implicit[i].0.clone(), Local::Subst { expr: &implicit[i].1, module: here, scope: outer }));
            proof { assert(ctx.locals@.subrange(0, outer as int) =~= before.subrange(0, outer as int)); }
            i = i + 1;
        }
        ctx.locals.len()
    }

    /// Evaluate a body with its parameters bound and the caller's locals
    /// hidden, which is the one rule operator application has to follow.
    #[verifier::loop_isolation(false)]
    fn run(
        &self,
        name: &str,
        body: &'m Expr,
        scope: usize,
        params: &'m Vec<Param>,
        bindings: Vec<Local<'m>>,
        ctx: &mut Ctx<'m, '_>,
        fuel: u64,
    ) -> (r: Result<Value, Error>)
        ensures
            old(ctx).depth >= MAX_DEPTH ==> (r matches Err(e) && e is Malformed),
            kept(*final(ctx), *old(ctx)),
            params.len() == bindings.len() && all_vals(bindings@) && scope == 0 && old(ctx).depth < MAX_DEPTH
                && fuel > cost(*self, *body, old(ctx).module as int, (old(ctx).depth + 1) as nat) + 1
                ==> agrees(r, meaning(*self, *body, old(ctx).module as int, old(ctx).state@, opt_view(old(ctx).next),
                    old(ctx).primed, params_env(params@, vals_of(bindings@)), view_list(old(ctx).at@), (old(ctx).depth + 1) as nat)),
        decreases fuel,
    {
        if ctx.depth >= MAX_DEPTH {
            let mut m = text("`");
            append(&mut m, name);
            append(&mut m, "` recursed more than ");
            push_count(&mut m, MAX_DEPTH);
            append(&mut m, " deep");
            return Err(Error::Malformed(m));
        }
        if fuel == 0 {
            return Err(too_deep());
        }
        let depth = ctx.depth;
        let (at, hidden) = set_aside(ctx, scope);
        let ghost given = bindings@;
        let mut bindings = bindings;
        let mut values: Vec<Local<'m>> = Vec::new();
        while bindings.len() > 0
            invariant
                values.len() + bindings.len() == given.len(),
                bindings@ == given.take(bindings.len() as int),
                forall|k: int| 0 <= k < values.len() ==> #[trigger] values@[k] == given[given.len() - 1 - k],
            decreases bindings.len(),
        {
            let ghost before = bindings@;
            let b = bindings.pop().unwrap();
            proof { assert(bindings@ =~= given.take(bindings.len() as int)); }
            values.push(b);
        }
        let mut i: usize = 0;
        let ghost kept_part = ctx.locals@;
        proof { assert(ctx.locals@.subrange(0, at as int) =~= kept_part); }
        while i < params.len() && values.len() > 0
            invariant
                i <= params.len(),
                ctx.locals.len() == at + i,
                same_but_locals(*ctx, *old(ctx)),
                kept_part == old(ctx).locals@.subrange(0, at as int),
                ctx.locals.len() >= at,
                ctx.locals@.subrange(0, at as int) == kept_part,
                params.len() == given.len() ==> values.len() == given.len() - i,
                forall|k: int| 0 <= k < values.len() ==> #[trigger] values@[k] == given[given.len() - 1 - k],
                params.len() == given.len() ==> forall|j: int| 0 <= j < i
                    ==> #[trigger] ctx.locals@[at + j] == (params@[j].name, given[j]),
            decreases params.len() - i,
        {
            proof {
                if params.len() == given.len() {
                    assert(values@[values.len() - 1] == given[i as int]);
                }
            }
            let binding = values.pop().unwrap();
            let ghost before = ctx.locals@;
            ctx.locals.push((params[i].name.clone(), binding));
            proof { assert(ctx.locals@.subrange(0, at as int) =~= before.subrange(0, at as int)); }
            i = i + 1;
        }
        proof {
            if params.len() == given.len() && all_vals(given) && scope == 0 {
                assert(ctx.locals@ =~= ctx.locals@.subrange(at as int, ctx.locals.len() as int));
                let own = ctx.locals@;
                assert forall|j: int| 0 <= j < own.len() implies #[trigger] own[j] == (params@[j].name, given[j]) by {
                    assert(ctx.locals@[at + j] == (params@[j].name, given[j]));
                }
                lemma_env_of_params(own, params@, given);
            }
        }
        ctx.depth = depth + 1;
        let out = self.eval(body, ctx, fuel - 1);
        ctx.depth = depth;
        restore(ctx, at, hidden);
        proof { assert(ctx.locals@ =~= old(ctx).locals@); }
        out
    }

    #[verifier::loop_isolation(false)]
    fn call(&self, def: &'m Def, scope: usize, args: Vec<Value>, ctx: &mut Ctx<'m, '_>, fuel: u64) -> (r: Result<Value, Error>)
        ensures
            def.params.len() != args.len() ==> (r matches Err(e) && e is Malformed),
            kept(*final(ctx), *old(ctx)),
            old(ctx).depth >= MAX_DEPTH ==> r is Err,
            args.len() == def.params.len() && scope == 0 && old(ctx).depth < MAX_DEPTH
                && fuel > cost(*self, def.body, old(ctx).module as int, (old(ctx).depth + 1) as nat) + 2
                ==> agrees(r, meaning(*self, def.body, old(ctx).module as int, old(ctx).state@, opt_view(old(ctx).next),
                    old(ctx).primed, params_env(def.params@, view_list(args@)), view_list(old(ctx).at@), (old(ctx).depth + 1) as nat)),
        decreases fuel,
    {
        if def.params.len() != args.len() {
            return Err(arity_error(def.name.as_str(), def.params.len(), args.len()));
        }
        if fuel == 0 {
            return Err(too_deep());
        }
        let total = args.len();
        let ghost given = args@;
        let mut args = args;
        let mut reversed: Vec<Local<'m>> = Vec::new();
        while args.len() > 0
            invariant
                reversed.len() + args.len() == total,
                total == given.len(),
                args@ == given.take(args.len() as int),
                forall|k: int| 0 <= k < reversed.len() ==> ((#[trigger] reversed@[k]) matches Local::Val(v)
                    && v@ == given[total - 1 - k]@),
            decreases args.len(),
        {
            let a = args.pop().unwrap();
            proof { assert(args@ =~= given.take(args.len() as int)); }
            reversed.push(Local::Val(a));
        }
        let mut bindings: Vec<Local<'m>> = Vec::new();
        while reversed.len() > 0
            invariant
                bindings.len() + reversed.len() == total,
                total == given.len(),
                forall|k: int| 0 <= k < reversed.len() ==> ((#[trigger] reversed@[k]) matches Local::Val(v)
                    && v@ == given[total - 1 - k]@),
                forall|k: int| 0 <= k < bindings.len() ==> ((#[trigger] bindings@[k]) matches Local::Val(v)
                    && v@ == given[k]@),
            decreases reversed.len(),
        {
            proof { assert(reversed@[reversed.len() - 1] == reversed@.last()); }
            bindings.push(reversed.pop().unwrap());
        }
        proof {
            crate::eval::value::lemma_view_list_len(given);
            assert(all_vals(bindings@));
            assert(vals_of(bindings@) =~= view_list(given));
        }
        self.run(def.name.as_str(), &def.body, scope, &def.params, bindings, ctx, fuel - 1)
    }

    // -------------------------------------------------------------- operators

    #[verifier::loop_isolation(false)]
    fn unary(&self, op: Op, inner: &'m Expr, ctx: &mut Ctx<'m, '_>, fuel: u64) -> (r: Result<Value, Error>)
        ensures
            op == Op::Enabled ==> (r matches Err(e) && e is NotGround),
            (op == Op::Always || op == Op::Eventually) ==> (r matches Err(e) && e is NotGround),
            kept(*final(ctx), *old(ctx)),
            env_of(old(ctx).locals@) is Some && fuel + 1 > cost(*self, Expr::Unary(op, Box::new(*inner)), old(ctx).module as int, old(ctx).depth as nat)
                ==> agrees(r, meaning(*self, Expr::Unary(op, Box::new(*inner)), old(ctx).module as int, old(ctx).state@,
                    opt_view(old(ctx).next), old(ctx).primed, env_of(old(ctx).locals@)->Some_0, view_list(old(ctx).at@), old(ctx).depth as nat)),
        decreases fuel,
    {
        match op {
            Op::Enabled => return Err(Error::NotGround(text(
                "ENABLED asks whether some successor state exists, which needs a search"))),
            Op::Always | Op::Eventually => return Err(Error::NotGround(text(
                "a temporal formula is about behaviours, not about one state"))),
            _ => {},
        }
        if fuel == 0 {
            return Err(too_deep());
        }
        let fuel = fuel - 1;
        if let Some((module, def)) = self.spec.definition(ctx.module, op.symbol()) {
            if def.params.len() == 1 {
                let mut values: Vec<Value> = Vec::new();
                let a = self.eval(inner, ctx, fuel)?;
                let ghost av = a@;
                values.push(a);
                proof {
                    crate::eval::value::lemma_view_list_push(Seq::<Value>::empty(), values@[0]);
                    assert(values@ == Seq::<Value>::empty().push(values@[0]));
                    assert(view_list(Seq::<Value>::empty()) =~= Seq::<VV>::empty());
                    assert(view_list(values@) =~= seq![av]);
                }
                let previous = ctx.module;
                ctx.module = module;
                let out = self.call(def, 0, values, ctx, fuel);
                ctx.module = previous;
                return out;
            }
        }
        match op {
            Op::Not => Ok(Value::Bool(!self.eval_bool(inner, ctx, fuel)?)),
            Op::Minus => match self.eval(inner, ctx, fuel)? {
                Value::Int(n) => {
                    if n == i64::MIN {
                        Err(Error::Type(text("-(-9223372036854775808) overflows")))
                    } else {
                        Ok(Value::Int(-n))
                    }
                },
                other => Err(Error::Type(about("cannot negate ", &other, ""))),
            },
            Op::Domain => {
                let v = self.eval(inner, ctx, fuel)?;
                match v.domain() {
                    Some(d) => Ok(Value::FiniteSet(d)),
                    None => Err(Error::Type(about("DOMAIN of ", &v, ", which is not a function"))),
                }
            },
            Op::Subset => {
                let v = self.eval(inner, ctx, fuel)?;
                let items = elements(&v)?;
                proof { crate::eval::value::lemma_view_list_len(items@); }
                powerset(&items)
            },
            Op::BigUnion => {
                let v = self.eval(inner, ctx, fuel)?;
                let members = elements(&v)?;
                let ghost ms = view_list(members@);
                let mut out: Vec<Value> = Vec::new();
                let mut i: usize = 0;
                proof {
                    crate::eval::value::lemma_view_list_len(members@);
                    assert(ms.take(0) =~= Seq::<VV>::empty());
                    assert forall|y: VV| #[trigger] crate::eval::value::holds(out@, y) <==> flatten(ms.take(0)).contains(y) by {}
                }
                while i < members.len()
                    invariant
                        i <= members.len(),
                        ms == view_list(members@),
                        ms.len() == members.len(),
                        forall|k: int| 0 <= k < members.len() ==> #[trigger] ms[k] == members@[k]@,
                        sorted(out@),
                        forall|y: VV| #[trigger] crate::eval::value::holds(out@, y) <==> flatten(ms.take(i as int)).contains(y),
                        forall|k: int| 0 <= k < i ==> #[trigger] ms[k] is FiniteSet,
                    decreases members.len() - i,
                {
                    let inner_items = match elements(&members[i]) {
                        Ok(items) => items,
                        Err(err) => {
                            proof { assert(!(ms[i as int] is FiniteSet)); }
                            return Err(err);
                        },
                    };
                    let ghost before = out@;
                    out = crate::eval::ops::union(&out, &inner_items);
                    proof {
                        assert(ms.take(i + 1).drop_last() =~= ms.take(i as int));
                        assert(ms.take(i + 1).last() == ms[i as int]);
                        assert forall|y: VV| #[trigger] crate::eval::value::holds(out@, y) <==> flatten(ms.take(i + 1)).contains(y) by {
                            lemma_holds_view(inner_items@, y);
                            let whole = flatten(ms.take(i + 1));
                            let head = flatten(ms.take(i as int));
                            let tail = view_list(inner_items@);
                            assert(whole =~= head + tail);
                            if whole.contains(y) {
                                let k = choose|k: int| 0 <= k < whole.len() && whole[k] == y;
                                if k < head.len() {
                                    assert(head[k] == y);
                                } else {
                                    assert(tail[k - head.len()] == y);
                                }
                            }
                            if head.contains(y) {
                                let k = choose|k: int| 0 <= k < head.len() && head[k] == y;
                                assert(whole[k] == y);
                            }
                            if tail.contains(y) {
                                let k = choose|k: int| 0 <= k < tail.len() && tail[k] == y;
                                assert(whole[k + head.len()] == y);
                            }
                        }
                    }
                    i = i + 1;
                }
                proof {
                    assert(ms.take(i as int) =~= ms);
                    lemma_set_from(out@, flatten(ms));
                }
                Ok(Value::FiniteSet(out))
            },
            Op::Unchanged => self.unchanged(inner, ctx, fuel),
            other => {
                let mut m = text("`");
                append(&mut m, other.symbol());
                append(&mut m, "` is not a prefix operator");
                Err(Error::Malformed(m))
            },
        }
    }

    fn unchanged(&self, e: &'m Expr, ctx: &mut Ctx<'m, '_>, fuel: u64) -> (r: Result<Value, Error>)
        ensures
            r matches Ok(v) ==> v is Bool,
            kept(*final(ctx), *old(ctx)),
            env_of(old(ctx).locals@) is Some && fuel > cost(*self, *e, old(ctx).module as int, old(ctx).depth as nat) + 2
                ==> agrees(r, unchanged_meaning(meaning(*self, *e, old(ctx).module as int, old(ctx).state@, opt_view(old(ctx).next), old(ctx).primed, env_of(old(ctx).locals@)->Some_0, view_list(old(ctx).at@), old(ctx).depth as nat),
                    meaning(*self, *e, old(ctx).module as int, old(ctx).state@, opt_view(old(ctx).next), true, env_of(old(ctx).locals@)->Some_0, view_list(old(ctx).at@), old(ctx).depth as nat))),
        decreases fuel,
    {
        if fuel == 0 {
            return Err(too_deep());
        }
        let before = self.eval(e, ctx, fuel - 1)?;
        let after = self.primed(e, ctx, fuel - 1)?;
        Ok(Value::Bool(equal(&before, &after)))
    }

    fn binary(&self, op: Op, lhs: &'m Expr, rhs: &'m Expr, ctx: &mut Ctx<'m, '_>, fuel: u64) -> (r: Result<Value, Error>)
        ensures
            op == Op::LeadsTo ==> (r matches Err(e) && e is NotGround),
            kept(*final(ctx), *old(ctx)),
            env_of(old(ctx).locals@) is Some
                && fuel + 1 > cost(*self, Expr::Binary(op, Box::new(*lhs), Box::new(*rhs)), old(ctx).module as int, old(ctx).depth as nat)
                ==> agrees(r, meaning(*self, Expr::Binary(op, Box::new(*lhs), Box::new(*rhs)), old(ctx).module as int,
                    old(ctx).state@, opt_view(old(ctx).next), old(ctx).primed, env_of(old(ctx).locals@)->Some_0, view_list(old(ctx).at@), old(ctx).depth as nat)),
        decreases fuel,
    {
        if op == Op::LeadsTo {
            return Err(Error::NotGround(text("a temporal formula is about behaviours, not about one state")));
        }
        if fuel == 0 {
            return Err(too_deep());
        }
        let fuel = fuel - 1;
        // The propositional connectives must not evaluate their right operand
        // when the left already decides the answer: a guard like
        // `Len(buf) > 0 /\ Head(buf) = x` relies on it.
        match op {
            Op::And => {
                if !self.eval_bool(lhs, ctx, fuel)? {
                    return Ok(Value::Bool(false));
                }
                return Ok(Value::Bool(self.eval_bool(rhs, ctx, fuel)?));
            },
            Op::Or => {
                if self.eval_bool(lhs, ctx, fuel)? {
                    return Ok(Value::Bool(true));
                }
                return Ok(Value::Bool(self.eval_bool(rhs, ctx, fuel)?));
            },
            Op::Implies => {
                if !self.eval_bool(lhs, ctx, fuel)? {
                    return Ok(Value::Bool(true));
                }
                return Ok(Value::Bool(self.eval_bool(rhs, ctx, fuel)?));
            },
            _ => {},
        }
        // `\prec`, `\oplus`, `&` and the rest have a symbol and a precedence
        // but no meaning until a specification gives them one.
        if let Op::User(symbol) = op {
            if let Some((module, def)) = self.spec.definition(ctx.module, symbol.symbol()) {
                let mut values: Vec<Value> = Vec::new();
                let a = self.eval(lhs, ctx, fuel)?;
                let b = self.eval(rhs, ctx, fuel)?;
                let ghost av = a@;
                let ghost bv = b@;
                values.push(a);
                values.push(b);
                proof {
                    crate::eval::value::lemma_view_list_len(values@);
                    assert(view_list(values@) =~= seq![av, bv]);
                }
                let previous = ctx.module;
                ctx.module = module;
                let out = self.call(def, 0, values, ctx, fuel);
                ctx.module = previous;
                return out;
            }
        }
        let left = self.eval(lhs, ctx, fuel)?;
        let right = self.eval(rhs, ctx, fuel)?;
        combine(op, &left, &right)
    }

    // ----------------------------------------------------------------- sets

    #[verifier::loop_isolation(false)]
    fn set_filter(&self, bound: &'m Bound, pred: &'m Expr, ctx: &mut Ctx<'m, '_>, fuel: u64) -> (r: Result<Value, Error>)
        ensures
            r matches Ok(v) ==> v is FiniteSet && sorted(v->FiniteSet_0@),
            kept(*final(ctx), *old(ctx)),
            env_of(old(ctx).locals@) is Some
                && fuel + 1 > cost(*self, Expr::SetFilter { bound: Box::new(*bound), pred: Box::new(*pred) }, old(ctx).module as int, old(ctx).depth as nat)
                ==> agrees(r, meaning(*self, Expr::SetFilter { bound: Box::new(*bound), pred: Box::new(*pred) }, old(ctx).module as int,
                    old(ctx).state@, opt_view(old(ctx).next), old(ctx).primed, env_of(old(ctx).locals@)->Some_0, view_list(old(ctx).at@), old(ctx).depth as nat)),
        decreases fuel,
    {
        if fuel == 0 {
            return Err(too_deep());
        }
        let fuel = fuel - 1;
        let mut bounds: Vec<&'m Bound> = Vec::new();
        bounds.push(bound);
        let ghost module = ctx.module as int;
        let ghost state = ctx.state@;
        let ghost nxt = opt_view(ctx.next);
        let ghost primed = ctx.primed;
        let ghost depth = ctx.depth as nat;
        let ghost env = env_of(ctx.locals@)->Some_0;
        let ghost at = view_list(ctx.at@);
        let ghost claim = env_of(old(ctx).locals@) is Some
            && fuel + 2 > cost(*self, Expr::SetFilter { bound: Box::new(*bound), pred: Box::new(*pred) }, module, depth);
        proof {
            assert(bounds_of(bounds@) =~= seq![*bound]);
            lemma_one_bound(*self, *bound, module, state, nxt, primed, env, at, depth);
        }
        let bindings = self.expand(&bounds, ctx, fuel)?;
        let ghost bs = bindings_view(bindings@);
        let ghost whole = filter_fold(*self, *pred, bs, module, state, nxt, primed, env, at, depth);
        let ghost mut found: Seq<VV> = Seq::empty();
        proof { assert(bs.skip(0) =~= bs); assert(found + Seq::<VV>::empty() =~= found); }
        let mut out: Vec<Value> = Vec::new();
        let mut i: usize = 0;
        while i < bindings.len()
            invariant
                i <= bindings.len(),
                kept(*ctx, *old(ctx)),
                sorted(out@),
                module == ctx.module as int,
                state == ctx.state@,
                nxt == opt_view(ctx.next),
                primed == ctx.primed,
                depth == ctx.depth as nat,
                env == env_of(ctx.locals@)->Some_0,
                at == view_list(ctx.at@),
                bs == bindings_view(bindings@),
                forall|y: VV| #[trigger] crate::eval::value::holds(out@, y) <==> found.contains(y),
                claim ==> whole is None || whole == after_found(found,
                    filter_fold(*self, *pred, bs.skip(i as int), module, state, nxt, primed, env, at, depth)),
            decreases bindings.len() - i,
        {
            let ghost later = filter_fold(*self, *pred, bs.skip(i + 1), module, state, nxt, primed, env, at, depth);
            proof {
                let here = bs.skip(i as int);
                assert(here[0] == bs[i as int]);
                assert(here.drop_first() =~= bs.skip(i + 1));
                assert(filter_fold(*self, *pred, here, module, state, nxt, primed, env, at, depth)
                    == match meaning(*self, *pred, module, state, nxt, primed, env + bs[i as int], at, depth) {
                        None => None,
                        Some(Ok(VV::Bool(true))) => after_found(seq![element_v(bs[i as int])], later),
                        Some(Ok(VV::Bool(false))) => later,
                        _ => Some(Err(())),
                    });
            }
            let restore = push_binding(ctx, &bindings[i]);
            proof { assert(bs[i as int] == view_fields(bindings@[i as int]@)); }
            let keep = self.eval_bool(pred, ctx, fuel);
            ctx.locals.truncate(restore);
            proof { assert(ctx.locals@ =~= old(ctx).locals@); }
            if keep? {
                let x = element_of(&bindings[i]);
                let ghost xv = x@;
                crate::eval::value::insert_sorted(&mut out, x);
                proof {
                    if let Some(Ok(more)) = later {
                        assert(found + (seq![xv] + more) =~= (found + seq![xv]) + more);
                    }
                    assert forall|y: VV| #[trigger] (found + seq![xv]).contains(y) <==> (found.contains(y) || y == xv) by {
                        if y == xv {
                            assert((found + seq![xv])[found.len() as int] == xv);
                        }
                        if (found + seq![xv]).contains(y) {
                            let k = choose|k: int| 0 <= k < (found + seq![xv]).len() && (found + seq![xv])[k] == y;
                            if k < found.len() {
                                assert(found[k] == y);
                            }
                        }
                        if found.contains(y) {
                            let k = choose|k: int| 0 <= k < found.len() && found[k] == y;
                            assert((found + seq![xv])[k] == y);
                        }
                    }
                    found = found + seq![xv];
                }
            }
            i = i + 1;
        }
        proof {
            assert(bs.skip(i as int) =~= Seq::<Seq<(Seq<char>, VV)>>::empty());
            assert(found + Seq::<VV>::empty() =~= found);
            crate::eval::graph::lemma_set_from(out@, found);
        }
        Ok(Value::FiniteSet(out))
    }

    #[verifier::loop_isolation(false)]
    fn set_map(&self, expr: &'m Expr, bounds: &'m Vec<Bound>, ctx: &mut Ctx<'m, '_>, fuel: u64) -> (r: Result<Value, Error>)
        ensures
            r matches Ok(v) ==> v is FiniteSet && sorted(v->FiniteSet_0@),
            kept(*final(ctx), *old(ctx)),
            env_of(old(ctx).locals@) is Some
                && fuel + 1 > cost(*self, Expr::SetMap { expr: Box::new(*expr), bounds: *bounds }, old(ctx).module as int, old(ctx).depth as nat)
                ==> agrees(r, meaning(*self, Expr::SetMap { expr: Box::new(*expr), bounds: *bounds }, old(ctx).module as int,
                    old(ctx).state@, opt_view(old(ctx).next), old(ctx).primed, env_of(old(ctx).locals@)->Some_0, view_list(old(ctx).at@), old(ctx).depth as nat)),
        decreases fuel,
    {
        if fuel == 0 {
            return Err(too_deep());
        }
        let fuel = fuel - 1;
        let refs = bound_refs(bounds);
        let ghost module = ctx.module as int;
        let ghost state = ctx.state@;
        let ghost nxt = opt_view(ctx.next);
        let ghost primed = ctx.primed;
        let ghost depth = ctx.depth as nat;
        let ghost env = env_of(ctx.locals@)->Some_0;
        let ghost at = view_list(ctx.at@);
        let ghost claim = env_of(old(ctx).locals@) is Some
            && fuel + 2 > cost(*self, Expr::SetMap { expr: Box::new(*expr), bounds: *bounds }, module, depth);
        proof { assert(bounds_of(refs@) =~= bounds@); }
        let bindings = self.expand(&refs, ctx, fuel)?;
        let ghost bs = bindings_view(bindings@);
        let ghost whole = map_fold(*self, *expr, bs, module, state, nxt, primed, env, at, depth);
        let ghost mut found: Seq<VV> = Seq::empty();
        proof { assert(bs.skip(0) =~= bs); }
        let mut out: Vec<Value> = Vec::new();
        let mut i: usize = 0;
        while i < bindings.len()
            invariant
                i <= bindings.len(),
                kept(*ctx, *old(ctx)),
                sorted(out@),
                module == ctx.module as int,
                state == ctx.state@,
                nxt == opt_view(ctx.next),
                primed == ctx.primed,
                depth == ctx.depth as nat,
                env == env_of(ctx.locals@)->Some_0,
                at == view_list(ctx.at@),
                bs == bindings_view(bindings@),
                forall|y: VV| #[trigger] crate::eval::value::holds(out@, y) <==> found.contains(y),
                claim ==> whole is None || whole == after_found(found,
                    map_fold(*self, *expr, bs.skip(i as int), module, state, nxt, primed, env, at, depth)),
            decreases bindings.len() - i,
        {
            let ghost later = map_fold(*self, *expr, bs.skip(i + 1), module, state, nxt, primed, env, at, depth);
            proof {
                let here = bs.skip(i as int);
                assert(here[0] == bs[i as int]);
                assert(here.drop_first() =~= bs.skip(i + 1));
                assert(map_fold(*self, *expr, here, module, state, nxt, primed, env, at, depth)
                    == match meaning(*self, *expr, module, state, nxt, primed, env + bs[i as int], at, depth) {
                        None => None,
                        Some(Ok(v)) => after_found(seq![v], later),
                        Some(Err(_)) => Some(Err(())),
                    });
            }
            let restore = push_binding(ctx, &bindings[i]);
            proof { assert(bs[i as int] == view_fields(bindings@[i as int]@)); }
            let v = self.eval(expr, ctx, fuel);
            ctx.locals.truncate(restore);
            proof { assert(ctx.locals@ =~= old(ctx).locals@); }
            let x = v?;
            let ghost xv = x@;
            crate::eval::value::insert_sorted(&mut out, x);
            proof {
                if let Some(Ok(more)) = later {
                    assert(found + (seq![xv] + more) =~= (found + seq![xv]) + more);
                }
                assert forall|y: VV| #[trigger] (found + seq![xv]).contains(y) <==> (found.contains(y) || y == xv) by {
                    if y == xv {
                        assert((found + seq![xv])[found.len() as int] == xv);
                    }
                    if (found + seq![xv]).contains(y) {
                        let k = choose|k: int| 0 <= k < (found + seq![xv]).len() && (found + seq![xv])[k] == y;
                        if k < found.len() {
                            assert(found[k] == y);
                        }
                    }
                    if found.contains(y) {
                        let k = choose|k: int| 0 <= k < found.len() && found[k] == y;
                        assert((found + seq![xv])[k] == y);
                    }
                }
                found = found + seq![xv];
            }
            i = i + 1;
        }
        proof {
            assert(bs.skip(i as int) =~= Seq::<Seq<(Seq<char>, VV)>>::empty());
            assert(found + Seq::<VV>::empty() =~= found);
            crate::eval::graph::lemma_set_from(out@, found);
        }
        Ok(Value::FiniteSet(out))
    }

    #[verifier::loop_isolation(false)]
    fn record_set(&self, fields: &'m Vec<(String, Expr)>, ctx: &mut Ctx<'m, '_>, fuel: u64) -> (r: Result<Value, Error>)
        ensures
            r matches Ok(v) ==> v is FiniteSet && sorted(v->FiniteSet_0@),
            kept(*final(ctx), *old(ctx)),
            env_of(old(ctx).locals@) is Some
                && fuel + 1 > cost(*self, Expr::RecordSet(*fields), old(ctx).module as int, old(ctx).depth as nat)
                ==> agrees(r, meaning(*self, Expr::RecordSet(*fields), old(ctx).module as int, old(ctx).state@,
                    opt_view(old(ctx).next), old(ctx).primed, env_of(old(ctx).locals@)->Some_0, view_list(old(ctx).at@),
                    old(ctx).depth as nat)),
        decreases fuel,
    {
        if fuel == 0 {
            return Err(too_deep());
        }
        let fuel = fuel - 1;
        let ghost module = ctx.module as int;
        let ghost state = ctx.state@;
        let ghost nxt = opt_view(ctx.next);
        let ghost primed = ctx.primed;
        let ghost depth = ctx.depth as nat;
        let ghost env = env_of(ctx.locals@)->Some_0;
        let ghost at = view_list(ctx.at@);
        let ghost claim = env_of(old(ctx).locals@) is Some
            && fuel + 2 > cost(*self, Expr::RecordSet(*fields), module, depth);
        let mut out: Vec<Vec<(String, Value)>> = Vec::new();
        out.push(Vec::new());
        proof {
            assert(fields@.take(0) =~= Seq::<(String, Expr)>::empty());
            assert(combos_view(out@) =~= seq![Seq::<(Seq<char>, VV)>::empty()]);
        }
        let mut i: usize = 0;
        while i < fields.len()
            invariant
                i <= fields.len(),
                out.len() <= MAX_ELEMENTS,
                kept(*ctx, *old(ctx)),
                module == ctx.module as int,
                state == ctx.state@,
                nxt == opt_view(ctx.next),
                primed == ctx.primed,
                depth == ctx.depth as nat,
                env == env_of(ctx.locals@)->Some_0,
                at == view_list(ctx.at@),
                claim == (env_of(old(ctx).locals@) is Some && fuel + 2 > cost(*self, Expr::RecordSet(*fields), module, depth)),
                claim ==> (record_combos(*self, fields@.take(i as int), module, state, nxt, primed, env, at, depth) matches Some(Ok(cs))
                    ==> cs == combos_view(out@)),
                claim ==> !(record_combos(*self, fields@.take(i as int), module, state, nxt, primed, env, at, depth) matches Some(Err(_))),
            decreases fields.len() - i,
        {
            proof {
                assert(fields@.take(i + 1).drop_last() =~= fields@.take(i as int));
                assert(fields@.take(i + 1).last() == fields@[i as int]);
                if claim {
                    lemma_fields_cost(*self, fields@, i as int, module, depth);
                }
            }
            let value = self.eval(&fields[i].1, ctx, fuel);
            let v = match value {
                Ok(v) => v,
                Err(e) => {
                    proof {
                        if claim {
                            lemma_record_combos_prefix(*self, fields@, i + 1, module, state, nxt, primed, env, at, depth);
                        }
                    }
                    return Err(e);
                },
            };
            let choices = match elements(&v) {
                Ok(c) => c,
                Err(e) => {
                    proof {
                        if claim {
                            lemma_record_combos_prefix(*self, fields@, i + 1, module, state, nxt, primed, env, at, depth);
                        }
                    }
                    return Err(e);
                },
            };
            let ghost cs = combos_view(out@);
            let ghost name = fields@[i as int].0@;
            let ghost items = view_list(choices@);
            proof { crate::eval::value::lemma_view_list_len(choices@); }
            let size: usize = match out.len().checked_mul(choices.len()) {
                Some(p) => p,
                None => usize::MAX,
            };
            match check_size(size, "a record set") {
                Ok(_) => {},
                Err(e) => {
                    proof {
                        if claim {
                            lemma_record_combos_prefix(*self, fields@, i + 1, module, state, nxt, primed, env, at, depth);
                        }
                    }
                    return Err(e);
                },
            }
            let mut next: Vec<Vec<(String, Value)>> = Vec::new();
            let mut j: usize = 0;
            proof { assert(combos_view(next@) =~= extend_combos(cs.take(0), name, items)); }
            while j < out.len()
                invariant
                    j <= out.len(),
                    next.len() <= j * choices.len(),
                    out.len() * choices.len() <= MAX_ELEMENTS,
                    cs == combos_view(out@),
                    items == view_list(choices@),
                    items.len() == choices.len(),
                    name == fields@[i as int].0@,
                    combos_view(next@) == extend_combos(cs.take(j as int), name, items),
                decreases out.len() - j,
            {
                let ghost start = combos_view(next@);
                let mut k: usize = 0;
                proof { assert(start + Seq::new(0, |kk: int| cs[j as int].push((name, items[kk]))) =~= start); }
                while k < choices.len()
                    invariant
                        k <= choices.len(),
                        j < out.len(),
                        next.len() <= j * choices.len() + k,
                        cs == combos_view(out@),
                        items == view_list(choices@),
                        items.len() == choices.len(),
                        name == fields@[i as int].0@,
                        combos_view(next@) == start + Seq::new(k as nat, |kk: int| cs[j as int].push((name, items[kk]))),
                    decreases choices.len() - k,
                {
                    let mut partial = copy_fields(&out[j]);
                    let ghost base = partial@;
                    partial.push((fields[i].0.clone(), copy(&choices[k])));
                    proof {
                        assert(partial@.drop_last() =~= base);
                        assert(view_fields(partial@) == view_fields(base).push((name, items[k as int])));
                        assert(view_fields(base) == cs[j as int]);
                    }
                    let ghost before = next@;
                    next.push(partial);
                    proof {
                        assert(combos_view(next@) =~= combos_view(before).push(view_fields(next@.last()@)));
                        assert(combos_view(next@) =~= start + Seq::new((k + 1) as nat, |kk: int| cs[j as int].push((name, items[kk]))));
                    }
                    k = k + 1;
                }
                proof {
                    assert((j + 1) * choices.len() == j * choices.len() + choices.len()) by (nonlinear_arith);
                    assert(cs.take(j + 1).drop_last() =~= cs.take(j as int));
                    assert(cs.take(j + 1).last() == cs[j as int]);
                    assert(combos_view(next@) =~= extend_combos(cs.take(j + 1), name, items));
                }
                j = j + 1;
            }
            proof {
                assert(next.len() <= out.len() * choices.len());
                assert(cs.take(out.len() as int) =~= cs);
                if claim {
                    assert(cs.len() == out.len());
                }
            }
            out = next;
            i = i + 1;
        }
        proof { assert(fields@.take(i as int) =~= fields@); }
        let ghost cs = combos_view(out@);
        let ghost vs = Seq::new(cs.len(), |j: int| VV::Record(record_from(cs[j])));
        let mut records: Vec<Value> = Vec::new();
        let mut j: usize = 0;
        while j < out.len()
            invariant
                j <= out.len(),
                cs == combos_view(out@),
                vs == Seq::new(cs.len(), |j: int| VV::Record(record_from(cs[j]))),
                view_list(records@) == vs.take(j as int),
            decreases out.len() - j,
        {
            let rec = Value::record(copy_fields(&out[j]));
            proof {
                lemma_record_from(view_fields(rec->Record_0@), cs[j as int]);
                assert(rec@ == vs[j as int]);
            }
            let ghost before = records@;
            records.push(rec);
            proof {
                assert(records@.drop_last() =~= before);
                assert(vs.take(j + 1) =~= vs.take(j as int).push(vs[j as int]));
            }
            j = j + 1;
        }
        proof { assert(vs.take(j as int) =~= vs); }
        let ghost given = records@;
        let r = Value::set(records);
        proof {
            assert forall|y: VV| #[trigger] crate::eval::value::holds(r->FiniteSet_0@, y) <==> vs.contains(y) by {
                lemma_holds_view(given, y);
            }
            lemma_set_from(r->FiniteSet_0@, vs);
        }
        Ok(r)
    }

    #[verifier::loop_isolation(false)]
    fn fn_def(&self, bounds: &'m Vec<Bound>, body: &'m Expr, ctx: &mut Ctx<'m, '_>, fuel: u64) -> (r: Result<Value, Error>)
        ensures
            r matches Ok(v) ==> (v is Sequence || v is Record || v is Func),
            kept(*final(ctx), *old(ctx)),
            env_of(old(ctx).locals@) is Some
                && fuel + 1 > cost(*self, Expr::FnDef { bounds: *bounds, body: Box::new(*body) }, old(ctx).module as int, old(ctx).depth as nat)
                ==> agrees(r, meaning(*self, Expr::FnDef { bounds: *bounds, body: Box::new(*body) }, old(ctx).module as int,
                    old(ctx).state@, opt_view(old(ctx).next), old(ctx).primed, env_of(old(ctx).locals@)->Some_0, view_list(old(ctx).at@), old(ctx).depth as nat)),
        decreases fuel,
    {
        if fuel == 0 {
            return Err(too_deep());
        }
        let fuel = fuel - 1;
        let refs = bound_refs(bounds);
        let ghost module = ctx.module as int;
        let ghost state = ctx.state@;
        let ghost nxt = opt_view(ctx.next);
        let ghost primed = ctx.primed;
        let ghost depth = ctx.depth as nat;
        let ghost env = env_of(ctx.locals@)->Some_0;
        let ghost at = view_list(ctx.at@);
        let ghost claim = env_of(old(ctx).locals@) is Some
            && fuel + 2 > cost(*self, Expr::FnDef { bounds: *bounds, body: Box::new(*body) }, module, depth);
        proof { assert(bounds_of(refs@) =~= bounds@); }
        let bindings = self.expand(&refs, ctx, fuel)?;
        let ghost bs = bindings_view(bindings@);
        let ghost whole = fn_fold(*self, *body, bs, module, state, nxt, primed, env, at, depth);
        proof { assert(bs.skip(0) =~= bs); }
        let mut entries: Vec<(Value, Value)> = Vec::new();
        let mut i: usize = 0;
        while i < bindings.len()
            invariant
                i <= bindings.len(),
                kept(*ctx, *old(ctx)),
                module == ctx.module as int,
                state == ctx.state@,
                nxt == opt_view(ctx.next),
                primed == ctx.primed,
                depth == ctx.depth as nat,
                env == env_of(ctx.locals@)->Some_0,
                at == view_list(ctx.at@),
                bs == bindings_view(bindings@),
                claim ==> whole is None || whole == match fn_fold(*self, *body, bs.skip(i as int), module, state, nxt, primed, env, at, depth) {
                    Some(Ok(more)) => Some(Ok(view_pairs(entries@) + more)),
                    other => other,
                },
            decreases bindings.len() - i,
        {
            let ghost later = fn_fold(*self, *body, bs.skip(i + 1), module, state, nxt, primed, env, at, depth);
            proof {
                let here = bs.skip(i as int);
                assert(here[0] == bs[i as int]);
                assert(here.drop_first() =~= bs.skip(i + 1));
                assert(fn_fold(*self, *body, here, module, state, nxt, primed, env, at, depth)
                    == match meaning(*self, *body, module, state, nxt, primed, env + bs[i as int], at, depth) {
                        None => None,
                        Some(Ok(v)) => match later {
                            Some(Ok(more)) => Some(Ok(seq![(element_v(bs[i as int]), v)] + more)),
                            other => other,
                        },
                        Some(Err(_)) => Some(Err(())),
                    });
            }
            let key = element_of(&bindings[i]);
            let restore = push_binding(ctx, &bindings[i]);
            proof { assert(bs[i as int] == view_fields(bindings@[i as int]@)); }
            let v = self.eval(body, ctx, fuel);
            ctx.locals.truncate(restore);
            proof { assert(ctx.locals@ =~= old(ctx).locals@); }
            let x = v?;
            let ghost before = entries@;
            entries.push((key, x));
            proof {
                assert(entries@.drop_last() =~= before);
                assert(view_pairs(entries@) == view_pairs(before).push((view_of(entries@.last().0), view_of(entries@.last().1))));
                if let Some(Ok(more)) = later {
                    assert(view_pairs(before) + (seq![(key@, x@)] + more) =~= view_pairs(entries@) + more);
                }
            }
            i = i + 1;
        }
        proof {
            assert(bs.skip(i as int) =~= Seq::<Seq<(Seq<char>, VV)>>::empty());
            assert(view_pairs(entries@) + Seq::<(VV, VV)>::empty() =~= view_pairs(entries@));
        }
        let r = Value::function(entries);
        proof {
            if claim && whole is Some {
                let pairs = whole->Some_0->Ok_0;
                assert(keys_sorted(graph(r@)) && r@ == canonical(graph(r@))
                    && forall|k: VV| #[trigger] crate::eval::graph::lookup(graph(r@), k) == crate::eval::graph::lookup(pairs, k));
                let f = function_from(pairs);
                crate::eval::graph::law_one_representation(f, r@);
            }
        }
        Ok(r)
    }

    #[verifier::loop_isolation(false)]
    fn fn_set(&self, domain: &'m Expr, range: &'m Expr, ctx: &mut Ctx<'m, '_>, fuel: u64) -> (r: Result<Value, Error>)
        ensures
            r matches Ok(v) ==> v is FiniteSet && sorted(v->FiniteSet_0@),
            kept(*final(ctx), *old(ctx)),
            env_of(old(ctx).locals@) is Some
                && fuel + 1 > cost(*self, Expr::FnSet { domain: Box::new(*domain), range: Box::new(*range) }, old(ctx).module as int, old(ctx).depth as nat)
                ==> agrees(r, meaning(*self, Expr::FnSet { domain: Box::new(*domain), range: Box::new(*range) }, old(ctx).module as int,
                    old(ctx).state@, opt_view(old(ctx).next), old(ctx).primed, env_of(old(ctx).locals@)->Some_0, view_list(old(ctx).at@),
                    old(ctx).depth as nat)),
        decreases fuel,
    {
        if fuel == 0 {
            return Err(too_deep());
        }
        let fuel = fuel - 1;
        let keys = elements(&self.eval(domain, ctx, fuel)?)?;
        let range_value = self.eval(range, ctx, fuel)?;
        let values = elements(&range_value)?;
        let ghost ks = view_list(keys@);
        let ghost vs = view_list(values@);
        proof {
            crate::eval::value::lemma_view_list_len(keys@);
            crate::eval::value::lemma_view_list_len(values@);
        }
        let mut out: Vec<Value> = Vec::new();
        if keys.len() == 0 {
            let none: Vec<Value> = Vec::new();
            proof { assert(view_list(none@) =~= Seq::<VV>::empty()); }
            out.push(Value::Sequence(none));
            proof {
                crate::eval::value::lemma_view_list_len(out@);
                assert(view_list(out@) =~= seq![VV::Sequence(Seq::empty())]);
            }
            return Ok(Value::FiniteSet(out));
        }
        if values.len() == 0 {
            proof { assert(view_list(out@) =~= Seq::<VV>::empty()); }
            return Ok(Value::FiniteSet(out));
        }
        // How many functions there are: values.len() ^ keys.len().
        let n = values.len();
        let mut count: usize = 1;
        let mut k: usize = 0;
        proof { vstd::arithmetic::power::lemma_pow0(n as int); }
        while k < keys.len()
            invariant
                k <= keys.len(),
                n == values.len(),
                n > 0,
                pow(n as int, k as nat) <= usize::MAX ==> count == pow(n as int, k as nat),
                pow(n as int, k as nat) > usize::MAX ==> count == usize::MAX,
            decreases keys.len() - k,
        {
            proof {
                lemma_pow_succ(n as int, k as nat);
                vstd::arithmetic::power::lemma_pow_positive(n as int, k as nat);
                assert(pow(n as int, k as nat) <= pow(n as int, (k + 1) as nat)) by (nonlinear_arith)
                    requires pow(n as int, (k + 1) as nat) == n * pow(n as int, k as nat), n >= 1, pow(n as int, k as nat) > 0;
            }
            let ghost before = count;
            let step = count.checked_mul(values.len());
            proof {
                assert(before * n >= before) by (nonlinear_arith) requires n >= 1, before >= 0;
                if pow(n as int, k as nat) <= usize::MAX {
                    assert(before * n == pow(n as int, (k + 1) as nat)) by (nonlinear_arith)
                        requires before == pow(n as int, k as nat), pow(n as int, (k + 1) as nat) == n * pow(n as int, k as nat);
                }
            }
            count = match step {
                Some(p) => p,
                None => usize::MAX,
            };
            k = k + 1;
        }
        let ghost total = pow(n as int, keys.len() as nat);
        match check_size(count, "a function set") {
            Ok(_) => {},
            Err(e) => return Err(e),
        }
        // Every assignment of a value to each key in turn.
        let mut combos: Vec<Vec<(Value, Value)>> = Vec::new();
        combos.push(Vec::new());
        proof {
            assert(pairs_view(combos@) =~= fn_combos(ks.take(0), vs));
            assert(ks.take(0) =~= Seq::<VV>::empty());
        }
        let mut j: usize = 0;
        while j < keys.len()
            invariant
                j <= keys.len(),
                n == values.len(),
                n > 0,
                ks == view_list(keys@),
                vs == view_list(values@),
                ks.len() == keys.len(),
                vs.len() == values.len(),
                total == pow(n as int, keys.len() as nat),
                total <= MAX_ELEMENTS,
                combos.len() == pow(n as int, j as nat),
                pairs_view(combos@) == fn_combos(ks.take(j as int), vs),
            decreases keys.len() - j,
        {
            let ghost cs = pairs_view(combos@);
            let ghost key = ks[j as int];
            proof {
                lemma_pow_succ(n as int, j as nat);
                lemma_pow_mono(n as int, (j + 1) as nat, keys.len() as nat);
                assert(combos.len() * n <= MAX_ELEMENTS);
            }
            let mut next: Vec<Vec<(Value, Value)>> = Vec::new();
            let mut c: usize = 0;
            proof { assert(pairs_view(next@) =~= extend_combos(cs.take(0), key, vs)); }
            while c < combos.len()
                invariant
                    c <= combos.len(),
                    j < keys.len(),
                    n == values.len(),
                    next.len() == c * n,
                    combos.len() * n <= MAX_ELEMENTS,
                    cs == pairs_view(combos@),
                    vs == view_list(values@),
                    vs.len() == values.len(),
                    key == ks[j as int],
                    ks == view_list(keys@),
                    ks.len() == keys.len(),
                    pairs_view(next@) == extend_combos(cs.take(c as int), key, vs),
                decreases combos.len() - c,
            {
                let ghost start = pairs_view(next@);
                let mut t: usize = 0;
                proof {
                    assert(start + Seq::new(0, |kk: int| cs[c as int].push((key, vs[kk]))) =~= start);
                    assert((c + 1) * n == c * n + n) by (nonlinear_arith);
                    assert(c * n + n <= combos.len() * n) by (nonlinear_arith) requires c + 1 <= combos.len();
                }
                while t < values.len()
                    invariant
                        t <= values.len(),
                        c < combos.len(),
                        n == values.len(),
                        next.len() == c * n + t,
                        c * n + n <= MAX_ELEMENTS,
                        cs == pairs_view(combos@),
                        vs == view_list(values@),
                        vs.len() == values.len(),
                        key == ks[j as int],
                        ks == view_list(keys@),
                        ks.len() == keys.len(),
                        j < keys.len(),
                        pairs_view(next@) == start + Seq::new(t as nat, |kk: int| cs[c as int].push((key, vs[kk]))),
                    decreases values.len() - t,
                {
                    let mut partial = crate::eval::value::copy_pairs(&combos[c]);
                    let ghost base = partial@;
                    partial.push((copy(&keys[j]), copy(&values[t])));
                    proof {
                        assert(partial@.drop_last() =~= base);
                        assert(view_pairs(partial@) == view_pairs(base).push((key, vs[t as int])));
                    }
                    let ghost before = next@;
                    next.push(partial);
                    proof {
                        assert(pairs_view(next@) =~= pairs_view(before).push(view_pairs(next@.last()@)));
                        assert(pairs_view(next@) =~= start + Seq::new((t + 1) as nat, |kk: int| cs[c as int].push((key, vs[kk]))));
                    }
                    t = t + 1;
                }
                proof {
                    assert(cs.take(c + 1).drop_last() =~= cs.take(c as int));
                    assert(cs.take(c + 1).last() == cs[c as int]);
                    assert(pairs_view(next@) =~= extend_combos(cs.take(c + 1), key, vs));
                }
                c = c + 1;
            }
            proof {
                assert(cs.take(combos.len() as int) =~= cs);
                assert(ks.take(j + 1).drop_last() =~= ks.take(j as int));
                assert(ks.take(j + 1).last() == key);
                assert(next.len() == pow(n as int, (j + 1) as nat)) by (nonlinear_arith)
                    requires next.len() == combos.len() * n, combos.len() == pow(n as int, j as nat),
                        pow(n as int, (j + 1) as nat) == n * pow(n as int, j as nat);
            }
            combos = next;
            j = j + 1;
        }
        proof { assert(ks.take(j as int) =~= ks); }
        let ghost cs = pairs_view(combos@);
        let ghost fs = Seq::new(cs.len(), |i: int| function_from(cs[i]));
        let mut i: usize = 0;
        while i < combos.len()
            invariant
                i <= combos.len(),
                cs == pairs_view(combos@),
                fs == Seq::new(cs.len(), |i: int| function_from(cs[i])),
                sorted(out@),
                forall|y: VV| #[trigger] crate::eval::value::holds(out@, y) <==> fs.take(i as int).contains(y),
            decreases combos.len() - i,
        {
            let f = Value::function(crate::eval::value::copy_pairs(&combos[i]));
            proof {
                let pairs = cs[i as int];
                assert(keys_sorted(graph(f@)) && f@ == canonical(graph(f@))
                    && forall|k: VV| #[trigger] crate::eval::graph::lookup(graph(f@), k) == crate::eval::graph::lookup(pairs, k));
                let g = function_from(pairs);
                crate::eval::graph::law_one_representation(g, f@);
                assert(f@ == fs[i as int]);
            }
            let ghost before = out@;
            crate::eval::value::insert_sorted(&mut out, f);
            proof {
                assert(fs.take(i + 1) =~= fs.take(i as int).push(fs[i as int]));
                assert forall|y: VV| #[trigger] crate::eval::value::holds(out@, y) <==> fs.take(i + 1).contains(y) by {
                    if fs.take(i + 1).contains(y) && y != fs[i as int] {
                        let q = choose|q: int| 0 <= q < fs.take(i + 1).len() && #[trigger] fs.take(i + 1)[q] == y;
                        assert(fs.take(i as int)[q] == y);
                        assert(fs.take(i as int).contains(y));
                    }
                    if fs.take(i as int).contains(y) {
                        let q = choose|q: int| 0 <= q < fs.take(i as int).len() && #[trigger] fs.take(i as int)[q] == y;
                        assert(fs.take(i + 1)[q] == y);
                    }
                    if y == fs[i as int] {
                        assert(fs.take(i + 1)[i as int] == y);
                    }
                }
            }
            i = i + 1;
        }
        proof {
            assert(fs.take(i as int) =~= fs);
            lemma_set_from(out@, fs);
        }
        Ok(Value::FiniteSet(out))
    }

    #[verifier::loop_isolation(false)]
    fn quantify(&self, kind: QuantKind, bounds: &'m Vec<Bound>, body: &'m Expr, ctx: &mut Ctx<'m, '_>, fuel: u64) -> (r: Result<Value, Error>)
        ensures
            r matches Ok(v) ==> v is Bool,
            kind.spec_is_temporal() ==> (r matches Err(e) && e is NotGround),
            kept(*final(ctx), *old(ctx)),
            env_of(old(ctx).locals@) is Some
                && fuel + 1 > cost(*self, Expr::Quant { kind, bounds: *bounds, body: Box::new(*body) }, old(ctx).module as int, old(ctx).depth as nat)
                ==> agrees(r, meaning(*self, Expr::Quant { kind, bounds: *bounds, body: Box::new(*body) }, old(ctx).module as int,
                    old(ctx).state@, opt_view(old(ctx).next), old(ctx).primed, env_of(old(ctx).locals@)->Some_0, view_list(old(ctx).at@), old(ctx).depth as nat)),
        decreases fuel,
    {
        if kind.is_temporal() {
            return Err(Error::NotGround(text("a quantifier over behaviours is not about one state")));
        }
        if fuel == 0 {
            return Err(too_deep());
        }
        let fuel = fuel - 1;
        let wanted = kind == QuantKind::Exists;
        let refs = bound_refs(bounds);
        let ghost module = ctx.module as int;
        let ghost state = ctx.state@;
        let ghost nxt = opt_view(ctx.next);
        let ghost primed = ctx.primed;
        let ghost depth = ctx.depth as nat;
        let ghost env = env_of(ctx.locals@)->Some_0;
        let ghost at = view_list(ctx.at@);
        let ghost claim = env_of(old(ctx).locals@) is Some
            && fuel + 2 > cost(*self, Expr::Quant { kind, bounds: *bounds, body: Box::new(*body) }, module, depth);
        proof { assert(bounds_of(refs@) =~= bounds@); }
        let bindings = self.expand(&refs, ctx, fuel)?;
        let ghost bs = bindings_view(bindings@);
        let ghost whole = quant_fold(*self, wanted, *body, bs, module, state, nxt, primed, env, at, depth);
        proof { assert(bs.skip(0) =~= bs); }
        let mut i: usize = 0;
        while i < bindings.len()
            invariant
                i <= bindings.len(),
                kept(*ctx, *old(ctx)),
                module == ctx.module as int,
                state == ctx.state@,
                nxt == opt_view(ctx.next),
                primed == ctx.primed,
                depth == ctx.depth as nat,
                env == env_of(ctx.locals@)->Some_0,
                at == view_list(ctx.at@),
                bs == bindings_view(bindings@),
                claim ==> whole is None || whole == quant_fold(*self, wanted, *body, bs.skip(i as int), module, state, nxt, primed, env, at, depth),
            decreases bindings.len() - i,
        {
            proof {
                let here = bs.skip(i as int);
                assert(here[0] == bs[i as int]);
                assert(here.drop_first() =~= bs.skip(i + 1));
                assert(quant_fold(*self, wanted, *body, here, module, state, nxt, primed, env, at, depth)
                    == match meaning(*self, *body, module, state, nxt, primed, env + bs[i as int], at, depth) {
                        None => None,
                        Some(Ok(VV::Bool(b))) => if b == wanted {
                            Some(Ok(VV::Bool(wanted)))
                        } else {
                            quant_fold(*self, wanted, *body, bs.skip(i + 1), module, state, nxt, primed, env, at, depth)
                        },
                        _ => Some(Err(())),
                    });
            }
            let restore = push_binding(ctx, &bindings[i]);
            proof {
                assert(bs[i as int] == view_fields(bindings@[i as int]@));
                if claim {
                    assert(env_of(ctx.locals@) == Some(env + bs[i as int]));
                }
            }
            let holds = self.eval_bool(body, ctx, fuel);
            proof {
                if claim {
                    assert(agrees_bool(holds, meaning(*self, *body, module, state, nxt, primed, env + bs[i as int], at, depth)));
                }
            }
            ctx.locals.truncate(restore);
            proof { assert(ctx.locals@ =~= old(ctx).locals@); }
            if holds? == wanted {
                return Ok(Value::Bool(wanted));
            }
            i = i + 1;
        }
        proof { assert(bs.skip(i as int) =~= Seq::<Seq<(Seq<char>, VV)>>::empty()); }
        Ok(Value::Bool(!wanted))
    }

    /// `CHOOSE` must be deterministic: the same set and predicate always give
    /// the same answer. Taking the least satisfying element in the value
    /// order is one such rule, and sets are already held in that order.
    #[verifier::loop_isolation(false)]
    fn choose_one(&self, bound: &'m Bound, body: &'m Expr, ctx: &mut Ctx<'m, '_>, fuel: u64) -> (r: Result<Value, Error>)
        ensures
            kept(*final(ctx), *old(ctx)),
            env_of(old(ctx).locals@) is Some
                && fuel + 1 > cost(*self, Expr::Choose { bound: Box::new(*bound), body: Box::new(*body) }, old(ctx).module as int, old(ctx).depth as nat)
                ==> agrees(r, meaning(*self, Expr::Choose { bound: Box::new(*bound), body: Box::new(*body) }, old(ctx).module as int,
                    old(ctx).state@, opt_view(old(ctx).next), old(ctx).primed, env_of(old(ctx).locals@)->Some_0, view_list(old(ctx).at@), old(ctx).depth as nat)),
        decreases fuel,
    {
        if fuel == 0 {
            return Err(too_deep());
        }
        let fuel = fuel - 1;
        let mut bounds: Vec<&'m Bound> = Vec::new();
        bounds.push(bound);
        let ghost module = ctx.module as int;
        let ghost state = ctx.state@;
        let ghost nxt = opt_view(ctx.next);
        let ghost primed = ctx.primed;
        let ghost depth = ctx.depth as nat;
        let ghost env = env_of(ctx.locals@)->Some_0;
        let ghost at = view_list(ctx.at@);
        let ghost claim = env_of(old(ctx).locals@) is Some
            && fuel + 2 > cost(*self, Expr::Choose { bound: Box::new(*bound), body: Box::new(*body) }, module, depth);
        proof {
            assert(bounds_of(bounds@) =~= seq![*bound]);
            lemma_one_bound(*self, *bound, module, state, nxt, primed, env, at, depth);
        }
        let bindings = self.expand(&bounds, ctx, fuel)?;
        let ghost bs = bindings_view(bindings@);
        let ghost whole = choose_fold(*self, *body, bs, module, state, nxt, primed, env, at, depth);
        proof { assert(bs.skip(0) =~= bs); }
        let mut i: usize = 0;
        while i < bindings.len()
            invariant
                i <= bindings.len(),
                kept(*ctx, *old(ctx)),
                module == ctx.module as int,
                state == ctx.state@,
                nxt == opt_view(ctx.next),
                primed == ctx.primed,
                depth == ctx.depth as nat,
                env == env_of(ctx.locals@)->Some_0,
                at == view_list(ctx.at@),
                bs == bindings_view(bindings@),
                claim ==> whole is None || whole == choose_fold(*self, *body, bs.skip(i as int), module, state, nxt, primed, env, at, depth),
            decreases bindings.len() - i,
        {
            proof {
                let here = bs.skip(i as int);
                assert(here[0] == bs[i as int]);
                assert(here.drop_first() =~= bs.skip(i + 1));
                assert(choose_fold(*self, *body, here, module, state, nxt, primed, env, at, depth)
                    == match meaning(*self, *body, module, state, nxt, primed, env + bs[i as int], at, depth) {
                        None => None,
                        Some(Ok(VV::Bool(true))) => Some(Ok(element_v(bs[i as int]))),
                        Some(Ok(VV::Bool(false))) => choose_fold(*self, *body, bs.skip(i + 1), module, state, nxt, primed, env, at, depth),
                        _ => Some(Err(())),
                    });
            }
            let restore = push_binding(ctx, &bindings[i]);
            proof { assert(bs[i as int] == view_fields(bindings@[i as int]@)); }
            let holds = self.eval_bool(body, ctx, fuel);
            ctx.locals.truncate(restore);
            proof { assert(ctx.locals@ =~= old(ctx).locals@); }
            if holds? {
                return Ok(element_of(&bindings[i]));
            }
            i = i + 1;
        }
        proof { assert(bs.skip(i as int) =~= Seq::<Seq<(Seq<char>, VV)>>::empty()); }
        Err(Error::Malformed(text("CHOOSE found no value satisfying its predicate")))
    }

    /// All the ways the bound variables can be assigned. A later bound's
    /// domain may mention an earlier bound's variable, so they are evaluated
    /// with the bindings so far in scope.
    pub(crate) fn expand(&self, bounds: &Vec<&'m Bound>, ctx: &mut Ctx<'m, '_>, fuel: u64) -> (r: Result<Vec<Vec<(String, Value)>>, Error>)
        ensures
            r matches Ok(out) ==> out.len() <= MAX_ELEMENTS,
            kept(*final(ctx), *old(ctx)),
            env_of(old(ctx).locals@) is Some
                && fuel > bounds_cost(*self, bounds_of(bounds@), old(ctx).module as int, old(ctx).depth as nat) + 1
                ==> match expansions(*self, bounds_of(bounds@), old(ctx).module as int, old(ctx).state@, opt_view(old(ctx).next),
                    old(ctx).primed, env_of(old(ctx).locals@)->Some_0, Seq::empty(), view_list(old(ctx).at@), old(ctx).depth as nat) {
                    None => true,
                    Some(Err(_)) => r is Err,
                    Some(Ok(l)) => if l.len() <= MAX_ELEMENTS { r is Ok && bindings_view(r->Ok_0@) == l } else { r is Err },
                },
        decreases fuel,
    {
        if fuel == 0 {
            return Err(too_deep());
        }
        let mut out: Vec<Vec<(String, Value)>> = Vec::new();
        let mut current: Vec<(String, Value)> = Vec::new();
        let restore = ctx.locals.len();
        proof {
            assert(bounds_of(bounds@).skip(0) =~= bounds_of(bounds@));
            assert(view_fields(current@) =~= Seq::<(Seq<char>, VV)>::empty());
            assert(bindings_view(out@) =~= Seq::<Seq<(Seq<char>, VV)>>::empty());
        }
        let done = self.expand_into(bounds, 0, ctx, &mut current, &mut out, fuel - 1);
        ctx.locals.truncate(restore);
        proof {
            assert(ctx.locals@ =~= old(ctx).locals@);
            assert(Seq::<Seq<(Seq<char>, VV)>>::empty() + bindings_view(out@) =~= bindings_view(out@));
        }
        done?;
        Ok(out)
    }

    #[verifier::loop_isolation(false)]
    fn expand_into(
        &self,
        bounds: &Vec<&'m Bound>,
        index: usize,
        ctx: &mut Ctx<'m, '_>,
        current: &mut Vec<(String, Value)>,
        out: &mut Vec<Vec<(String, Value)>>,
        fuel: u64,
    ) -> (r: Result<(), Error>)
        requires
            old(out).len() <= MAX_ELEMENTS,
        ensures
            final(out).len() <= MAX_ELEMENTS,
            kept(*final(ctx), *old(ctx)),
            final(current)@ == old(current)@,
            env_of(old(ctx).locals@) is Some && index <= bounds.len()
                && fuel > bounds_cost(*self, bounds_of(bounds@).skip(index as int), old(ctx).module as int, old(ctx).depth as nat)
                ==> walked(r, bindings_view(old(out)@), bindings_view(final(out)@),
                    expansions(*self, bounds_of(bounds@).skip(index as int), old(ctx).module as int, old(ctx).state@,
                        opt_view(old(ctx).next), old(ctx).primed, env_of(old(ctx).locals@)->Some_0, view_fields(old(current)@),
                        view_list(old(ctx).at@),
                        old(ctx).depth as nat)),
        decreases fuel,
    {
        if fuel == 0 {
            return Err(too_deep());
        }
        let fuel = fuel - 1;
        if index >= bounds.len() {
            check_size(out.len() + 1, "a quantifier")?;
            let ghost before = out@;
            out.push(copy_bindings(current));
            proof {
                assert(bindings_view(out@) =~= bindings_view(before) + seq![view_fields(current@)]);
            }
            return Ok(());
        }
        proof {
            let rest = bounds_of(bounds@).skip(index as int);
            assert(rest[0] == *bounds@[index as int]);
            assert(rest.drop_first() =~= bounds_of(bounds@).skip(index + 1));
        }
        let first = bounds[index];
        let domain = match &first.domain {
            Some(d) => d,
            None => {
                let mut m = text("`");
                append(&mut m, joined(&first.names).as_str());
                append(&mut m, "` is quantified over no set, so it cannot be enumerated");
                return Err(Error::Unbounded(m));
            },
        };
        let items = elements(&self.eval(domain, ctx, fuel)?)?;
        if first.destructure {
            let mut i: usize = 0;
            while i < items.len()
                invariant
                    i <= items.len(),
                    out.len() <= MAX_ELEMENTS,
                    kept(*ctx, *old(ctx)),
                    current@ == old(current)@,
                decreases items.len() - i,
            {
                let parts = match &items[i] {
                    Value::Sequence(parts) => parts,
                    other => return Err(Error::Type(about("cannot destructure ", other, ", which is not a tuple"))),
                };
                if parts.len() != first.names.len() {
                    let mut m = about("cannot destructure ", &items[i], " into ");
                    push_count(&mut m, first.names.len());
                    append(&mut m, " names");
                    return Err(Error::Type(m));
                }
                let restore = ctx.locals.len();
                let mark = current.len();
                let mut j: usize = 0;
                proof { assert(ctx.locals@.subrange(0, restore as int) =~= ctx.locals@); }
                while j < parts.len()
                    invariant
                        j <= parts.len(),
                        parts.len() == first.names.len(),
                        restore == old(ctx).locals.len(),
                        extended(*ctx, *old(ctx)),
                        mark == old(current).len(),
                        current.len() == mark + j,
                        current@.subrange(0, mark as int) == old(current)@,
                    decreases parts.len() - j,
                {
                    let ghost was = current@;
                    current.push((first.names[j].clone(), copy(&parts[j])));
                    proof { assert(current@.subrange(0, mark as int) =~= was.subrange(0, mark as int)); }
                    let ghost before = ctx.locals@;
                    ctx.locals.push((first.names[j].clone(), Local::Val(copy(&parts[j]))));
                    proof { assert(ctx.locals@.subrange(0, restore as int) =~= before.subrange(0, restore as int)); }
                    j = j + 1;
                }
                let done = self.expand_into(bounds, index + 1, ctx, current, out, fuel);
                current.truncate(mark);
                ctx.locals.truncate(restore);
                proof { assert(current@ =~= old(current)@); }
                done?;
                i = i + 1;
            }
            return Ok(());
        }
        proof {
            assert(names_of(first.names@).skip(0) =~= names_of(first.names@));
            crate::eval::value::lemma_view_list_len(items@);
        }
        self.product(&first.names, 0, &items, bounds, index + 1, ctx, current, out, fuel)
    }

    #[verifier::loop_isolation(false)]
    fn product(
        &self,
        names: &Vec<String>,
        at: usize,
        items: &Vec<Value>,
        bounds: &Vec<&'m Bound>,
        next: usize,
        ctx: &mut Ctx<'m, '_>,
        current: &mut Vec<(String, Value)>,
        out: &mut Vec<Vec<(String, Value)>>,
        fuel: u64,
    ) -> (r: Result<(), Error>)
        requires
            old(out).len() <= MAX_ELEMENTS,
        ensures
            final(out).len() <= MAX_ELEMENTS,
            kept(*final(ctx), *old(ctx)),
            final(current)@ == old(current)@,
            at <= names.len() && env_of(old(ctx).locals@) is Some && next <= bounds.len()
                && fuel > bounds_cost(*self, bounds_of(bounds@).skip(next as int), old(ctx).module as int, old(ctx).depth as nat)
                    + (names.len() - at) + 1
                ==> walked(r, bindings_view(old(out)@), bindings_view(final(out)@),
                    over_combos(*self, bounds_of(bounds@).skip(next as int), combos(names_of(names@).skip(at as int), view_list(items@)),
                        old(ctx).module as int, old(ctx).state@, opt_view(old(ctx).next), old(ctx).primed,
                        env_of(old(ctx).locals@)->Some_0, view_fields(old(current)@), view_list(old(ctx).at@), old(ctx).depth as nat)),
        decreases fuel,
    {
        if fuel == 0 {
            return Err(too_deep());
        }
        let fuel = fuel - 1;
        let ghost module = ctx.module as int;
        let ghost state = ctx.state@;
        let ghost nxt = opt_view(ctx.next);
        let ghost primed = ctx.primed;
        let ghost depth = ctx.depth as nat;
        let ghost env = env_of(ctx.locals@)->Some_0;
        let ghost ats = view_list(ctx.at@);
        let ghost cur = view_fields(current@);
        let ghost had = bindings_view(out@);
        let ghost rest = bounds_of(bounds@).skip(next as int);
        let ghost its = view_list(items@);
        if at >= names.len() {
            proof {
                if at == names.len() {
                assert(names_of(names@).skip(at as int) =~= Seq::<Seq<char>>::empty());
                let cs = combos(names_of(names@).skip(at as int), its);
                assert(cs == seq![Seq::<(Seq<char>, VV)>::empty()]);
                assert(env + cs[0] =~= env);
                assert(cur + cs[0] =~= cur);
                assert(cs.drop_first() =~= Seq::<Seq<(Seq<char>, VV)>>::empty());
                assert(over_combos(*self, rest, cs.drop_first(), module, state, nxt, primed, env, cur, ats, depth)
                    == Some(Ok::<Seq<Seq<(Seq<char>, VV)>>, ()>(Seq::empty())));
                if let Some(Ok(f)) = expansions(*self, rest, module, state, nxt, primed, env, cur, ats, depth) {
                    assert(f + Seq::<Seq<(Seq<char>, VV)>>::empty() =~= f);
                }
                let e0 = env + cs[0];
                let c0 = cur + cs[0];
                assert(e0 == env);
                assert(c0 == cur);
                assert(expansions(*self, rest, module, state, nxt, primed, e0, c0, ats, depth)
                    == expansions(*self, rest, module, state, nxt, primed, env, cur, ats, depth));
                match expansions(*self, rest, module, state, nxt, primed, env, cur, ats, depth) {
                    Some(Ok(f)) => {
                        assert(over_combos(*self, rest, cs, module, state, nxt, primed, env, cur, ats, depth)
                            == after_done(f, Some(Ok::<Seq<Seq<(Seq<char>, VV)>>, ()>(Seq::empty()))));
                    },
                    Some(Err(u)) => {
                        assert(over_combos(*self, rest, cs, module, state, nxt, primed, env, cur, ats, depth) == Some(Err::<Seq<Seq<(Seq<char>, VV)>>, ()>(())));
                        assert(u == ());
                    },
                    None => {
                        assert(over_combos(*self, rest, cs, module, state, nxt, primed, env, cur, ats, depth) is None);
                    },
                }
                assert(over_combos(*self, rest, cs, module, state, nxt, primed, env, cur, ats, depth)
                    == expansions(*self, rest, module, state, nxt, primed, env, cur, ats, depth));
                }
            }
            return self.expand_into(bounds, next, ctx, current, out, fuel);
        }
        let ghost name = names@[at as int]@;
        let ghost tails = combos(names_of(names@).skip(at + 1), its);
        let ghost claim = env_of(old(ctx).locals@) is Some && next <= bounds.len()
            && fuel + 1 > bounds_cost(*self, rest, module, depth) + (names.len() - at) + 1;
        let ghost whole = over_combos(*self, rest, combos_over(name, its, tails), module, state, nxt, primed, env, cur, ats, depth);
        let ghost mut found: Seq<Seq<(Seq<char>, VV)>> = Seq::empty();
        proof {
            let ns = names_of(names@).skip(at as int);
            assert(ns[0] == name);
            assert(ns.drop_first() =~= names_of(names@).skip(at + 1));
            assert(combos(ns, its) == combos_over(name, its, tails));
            crate::eval::value::lemma_view_list_len(items@);
            assert(its.skip(0) =~= its);
            assert(had + found =~= had);
        }
        let mut i: usize = 0;
        while i < items.len()
            invariant
                i <= items.len(),
                out.len() <= MAX_ELEMENTS,
                at < names.len(),
                kept(*ctx, *old(ctx)),
                current@ == old(current)@,
                module == ctx.module as int,
                state == ctx.state@,
                nxt == opt_view(ctx.next),
                primed == ctx.primed,
                depth == ctx.depth as nat,
                env == env_of(ctx.locals@)->Some_0,
                ats == view_list(ctx.at@),
                cur == view_fields(current@),
                its == view_list(items@),
                its.len() == items.len(),
                claim ==> whole is None || (whole == after_done(found,
                    over_combos(*self, rest, combos_over(name, its.skip(i as int), tails), module, state, nxt, primed, env, cur, ats, depth))
                    && bindings_view(out@) == had + found),
            decreases items.len() - i,
        {
            let restore = ctx.locals.len();
            let mark = current.len();
            let ghost out_before = bindings_view(out@);
            let ghost p = (name, its[i as int]);
            current.push((names[at].clone(), copy(&items[i])));
            let ghost before = ctx.locals@;
            ctx.locals.push((names[at].clone(), Local::Val(copy(&items[i]))));
            proof {
                assert(ctx.locals@.subrange(0, restore as int) =~= before);
                assert(ctx.locals@.drop_last() =~= before);
                assert(current@.drop_last() =~= old(current)@);
                assert(its[i as int] == view_of(items@[i as int]));
            }
            let done = self.product(names, at + 1, items, bounds, next, ctx, current, out, fuel);
            let ghost out_after = bindings_view(out@);
            let ghost step = over_combos(*self, rest, tails, module, state, nxt, primed, env.push(p), cur.push(p), ats, depth);
            let ghost later = over_combos(*self, rest, combos_over(name, its.skip(i + 1), tails), module, state, nxt, primed, env, cur, ats, depth);
            proof {
                let here = its.skip(i as int);
                assert(here[0] == its[i as int]);
                assert(here.drop_first() =~= its.skip(i + 1));
                let mapped = Seq::new(tails.len(), |j: int| seq![p] + tails[j]);
                assert(combos_over(name, here, tails) == mapped + combos_over(name, its.skip(i + 1), tails));
                lemma_over_combos_append(*self, rest, mapped, combos_over(name, its.skip(i + 1), tails), module, state, nxt,
                    primed, env, cur, ats, depth);
                lemma_over_combos_prefixed(*self, rest, p, tails, module, state, nxt, primed, env, cur, ats, depth);
                assert(over_combos(*self, rest, combos_over(name, here, tails), module, state, nxt, primed, env, cur, ats, depth)
                    == match step {
                        Some(Ok(f)) => after_done(f, later),
                        other => other,
                    });
            }
            current.truncate(mark);
            ctx.locals.truncate(restore);
            proof {
                assert(current@ =~= old(current)@);
            }
            if done.is_err() {
                proof {
                    if claim && whole is Some {
                        if let Some(Ok(all)) = whole {
                            let f = step->Some_0->Ok_0;
                            let m = later->Some_0->Ok_0;
                            assert(all == found + (f + m));
                            assert(out_before.len() + f.len() > MAX_ELEMENTS);
                        }
                    }
                }
                return done;
            }
            proof {
                if claim && whole is Some {
                    if let Some(Ok(f)) = step {
                        assert(out_after =~= had + (found + f));
                        if let Some(Ok(m)) = later {
                            assert(found + (f + m) =~= (found + f) + m);
                        }
                        found = found + f;
                    }
                }
            }
            i = i + 1;
        }
        proof {
            assert(its.skip(i as int) =~= Seq::<VV>::empty());
            assert(found + Seq::<Seq<(Seq<char>, VV)>>::empty() =~= found);
        }
        Ok(())
    }

    /// One `![a][b] = e` update. `@` inside `e` is the value being replaced.
    fn update(&self, base: Value, path: &'m Vec<ExceptPath>, index: usize, rhs: &'m Expr, ctx: &mut Ctx<'m, '_>, fuel: u64) -> (r: Result<Value, Error>)
        ensures
            kept(*final(ctx), *old(ctx)),
            env_of(old(ctx).locals@) is Some && index <= path.len()
                && fuel > (path.len() - index) + 1 + cost(*self, *rhs, old(ctx).module as int, old(ctx).depth as nat)
                && fuel > (path.len() - index) + 1 + path_cost(*self, path@, old(ctx).module as int, old(ctx).depth as nat)
                ==> agrees(r, update_meaning(*self, (*path, *rhs), index as int, base@, old(ctx).module as int, old(ctx).state@,
                    opt_view(old(ctx).next), old(ctx).primed, env_of(old(ctx).locals@)->Some_0, view_list(old(ctx).at@),
                    old(ctx).depth as nat)),
        decreases fuel,
    {
        if fuel == 0 {
            return Err(too_deep());
        }
        let fuel = fuel - 1;
        if index >= path.len() {
            let ghost before = ctx.at@;
            let ghost bv = base@;
            ctx.at.push(base);
            proof {
                crate::eval::value::lemma_view_list_push(before, ctx.at@.last());
                assert(ctx.at@ == before.push(ctx.at@.last()));
            }
            let out = self.eval(rhs, ctx, fuel);
            ctx.at.pop();
            proof { assert(ctx.at@ =~= old(ctx).at@); }
            return out;
        }
        proof { lemma_path_cost(*self, path@, index as int, ctx.module as int, ctx.depth as nat); }
        let key = match &path[index] {
            ExceptPath::Index(e) => self.eval(e, ctx, fuel)?,
            ExceptPath::Field(name) => Value::Str(name.clone()),
        };
        let old = match base.apply(&key) {
            Some(v) => v,
            None => {
                let mut m = about("EXCEPT: ", &base, " is not defined at ");
                append(&mut m, key.to_string().as_str());
                return Err(Error::Type(m));
            },
        };
        let replacement = self.update(old, path, index + 1, rhs, ctx, fuel)?;
        let mut entries = match base.entries() {
            Some(e) => e,
            None => return Err(Error::Type(about("EXCEPT: ", &base, " is not a function"))),
        };
        // `Value::function` keeps the last pair for a key: the replacement.
        let ghost before_entries = entries@;
        let ghost given = view_pairs(entries@);
        let ghost kv = key@;
        let ghost rv = replacement@;
        entries.push((key, replacement));
        proof {
            assert(entries@.drop_last() =~= before_entries);
            assert(view_pairs(entries@) == given.push((kv, rv)));
        }
        let r = Value::function(entries);
        proof {
            if graph(base@).len() <= i64::MAX {
                let pairs = graph(base@).push((kv, rv));
                assert(keys_sorted(graph(r@)) && r@ == canonical(graph(r@))
                    && forall|k: VV| #[trigger] crate::eval::graph::lookup(graph(r@), k) == crate::eval::graph::lookup(pairs, k));
                crate::eval::graph::law_one_representation(function_from(pairs), r@);
            }
        }
        Ok(r)
    }

    /// `[f EXCEPT ![a] = e, ...]`: the updates applied in turn to `f`'s value.
    #[verifier::loop_isolation(false)]
    fn except_value(&self, base: &'m Expr, updates: &'m Vec<(Vec<ExceptPath>, Expr)>, ctx: &mut Ctx<'m, '_>, fuel: u64)
        -> (r: Result<Value, Error>)
        ensures
            kept(*final(ctx), *old(ctx)),
            env_of(old(ctx).locals@) is Some
                && fuel + 1 > cost(*self, Expr::Except { base: Box::new(*base), updates: *updates }, old(ctx).module as int, old(ctx).depth as nat)
                ==> agrees(r, meaning(*self, Expr::Except { base: Box::new(*base), updates: *updates }, old(ctx).module as int,
                    old(ctx).state@, opt_view(old(ctx).next), old(ctx).primed, env_of(old(ctx).locals@)->Some_0,
                    view_list(old(ctx).at@), old(ctx).depth as nat)),
        decreases fuel,
    {
        if fuel == 0 {
            return Err(too_deep());
        }
        let fuel = fuel - 1;
        let ghost module = ctx.module as int;
        let ghost state = ctx.state@;
        let ghost nxt = opt_view(ctx.next);
        let ghost primed = ctx.primed;
        let ghost depth = ctx.depth as nat;
        let ghost env = env_of(ctx.locals@)->Some_0;
        let ghost at = view_list(ctx.at@);
        let ghost claim = env_of(old(ctx).locals@) is Some
            && fuel + 2 > cost(*self, Expr::Except { base: Box::new(*base), updates: *updates }, module, depth);
        let mut v = self.eval(base, ctx, fuel)?;
        let ghost whole = except_fold(*self, updates@, v@, module, state, nxt, primed, env, at, depth);
        proof { assert(updates@.skip(0) =~= updates@); }
        let mut i: usize = 0;
        while i < updates.len()
            invariant
                i <= updates.len(),
                kept(*ctx, *old(ctx)),
                module == ctx.module as int,
                state == ctx.state@,
                nxt == opt_view(ctx.next),
                primed == ctx.primed,
                depth == ctx.depth as nat,
                env == env_of(ctx.locals@)->Some_0,
                at == view_list(ctx.at@),
                claim ==> whole is None || whole == except_fold(*self, updates@.skip(i as int), v@, module, state, nxt, primed, env, at, depth),
            decreases updates.len() - i,
        {
            proof {
                let here = updates@.skip(i as int);
                assert(here[0] == updates@[i as int]);
                assert(here.drop_first() =~= updates@.skip(i + 1));
                if claim {
                    lemma_updates_cost(*self, updates@, i as int, module, depth);
                }
            }
            v = self.update(v, &updates[i].0, 0, &updates[i].1, ctx, fuel)?;
            i = i + 1;
        }
        proof { assert(updates@.skip(i as int) =~= Seq::<(Vec<ExceptPath>, Expr)>::empty()); }
        Ok(v)
    }
}

fn no_instance(name: &str) -> (e: Error)
    ensures
        e is Undefined,
{
    let mut m = text("no instance named `");
    append(&mut m, name);
    append(&mut m, "`");
    Error::Undefined(m)
}

/// A message made of a text, an expression as TLA+, and a second text.
fn about_expr(before: &str, e: &Expr, after: &str) -> (m: String)
    ensures
        m@ == before@ + crate::syntax::print::shown(*e, crate::syntax::print::TRAILING) + after@,
{
    let mut m = text(before);
    append(&mut m, e.to_string().as_str());
    append(&mut m, after);
    m
}

/// The parts of `A!B!C`.
/// A name with no `!` in it.
pub open spec fn no_bang(s: Seq<char>) -> bool {
    forall|k: int| 0 <= k < s.len() ==> #[trigger] s[k] != '!'
}

fn split_bang(s: &str) -> (r: Vec<String>)
    ensures
        r.len() >= 1,
        no_bang(s@) ==> r.len() == 1 && r@[0]@ == s@,
{
    let chars = crate::text::chars_of(s);
    let mut out: Vec<String> = Vec::new();
    let mut start: usize = 0;
    let mut i: usize = 0;
    while i < chars.len()
        invariant
            start <= i <= chars.len(),
            chars@ == s@,
            no_bang(s@) ==> start == 0 && out.len() == 0,
        decreases chars.len() - i,
    {
        if chars[i] == '!' {
            out.push(crate::text::string_between(&chars, start, i));
            start = i + 1;
        }
        i = i + 1;
    }
    out.push(crate::text::string_between(&chars, start, chars.len()));
    proof {
        if no_bang(s@) {
            assert(chars@.subrange(0, chars.len() as int) =~= s@);
        }
    }
    out
}

fn bound_refs<'m>(bounds: &'m Vec<Bound>) -> (r: Vec<&'m Bound>)
    ensures
        r.len() == bounds.len(),
        forall|i: int| 0 <= i < r.len() ==> *(#[trigger] r@[i]) == bounds@[i],
{
    let mut out: Vec<&'m Bound> = Vec::new();
    let mut i: usize = 0;
    while i < bounds.len()
        invariant
            i <= bounds.len(),
            out.len() == i,
            forall|k: int| 0 <= k < out.len() ==> *(#[trigger] out@[k]) == bounds@[k],
        decreases bounds.len() - i,
    {
        out.push(&bounds[i]);
        i = i + 1;
    }
    out
}

fn copy_bindings(b: &Vec<(String, Value)>) -> (r: Vec<(String, Value)>)
    ensures
        r.len() == b.len(),
        view_fields(r@) == view_fields(b@),
{
    let mut out: Vec<(String, Value)> = Vec::new();
    let mut i: usize = 0;
    proof { assert(b@.take(0) =~= Seq::<(String, Value)>::empty()); }
    while i < b.len()
        invariant
            i <= b.len(),
            out.len() == i,
            view_fields(out@) == view_fields(b@.take(i as int)),
        decreases b.len() - i,
    {
        let ghost before = out@;
        out.push((b[i].0.clone(), copy(&b[i].1)));
        proof {
            assert(out@.drop_last() =~= before);
            assert(b@.take(i + 1).drop_last() =~= b@.take(i as int));
        }
        i = i + 1;
    }
    proof { assert(b@.take(i as int) =~= b@); }
    out
}

fn copy_fields(b: &Vec<(String, Value)>) -> (r: Vec<(String, Value)>)
    ensures
        r.len() == b.len(),
        view_fields(r@) == view_fields(b@),
{
    copy_bindings(b)
}

} // verus!
