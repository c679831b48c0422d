//! Why a step is not allowed.
//!
//! A `Next` is a disjunction of actions, and an action is a conjunction of a
//! guard and an effect, so the useful fact about a rejected step is which
//! action came closest and which of its conjuncts stopped it.

use vstd::prelude::*;
use crate::eval::error::Error;
use crate::eval::evaluator::{kept, push_binding, Ctx, Evaluator, Local, State, NESTING};
use crate::eval::value::{compare_text, value_text, Rel, Value};
use crate::syntax::token::Op;
use crate::syntax::{Def, Expr, Param, QuantKind};
use crate::syntax::print::{shown, TRAILING};
use crate::text::{append, chars_of, text};

verus! {

/// How close one action came to permitting the step.
#[derive(Debug, Clone, PartialEq, Eq)]
pub struct Blocked {
    /// The action as it was reached, with arguments at the values they took:
    /// `Timeout(s = "s1")`.
    pub action: String,
    /// How many of the action's conjuncts hold, counted over all of them.
    pub satisfied: usize,
    pub total: usize,
    /// The first conjunct that does not hold.
    pub conjunct: String,
    /// Whether that conjunct constrains the successor state. False means the
    /// action was not available; true means it was, but produces a different
    /// next state than the one taken.
    pub about_next_state: bool,
    /// Set when the conjunct could not be evaluated rather than evaluating
    /// to FALSE.
    pub error: Option<String>,
}

/// Is `satisfied_a / total_a` at least `satisfied_b / total_b`? Compared
/// without division.
pub open spec fn at_least_as_close(a: Blocked, b: Blocked) -> bool {
    a.satisfied * b.total >= b.satisfied * a.total
}

/// Does `a` go before `b` in a report: closer first, then more conjuncts
/// satisfied, then by name.
pub open spec fn goes_before(a: Blocked, b: Blocked) -> bool {
    if a.satisfied * b.total != b.satisfied * a.total {
        a.satisfied * b.total > b.satisfied * a.total
    } else if a.satisfied != b.satisfied {
        a.satisfied > b.satisfied
    } else {
        crate::eval::value::chars_order(a.action@, b.action@) <= 0
    }
}

fn product(x: usize, y: usize) -> (r: u128)
    ensures
        r == x * y,
{
    assert((x as u128) * (y as u128) <= 0xFFFF_FFFF_FFFF_FFFF_FFFF_FFFF_FFFF_FFFFu128) by (nonlinear_arith)
        requires x <= usize::MAX, y <= usize::MAX, usize::MAX <= 0xFFFF_FFFF_FFFF_FFFFu64;
    (x as u128) * (y as u128)
}

impl Blocked {
    /// Is this attempt at least as close to firing as `other`?
    pub fn at_least_as_close(&self, other: &Blocked) -> (r: bool)
        ensures
            r == at_least_as_close(*self, *other),
    {
        product(self.satisfied, other.total) >= product(other.satisfied, self.total)
    }
}

/// Does `a` go before `b` in a report?
fn goes_before_exec(a: &Blocked, b: &Blocked) -> (r: bool)
    ensures
        r == goes_before(*a, *b),
{
    let x = product(a.satisfied, b.total);
    let y = product(b.satisfied, a.total);
    if x != y {
        x > y
    } else if a.satisfied != b.satisfied {
        a.satisfied > b.satisfied
    } else {
        match compare_text(&a.action, &b.action) {
            Rel::Greater => false,
            _ => true,
        }
    }
}

/// Actions are not followed deeper than this; a specification that nests
/// disjunctions further is reported on as far as it was explored.
pub const PROBE_DEPTH: usize = 16;

/// Rendered expressions are cut off after this many characters.
pub const MAX_RENDERED: usize = 160;

/// What a walk over the actions found.
struct Probe {
    /// The closest attempt at each named action, keyed by the name alone, so
    /// an action quantified over several bindings is reported once, at its
    /// best.
    best: Vec<(String, Blocked)>,
    /// Set when some action was found to permit the step after all.
    allowed: bool,
}

/// The conjuncts of `e`: the leaves of its tree of `/\`, left to right.
pub open spec fn conjuncts_of(e: Expr) -> Seq<Expr>
    decreases e,
{
    match e {
        Expr::Binary(Op::And, lhs, rhs) => conjuncts_of(*lhs) + conjuncts_of(*rhs),
        other => seq![other],
    }
}

/// Every conjunct of `e`, left to right.
pub fn conjuncts<'m>(e: &'m Expr) -> (r: Vec<&'m Expr>)
    ensures
        r.len() >= 1,
        r.len() == conjuncts_of(*e).len(),
        forall|i: int| 0 <= i < r.len() ==> *(#[trigger] r@[i]) == conjuncts_of(*e)[i],
    decreases e,
{
    match e {
        Expr::Binary(Op::And, lhs, rhs) => {
            let mut out = conjuncts(lhs);
            let mut more = conjuncts(rhs);
            let ghost a = out@;
            let ghost b = more@;
            out.append(&mut more);
            proof {
                assert forall|i: int| 0 <= i < out.len() implies *(#[trigger] out@[i]) == conjuncts_of(*e)[i] by {
                    if i < a.len() {
                        assert(out@[i] == a[i]);
                    } else {
                        assert(out@[i] == b[i - a.len()]);
                    }
                }
            }
            out
        },
        other => {
            let mut out: Vec<&'m Expr> = Vec::new();
            out.push(other);
            out
        },
    }
}

/// `p = v, ...` for the first `n` parameters and their values.
pub open spec fn arguments_text(params: Seq<Param>, values: Seq<Value>, n: nat) -> Seq<char>
    decreases n,
{
    if n == 0 {
        Seq::empty()
    } else {
        let item = params[n - 1].name@ + " = "@ + value_text(values[n - 1]@);
        if n == 1 { item } else { arguments_text(params, values, (n - 1) as nat) + ", "@ + item }
    }
}

/// `Name(p = v, ...)`, or the bare name when there are no parameters; a
/// parameter without a value is left out.
pub fn render_call(name: &str, params: &Vec<Param>, values: &Vec<Value>) -> (s: String)
    ensures
        params.len() == 0 ==> s@ == name@,
        params.len() > 0 ==> s@ == name@ + "("@ + arguments_text(params@, values@,
            (if params.len() <= values.len() { params.len() } else { values.len() }) as nat) + ")"@,
{
    let mut s = text(name);
    if params.len() == 0 {
        return s;
    }
    append(&mut s, "(");
    let ghost open = s@;
    let mut i: usize = 0;
    proof { assert(open + arguments_text(params@, values@, 0) =~= open); }
    while i < params.len() && i < values.len()
        invariant
            i <= params.len(),
            i <= values.len(),
            open == name@ + "("@,
            s@ == open + arguments_text(params@, values@, i as nat),
        decreases params.len() - i,
    {
        if i > 0 {
            append(&mut s, ", ");
        }
        append(&mut s, params[i].name.as_str());
        append(&mut s, " = ");
        append(&mut s, values[i].to_string().as_str());
        proof { assert(s@ =~= open + arguments_text(params@, values@, (i + 1) as nat)); }
        i = i + 1;
    }
    append(&mut s, ")");
    s
}

/// The text itself when it is short, or its first characters and `...`.
pub fn truncate(s: &str) -> (r: String)
    ensures
        s@.len() <= MAX_RENDERED ==> r@ == s@,
        s@.len() > MAX_RENDERED ==> r@ == s@.take(MAX_RENDERED as int) + "..."@,
{
    let chars = chars_of(s);
    if chars.len() <= MAX_RENDERED {
        return text(s);
    }
    let mut head = crate::text::string_between(&chars, 0, MAX_RENDERED);
    append(&mut head, "...");
    head
}

/// The text itself when it is short, or its first characters and `...`.
pub open spec fn truncated(s: Seq<char>) -> Seq<char> {
    if s.len() <= MAX_RENDERED { s } else { s.take(MAX_RENDERED as int) + "..."@ }
}

/// Any character but `(`.
pub open spec fn not_paren() -> spec_fn(char) -> bool {
    |c: char| c != '\x28'
}

/// The name an action is filed under: what comes before its first `(`.
pub open spec fn action_name(action: Seq<char>) -> Seq<char> {
    action.take(crate::syntax::lexical::span_end(action, 0, not_paren()))
}

/// An expression the walk over actions evaluates rather than steps into:
/// anything but a disjunction, an existential quantifier, a `LET`, or a use
/// of a definition, applied or without parameters.
pub open spec fn probe_leaf<'m>(ev: Evaluator<'m>, e: Expr, module: int) -> bool {
    match e {
        Expr::Binary(Op::Or, _, _) => false,
        Expr::Quant { kind: QuantKind::Exists, .. } => false,
        Expr::Let { .. } => false,
        Expr::Apply(head, _) => !(*head matches Expr::Ident(name) && ev.spec_of().definition_of(module, name@) is Some),
        Expr::Ident(name) => !(ev.spec_of().definition_of(module, name@) matches Some((_, d)) && d.params.len() == 0),
        _ => true,
    }
}

/// A name without `(` in it.
pub open spec fn no_paren(name: Seq<char>) -> bool {
    forall|k: int| 0 <= k < name.len() ==> #[trigger] name[k] != '\x28'
}

/// Some attempt is kept under `key`.
pub open spec fn has_key(best: Seq<(String, Blocked)>, key: Seq<char>) -> bool {
    exists|k: int| 0 <= k < best.len() && (#[trigger] best[k]).0@ == key
}

/// The name a leaf action reached under `label` is filed under: that of the
/// label, or of the action's own text when it has none.
pub open spec fn record_key(label: Option<&String>, e: Expr) -> Seq<char> {
    action_name(match label {
        Some(l) => l@,
        None => truncated(shown(e, TRAILING)),
    })
}

/// The name an action is filed under: what comes before its first `(`.
fn action_key(action: &String) -> (r: String)
    ensures
        r@ == action_name(action@),
{
    let chars = chars_of(action.as_str());
    let mut i: usize = 0;
    while i < chars.len()
        invariant
            i <= chars.len(),
            chars@ == action@,
            forall|k: int| 0 <= k < i ==> #[trigger] chars@[k] != '\x28',
        decreases chars.len() - i,
    {
        if chars[i] == '(' {
            proof {
                crate::syntax::lexical::lemma_span_end(action@, 0, i as int, not_paren());
                assert(chars@.subrange(0, i as int) =~= action@.take(i as int));
            }
            return crate::text::string_between(&chars, 0, i);
        }
        i = i + 1;
    }
    proof {
        crate::syntax::lexical::lemma_span_end(action@, 0, i as int, not_paren());
        assert(action@.take(i as int) =~= action@);
    }
    action.clone()
}

/// The attempts kept so far are each filed under their action's name, each
/// stopped short of their last conjunct, and no name is filed twice.
pub open spec fn well_kept(best: Seq<(String, Blocked)>) -> bool {
    &&& forall|k: int| 0 <= k < best.len() ==> (#[trigger] best[k]).0@ == action_name(best[k].1.action@)
        && best[k].1.satisfied < best[k].1.total
    &&& forall|i: int, j: int| 0 <= i < j < best.len() ==> (#[trigger] best[i]).0@ != (#[trigger] best[j]).0@
}

/// `a` comes strictly before `b` in a report.
pub open spec fn closer(a: Blocked, b: Blocked) -> bool {
    goes_before(a, b) && !goes_before(b, a)
}

/// How much closer `a` came than `b`, scaled by both totals.
pub open spec fn lead(a: Blocked, b: Blocked) -> int {
    a.satisfied * b.total - b.satisfied * a.total
}

proof fn lemma_closer_cases(a: Blocked, b: Blocked)
    ensures
        closer(a, b) <==> (lead(a, b) > 0 || (lead(a, b) == 0 && a.satisfied > b.satisfied)
            || (lead(a, b) == 0 && a.satisfied == b.satisfied && crate::eval::value::chars_order(a.action@, b.action@) < 0)),
        lead(b, a) == -lead(a, b),
{
    crate::eval::value::lemma_chars_order_antisym(a.action@, b.action@);
    assert(lead(b, a) == -lead(a, b)) by (nonlinear_arith);
}

proof fn lemma_lead_trans(a: Blocked, b: Blocked, c: Blocked)
    requires
        a.total > 0,
        b.total > 0,
        c.total > 0,
    ensures
        lead(a, c) * b.total == lead(a, b) * c.total + lead(b, c) * a.total,
        lead(a, b) >= 0 && lead(b, c) >= 0 ==> lead(a, c) >= 0,
        lead(a, b) >= 0 && lead(b, c) >= 0 && (lead(a, b) > 0 || lead(b, c) > 0) ==> lead(a, c) > 0,
{
    let (as_, at) = (a.satisfied as int, a.total as int);
    let (bs, bt) = (b.satisfied as int, b.total as int);
    let (cs, ct) = (c.satisfied as int, c.total as int);
    assert((as_ * ct - cs * at) * bt == (as_ * bt - bs * at) * ct + (bs * ct - cs * bt) * at) by (nonlinear_arith);
    let x = lead(a, c);
    let y = lead(a, b) * c.total + lead(b, c) * a.total;
    assert(lead(a, b) >= 0 && lead(b, c) >= 0 ==> y >= 0) by (nonlinear_arith)
        requires y == lead(a, b) * c.total + lead(b, c) * a.total, a.total > 0, c.total > 0;
    assert(lead(a, b) >= 0 && lead(b, c) >= 0 && (lead(a, b) > 0 || lead(b, c) > 0) ==> y > 0) by (nonlinear_arith)
        requires y == lead(a, b) * c.total + lead(b, c) * a.total, a.total > 0, c.total > 0;
    assert(y >= 0 ==> x >= 0) by (nonlinear_arith) requires x * b.total == y, b.total > 0;
    assert(y > 0 ==> x > 0) by (nonlinear_arith) requires x * b.total == y, b.total > 0;
}

/// Coming before in a report is transitive among attempts that have
/// conjuncts.
proof fn lemma_closer_trans(a: Blocked, b: Blocked, c: Blocked)
    requires
        a.total > 0,
        b.total > 0,
        c.total > 0,
        closer(a, b),
        closer(b, c),
    ensures
        closer(a, c),
{
    lemma_closer_cases(a, b);
    lemma_closer_cases(b, c);
    lemma_closer_cases(a, c);
    lemma_lead_trans(a, b, c);
    if lead(a, b) == 0 && lead(b, c) == 0 {
        assert(lead(a, c) == 0) by (nonlinear_arith)
            requires lead(a, c) * b.total == lead(a, b) * c.total + lead(b, c) * a.total,
                lead(a, b) == 0, lead(b, c) == 0, b.total > 0;
        if a.satisfied == b.satisfied && b.satisfied == c.satisfied {
            crate::eval::value::lemma_chars_order_trans(a.action@, b.action@, c.action@);
        }
    }
}

/// Keep `candidate` for `key` unless what is kept is at least as close.
fn keep_best(best: &mut Vec<(String, Blocked)>, key: String, candidate: Blocked)
    ensures
        (forall|k: int| 0 <= k < old(best).len() ==> (#[trigger] old(best)@[k]).0@ != key@)
            ==> final(best)@ == old(best)@.push((key, candidate)),
        forall|i: int| 0 <= i < old(best).len() && (#[trigger] old(best)@[i]).0@ == key@
            && (forall|k: int| 0 <= k < i ==> (#[trigger] old(best)@[k]).0@ != key@)
            ==> final(best)@ == if at_least_as_close(old(best)@[i].1, candidate) {
                old(best)@
            } else {
                old(best)@.update(i, (key, candidate))
            },
        exists|k: int| 0 <= k < final(best).len() && (#[trigger] final(best)@[k]).0@ == key@,
        well_kept(old(best)@) && key@ == action_name(candidate.action@) && candidate.satisfied < candidate.total
            ==> well_kept(final(best)@),
{
    let ghost cand = candidate;
    let ghost kv = key@;
    let mut i: usize = 0;
    while i < best.len()
        invariant
            i <= best.len(),
            best@ == old(best)@,
            forall|k: int| 0 <= k < i ==> (#[trigger] old(best)@[k]).0@ != key@,
        decreases best.len() - i,
    {
        if crate::text::str_eq(best[i].0.as_str(), key.as_str()) {
            let ghost k0 = i as int;
            if !best[i].1.at_least_as_close(&candidate) {
                best.set(i, (key, candidate));
            }
            proof {
                assert(best@[k0].0@ == key@);
                if well_kept(old(best)@) && kv == action_name(cand.action@) && cand.satisfied < cand.total {
                    assert forall|i2: int, j2: int| 0 <= i2 < j2 < best@.len() implies
                        (#[trigger] best@[i2]).0@ != (#[trigger] best@[j2]).0@ by {
                        assert(best@[i2].0@ == old(best)@[i2].0@);
                        assert(best@[j2].0@ == old(best)@[j2].0@);
                    }
                }
            }
            return;
        }
        i = i + 1;
    }
    let ghost n = best.len() as int;
    best.push((key, candidate));
    proof {
        assert(best@[n].0@ == key@);
        if well_kept(old(best)@) && kv == action_name(cand.action@) && cand.satisfied < cand.total {
            assert forall|i2: int, j2: int| 0 <= i2 < j2 < best@.len() implies
                (#[trigger] best@[i2]).0@ != (#[trigger] best@[j2]).0@ by {
                if j2 == n {
                    assert(best@[i2] == old(best)@[i2]);
                } else {
                    assert(best@[i2] == old(best)@[i2] && best@[j2] == old(best)@[j2]);
                }
            }
            assert forall|k: int| 0 <= k < best@.len() implies (#[trigger] best@[k]).0@ == action_name(best@[k].1.action@)
                && best@[k].1.satisfied < best@[k].1.total by {
                if k < n {
                    assert(best@[k] == old(best)@[k]);
                }
            }
        }
    }
}

/// A report's attempts: each stopped short of its last conjunct, no action
/// name twice, and none after one it comes strictly before.
pub open spec fn report_order(out: Seq<Blocked>) -> bool {
    &&& forall|k: int| 0 <= k < out.len() ==> (#[trigger] out[k]).satisfied < out[k].total
    &&& forall|i: int, j: int| 0 <= i < j < out.len()
        ==> action_name((#[trigger] out[i]).action@) != action_name((#[trigger] out[j]).action@)
    &&& forall|i: int, j: int| 0 <= i < j < out.len() ==> !closer(#[trigger] out[j], #[trigger] out[i])
}

/// The attempts, closest first.
fn ordered(best: Vec<(String, Blocked)>) -> (r: Vec<Blocked>)
    ensures
        r.len() == best.len(),
        well_kept(best@) ==> report_order(r@),
{
    let ghost orig = best@;
    let ghost ok = well_kept(orig);
    let mut out: Vec<Blocked> = Vec::new();
    let mut best = best;
    let total = best.len();
    while best.len() > 0
        invariant
            out.len() + best.len() == total,
            total == orig.len(),
            best@ == orig.take(best.len() as int),
            ok == well_kept(orig),
            ok ==> report_order(out@),
            ok ==> forall|x: int, k: int| 0 <= x < out.len() && 0 <= k < best.len()
                ==> action_name((#[trigger] out@[x]).action@) != (#[trigger] orig[k]).0@,
        decreases best.len(),
    {
        let ghost n = best.len() as int;
        let (_, b) = best.pop().unwrap();
        proof {
            assert(best@ =~= orig.take(n - 1));
            assert(b == orig[n - 1].1);
        }
        // Insert before the first attempt it goes before.
        let mut at: usize = out.len();
        let mut j: usize = 0;
        while j < out.len()
            invariant_except_break
                at == out.len(),
            invariant
                j <= out.len(),
                forall|i: int| 0 <= i < j ==> !closer(b, #[trigger] out@[i]),
            ensures
                at <= out.len(),
                at < out.len() ==> closer(b, out@[at as int]),
                forall|i: int| 0 <= i < at ==> !closer(b, #[trigger] out@[i]),
            decreases out.len() - j,
        {
            if goes_before_exec(&b, &out[j]) && !goes_before_exec(&out[j], &b) {
                at = j;
                break;
            }
            j = j + 1;
        }
        proof {
            assert(at < out.len() ==> closer(b, out@[at as int]));
            assert(forall|i: int| 0 <= i < at ==> !closer(b, #[trigger] out@[i]));
        }
        let ghost before = out@;
        out.insert(at, b);
        proof {
            if ok {
                assert(orig[n - 1].0@ == action_name(b.action@) && b.satisfied < b.total);
                assert forall|k: int| 0 <= k < out@.len() implies (#[trigger] out@[k]).satisfied < out@[k].total by {
                    if k < at { assert(out@[k] == before[k]); } else if k > at { assert(out@[k] == before[k - 1]); }
                }
                assert forall|i: int, j2: int| 0 <= i < j2 < out@.len() implies
                    action_name((#[trigger] out@[i]).action@) != action_name((#[trigger] out@[j2]).action@) by {
                    if i < at && j2 < at {
                        assert(out@[i] == before[i] && out@[j2] == before[j2]);
                    } else if i < at && j2 == at {
                        assert(out@[i] == before[i]);
                        assert(action_name(before[i].action@) != orig[n - 1].0@);
                    } else if i < at {
                        assert(out@[i] == before[i] && out@[j2] == before[j2 - 1]);
                    } else if i == at {
                        assert(out@[j2] == before[j2 - 1]);
                        assert(action_name(before[j2 - 1].action@) != orig[n - 1].0@);
                    } else {
                        assert(out@[i] == before[i - 1] && out@[j2] == before[j2 - 1]);
                    }
                }
                assert forall|i: int, j2: int| 0 <= i < j2 < out@.len() implies !closer(#[trigger] out@[j2], #[trigger] out@[i]) by {
                    if i < at && j2 < at {
                        assert(out@[i] == before[i] && out@[j2] == before[j2]);
                    } else if i < at && j2 == at {
                        assert(out@[i] == before[i]);
                    } else if i < at {
                        assert(out@[i] == before[i] && out@[j2] == before[j2 - 1]);
                    } else if i == at {
                        assert(out@[j2] == before[j2 - 1]);
                        let m = j2 - 1;
                        if closer(before[m], b) {
                            assert(at < before.len());
                            assert(closer(b, before[at as int]));
                            assert(before[m].total > 0 && b.total > 0 && before[at as int].total > 0);
                            if m == at {
                                lemma_closer_cases(b, before[m]);
                                lemma_closer_cases(before[m], b);
                            } else {
                                lemma_closer_trans(before[m], b, before[at as int]);
                                assert(!closer(before[m], before[at as int]));
                            }
                        }
                    } else {
                        assert(out@[i] == before[i - 1] && out@[j2] == before[j2 - 1]);
                    }
                }
                assert forall|x: int, k: int| 0 <= x < out@.len() && 0 <= k < best@.len()
                    implies action_name((#[trigger] out@[x]).action@) != (#[trigger] orig[k]).0@ by {
                    if x < at {
                        assert(out@[x] == before[x]);
                    } else if x > at {
                        assert(out@[x] == before[x - 1]);
                    } else {
                        assert(orig[n - 1].0@ != orig[k].0@);
                    }
                }
            }
        }
    }
    out
}

impl<'m> Evaluator<'m> {
    /// The actions that came closest to permitting `from -> to`, closest
    /// first.
    ///
    /// Empty when the step is allowed: every action other than the one taken
    /// fails at such a step, and reporting those would be noise rather than
    /// a diagnosis.
    pub fn why_not(&self, name: &str, from: &State, to: &State) -> (r: Result<Vec<Blocked>, Error>)
        ensures
            self.spec_of().definition_of(self.spec_of().root_at(), name@) is None
                ==> (r matches Err(e) && e is Undefined),
            self.spec_of().definition_of(self.spec_of().root_at(), name@) matches Some((_, d))
                && d.params.len() > 0 ==> (r matches Err(e) && e is Malformed),
            r matches Ok(v) ==> report_order(v@),
    {
        let body = self.body_of(name)?;
        let mut ctx = Self::ctx(self.source_spec().root(), from, Some(to));
        let mut found = Probe { best: Vec::new(), allowed: false };
        self.probe(body, &mut ctx, None, &mut found, 0)?;
        if found.allowed {
            return Ok(Vec::new());
        }
        Ok(ordered(found.best))
    }

    /// Walk the disjunctive structure of an action, keeping track of which
    /// named action the current branch belongs to.
    fn probe(&self, e: &'m Expr, ctx: &mut Ctx<'m, '_>, label: Option<&String>, found: &mut Probe, depth: usize) -> (r: Result<(), Error>)
        ensures
            well_kept(old(found).best@) ==> well_kept(final(found).best@),
            old(found).allowed ==> final(found).allowed,
            final(ctx).module == old(ctx).module,
            depth >= PROBE_DEPTH ==> (r is Ok && final(found).best@ == old(found).best@
                && final(found).allowed == old(found).allowed),
            depth < PROBE_DEPTH && probe_leaf(*self, *e, old(ctx).module as int) ==> (r is Ok
                && (final(found).allowed || has_key(final(found).best@, record_key(label, *e)))),
        decreases PROBE_DEPTH - depth, 2nat,
    {
        if depth >= PROBE_DEPTH {
            return Ok(());
        }
        match e {
            Expr::Binary(Op::Or, lhs, rhs) => {
                self.probe(lhs, ctx, label, found, depth + 1)?;
                self.probe(rhs, ctx, label, found, depth + 1)
            },
            Expr::Quant { kind: QuantKind::Exists, bounds, body } => {
                let mut refs: Vec<&'m crate::syntax::Bound> = Vec::new();
                let mut k: usize = 0;
                while k < bounds.len()
                    invariant
                        k <= bounds.len(),
                    decreases bounds.len() - k,
                {
                    refs.push(&bounds[k]);
                    k = k + 1;
                }
                let bindings = self.expand(&refs, ctx, NESTING)?;
                let mut i: usize = 0;
                while i < bindings.len()
                    invariant
                        i <= bindings.len(),
                        depth < PROBE_DEPTH,
                        old(found).allowed ==> found.allowed,
                        well_kept(old(found).best@) ==> well_kept(found.best@),
                        ctx.module == old(ctx).module,
                        !probe_leaf(*self, *e, old(ctx).module as int),
                    decreases bindings.len() - i,
                {
                    let restore = push_binding(ctx, &bindings[i]);
                    let walked = self.probe(body, ctx, label, found, depth + 1);
                    ctx.locals.truncate(restore);
                    walked?;
                    i = i + 1;
                }
                Ok(())
            },
            Expr::Let { defs, body, .. } => {
                let base = ctx.locals.len();
                let scope = if defs.len() <= usize::MAX - base { base + defs.len() } else { base };
                let mut i: usize = 0;
                while i < defs.len()
                    invariant
                        i <= defs.len(),
                        ctx.module == old(ctx).module,
                    decreases defs.len() - i,
                {
                    ctx.locals.push((defs[i].name.clone(), Local::Def { def: &defs[i], scope }));
                    i = i + 1;
                }
                let walked = self.probe(body, ctx, label, found, depth + 1);
                ctx.locals.truncate(base);
                walked
            },
            Expr::Apply(head, args) => {
                if let Expr::Ident(name) = &**head {
                    if let Some((_, def)) = self.source_spec().definition(ctx.module, name.as_str()) {
                        return self.enter(def, args, ctx, found, depth);
                    }
                }
                self.record(e, ctx, label, found);
                Ok(())
            },
            Expr::Ident(name) => {
                if let Some((_, def)) = self.source_spec().definition(ctx.module, name.as_str()) {
                    if def.params.len() == 0 {
                        return self.enter_with(def, &Vec::new(), ctx, found, depth);
                    }
                }
                self.record(e, ctx, label, found);
                Ok(())
            },
            _ => {
                self.record(e, ctx, label, found);
                Ok(())
            },
        }
    }

    /// Step into a named action, naming it by the arguments it was given.
    fn enter(&self, def: &'m Def, args: &'m Vec<Expr>, ctx: &mut Ctx<'m, '_>, found: &mut Probe, depth: usize) -> (r: Result<(), Error>)
        requires
            depth < PROBE_DEPTH,
        ensures
            well_kept(old(found).best@) ==> well_kept(final(found).best@),
            old(found).allowed ==> final(found).allowed,
            final(ctx).module == old(ctx).module,
            def.params.len() != args.len() ==> (r is Ok && final(found).best@ == old(found).best@
                && final(found).allowed == old(found).allowed),
            r is Ok && def.params.len() == args.len() && depth + 1 < PROBE_DEPTH
                && probe_leaf(*self, def.body, old(ctx).module as int) && no_paren(def.name@)
                ==> (final(found).allowed || has_key(final(found).best@, def.name@)),
        decreases PROBE_DEPTH - depth, 1nat,
    {
        if def.params.len() != args.len() {
            return Ok(());
        }
        let mut values: Vec<Value> = Vec::new();
        let mut i: usize = 0;
        while i < args.len()
            invariant
                i <= args.len(),
                depth < PROBE_DEPTH,
                ctx.module == old(ctx).module,
                *found == *old(found),
                def.params.len() == args.len(),
            decreases args.len() - i,
        {
            values.push(self.eval(&args[i], ctx, NESTING)?);
            i = i + 1;
        }
        self.enter_with(def, &values, ctx, found, depth)
    }

    /// Step into a named action whose arguments have the given values.
    fn enter_with(&self, def: &'m Def, values: &Vec<Value>, ctx: &mut Ctx<'m, '_>, found: &mut Probe, depth: usize) -> (r: Result<(), Error>)
        requires
            depth < PROBE_DEPTH,
        ensures
            well_kept(old(found).best@) ==> well_kept(final(found).best@),
            old(found).allowed ==> final(found).allowed,
            final(ctx).module == old(ctx).module,
            depth + 1 < PROBE_DEPTH && probe_leaf(*self, def.body, old(ctx).module as int) && no_paren(def.name@)
                ==> (r is Ok && (final(found).allowed || has_key(final(found).best@, def.name@))),
        decreases PROBE_DEPTH - depth, 0nat,
    {
        let label = render_call(def.name.as_str(), &def.params, values);
        proof {
            if no_paren(def.name@) {
                reveal_strlit("(");
                let n = def.name@.len() as int;
                if def.params.len() > 0 {
                    assert(label@[n] == '\x28');
                }
                crate::syntax::lexical::lemma_span_end(label@, 0, n, not_paren());
                assert(label@.take(n) =~= def.name@);
                assert(action_name(label@) == def.name@);
            }
        }
        // An operator sees its parameters and the module, never the locals
        // of whoever called it: the same rule evaluation follows.
        let hidden = ctx.locals.split_off(0);
        let mut i: usize = 0;
        while i < def.params.len() && i < values.len()
            invariant
                i <= def.params.len(),
                depth < PROBE_DEPTH,
                ctx.module == old(ctx).module,
            decreases def.params.len() - i,
        {
            ctx.locals.push((def.params[i].name.clone(), Local::Val(crate::eval::value::copy(&values[i]))));
            i = i + 1;
        }
        let walked = self.probe(&def.body, ctx, Some(&label), found, depth + 1);
        ctx.locals = hidden;
        walked
    }

    /// Evaluate a leaf action conjunct by conjunct and keep the furthest it
    /// got.
    fn record(&self, e: &'m Expr, ctx: &mut Ctx<'m, '_>, label: Option<&String>, found: &mut Probe)
        ensures
            kept(*final(ctx), *old(ctx)),
            old(found).allowed ==> final(found).allowed,
            final(found).allowed != old(found).allowed ==> final(found).best@ == old(found).best@,
            final(found).allowed || exists|k: int| 0 <= k < final(found).best.len()
                && (#[trigger] final(found).best@[k]).0@ == record_key(label, *e),
            well_kept(old(found).best@) ==> well_kept(final(found).best@),
    {
        let parts = conjuncts(e);
        let mut satisfied: usize = 0;
        let mut first_failure: Option<(usize, Option<String>)> = None;
        let mut i: usize = 0;
        while i < parts.len()
            invariant
                i <= parts.len(),
                satisfied <= i,
                first_failure is Some ==> satisfied < i,
                first_failure matches Some((k, _)) ==> k < parts.len(),
                kept(*ctx, *old(ctx)),
            decreases parts.len() - i,
        {
            // A conjunct after a failed guard may not be evaluable at all:
            // `Head(buf)` once `Len(buf) > 0` is false. That is a failure to
            // satisfy it, not a reason to abandon the whole diagnosis.
            match self.eval_bool(parts[i], ctx, NESTING) {
                Ok(true) => satisfied = satisfied + 1,
                Ok(false) => {
                    if first_failure.is_none() {
                        first_failure = Some((i, None));
                    }
                },
                Err(err) => {
                    if first_failure.is_none() {
                        first_failure = Some((i, Some(err.to_string())));
                    }
                },
            }
            i = i + 1;
        }
        let (at, error) = match first_failure {
            None => {
                found.allowed = true;
                return;
            },
            Some(f) => f,
        };
        let part = parts[at];
        let action = match label {
            Some(l) => l.clone(),
            None => truncate(e.to_string().as_str()),
        };
        let candidate = Blocked {
            action: action.clone(),
            satisfied,
            total: parts.len(),
            conjunct: truncate(part.to_string().as_str()),
            about_next_state: part.mentions_next_state(),
            error,
        };
        proof {
            match label {
                Some(l) => assert(action@ == l@),
                None => assert(action@ == truncated(shown(*e, TRAILING))),
            }
        }
        let key = action_key(&action);
        proof { assert(key@ == record_key(label, *e)); }
        let mut best: Vec<(String, Blocked)> = Vec::new();
        core::mem::swap(&mut best, &mut found.best);
        let ghost key_view = key@;
        keep_best(&mut best, key, candidate);
        let ghost k = choose|k: int| 0 <= k < best.len() && (#[trigger] best@[k]).0@ == key_view;
        found.best = best;
        proof {
            assert(found.best@[k].0@ == record_key(label, *e));
        }
    }
}

} // verus!
