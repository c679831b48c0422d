//! Render syntax back to TLA+ source.
//!
//! Written so that the parser can read the result: parentheses are placed by
//! precedence rather than preserved from the input, and where TLA+ offers
//! several spellings of an operator the ASCII one is used.

use vstd::prelude::*;
use crate::syntax::ast::{Bound, Def, ExceptPath, Expr, LetInstance, Param, QuantKind};
use crate::syntax::token::Op;
use crate::text::{append, chars_of, int_digits, push_char, push_int, text};

verus! {

/// The binding power of the constructs that run to the end of the
/// expression. They are parenthesized inside any operator.
pub const TRAILING: u8 = 0;
/// The binding power of anything that never needs parentheses.
pub const ATOM: u8 = 255;

/// How tightly an expression holds together when it stands as an operand.
pub open spec fn spec_precedence(e: Expr) -> u8 {
    match e {
        Expr::Binary(op, _, _) => match op.spec_infix_prec() {
            Some(p) => p,
            None => TRAILING,
        },
        Expr::Unary(op, _) => if op.spec_is_postfix() { ATOM } else { (op.spec_prefix_prec() - 1) as u8 },
        Expr::Quant { .. } | Expr::Choose { .. } | Expr::Let { .. } | Expr::If { .. }
        | Expr::Case { .. } | Expr::Lambda { .. } => TRAILING,
        _ => ATOM,
    }
}

pub fn precedence(e: &Expr) -> (r: u8)
    ensures
        r == spec_precedence(*e),
{
    match e {
        Expr::Binary(op, _, _) => match op.infix_prec() {
            Some(p) => p,
            None => TRAILING,
        },
        Expr::Unary(op, _) => if op.is_postfix() { ATOM } else { op.prefix_prec() - 1 },
        Expr::Quant { .. } | Expr::Choose { .. } | Expr::Let { .. } | Expr::If { .. }
        | Expr::Case { .. } | Expr::Lambda { .. } => TRAILING,
        _ => ATOM,
    }
}

/// How tightly each side of an infix operator must bind: the side it
/// groups towards may bind as loosely as the operator itself.
pub open spec fn operand_prec(op: Op, left: bool) -> u8 {
    let prec = match op.spec_infix_prec() {
        Some(p) => p,
        None => TRAILING,
    };
    if op.spec_is_right_assoc() == left { (prec + 1) as u8 } else { prec }
}

/// A character inside a string literal: `\`, `"`, newline and tab escaped,
/// as the lexer reads them back.
pub open spec fn string_char(c: char) -> Seq<char> {
    if c == '\\' {
        seq!['\\', '\\']
    } else if c == '"' {
        seq!['\\', '"']
    } else if c == '\n' {
        seq!['\\', 'n']
    } else if c == '\t' {
        seq!['\\', 't']
    } else {
        seq![c]
    }
}

/// The characters of a string literal between its quotes.
pub open spec fn string_body(s: Seq<char>) -> Seq<char>
    decreases s.len(),
{
    if s.len() == 0 { Seq::empty() } else { string_body(s.drop_last()) + string_char(s.last()) }
}

/// Names separated by `, `.
pub open spec fn names_text(names: Seq<String>) -> Seq<char>
    decreases names.len(),
{
    if names.len() == 0 {
        Seq::empty()
    } else if names.len() == 1 {
        names.last()@
    } else {
        names_text(names.drop_last()) + ", "@ + names.last()@
    }
}

/// `n` placeholders `_` separated by `, `.
pub open spec fn placeholders(n: nat) -> Seq<char>
    decreases n,
{
    if n == 0 {
        Seq::empty()
    } else if n == 1 {
        seq!['_']
    } else {
        placeholders((n - 1) as nat) + ", _"@
    }
}

/// `name`, or `name(_, _)` for an operator parameter.
pub open spec fn param_text(p: Param) -> Seq<char> {
    p.name@ + if p.arity > 0 { seq!['('] + placeholders(p.arity as nat) + seq![')'] } else { Seq::empty() }
}

/// Parameters separated by `, `.
pub open spec fn params_text(params: Seq<Param>) -> Seq<char>
    decreases params.len(),
{
    if params.len() == 0 {
        Seq::empty()
    } else if params.len() == 1 {
        param_text(params.last())
    } else {
        params_text(params.drop_last()) + ", "@ + param_text(params.last())
    }
}

/// The quantifier a kind of quantification is written with.
pub open spec fn quant_op(kind: QuantKind) -> Op {
    match kind {
        QuantKind::Forall => Op::Forall,
        QuantKind::Exists => Op::Exists,
        QuantKind::TemporalForall => Op::TemporalForall,
        QuantKind::TemporalExists => Op::TemporalExists,
    }
}

/// The text `e` is printed as where it must bind at least as tightly as
/// `min`: parenthesized when it binds less tightly.
pub open spec fn shown(e: Expr, min: u8) -> Seq<char>
    decreases e, 1nat,
{
    let t = shown_bare(e);
    if spec_precedence(e) < min { seq!['('] + t + seq![')'] } else { t }
}

/// A prefix operator keeps its operand: the parser reads the operand of a
/// prefix operator as far as infix operators bind at least as tightly as
/// the operator's prefix precedence, so an infix operand whose operator
/// binds less tightly is printed in parentheses, and one whose operator
/// binds at least as tightly is printed without them.
pub proof fn law_prefix_operand_is_kept(op: Op, inner_op: Op, l: Expr, r: Expr)
    requires
        !op.spec_is_postfix(),
        inner_op.spec_infix_prec() is Some,
    ensures
        ({
            let inner = Expr::Binary(inner_op, Box::new(l), Box::new(r));
            let lead = op.spec_symbol() + (if op.spec_is_word() { seq![' '] } else { Seq::empty() });
            &&& inner_op.spec_infix_prec()->Some_0 < op.spec_prefix_prec()
                ==> shown_bare(Expr::Unary(op, Box::new(inner))) == lead + seq!['('] + shown_bare(inner) + seq![')']
            &&& inner_op.spec_infix_prec()->Some_0 >= op.spec_prefix_prec()
                ==> shown_bare(Expr::Unary(op, Box::new(inner))) == lead + shown_bare(inner)
        }),
{
    let inner = Expr::Binary(inner_op, Box::new(l), Box::new(r));
    assert(spec_precedence(inner) == inner_op.spec_infix_prec()->Some_0);
}

/// The text of `e` itself, without parentheses around it.
pub open spec fn shown_bare(e: Expr) -> Seq<char>
    decreases e, 0nat,
{
    match e {
        Expr::Num(n) => int_digits(n as int),
        Expr::Decimal(t) => t@,
        Expr::Str(s) => seq!['"'] + string_body(s@) + seq!['"'],
        Expr::Bool(b) => if b { "TRUE"@ } else { "FALSE"@ },
        Expr::Ident(name) => name@,
        Expr::At => seq!['@'],
        Expr::Prime(inner) => shown(*inner, ATOM) + seq!['\''],
        Expr::Apply(head, args) => shown(*head, ATOM) + seq!['('] + shown_list(args@) + seq![')'],
        Expr::FnApply(head, args) => shown(*head, ATOM) + seq!['['] + shown_list(args@) + seq![']'],
        Expr::Field(inner, name) => shown(*inner, ATOM) + seq!['.'] + name@,
        Expr::Qualified { instance, name, args } => instance@ + seq!['!'] + name@
            + if args.len() > 0 { seq!['('] + shown_list(args@) + seq![')'] } else { Seq::empty() },
        Expr::Unary(op, operand) => if op.spec_is_postfix() {
            shown(*operand, ATOM) + op.spec_symbol()
        } else {
            op.spec_symbol() + (if op.spec_is_word() { seq![' '] } else { Seq::empty() })
                + shown(*operand, op.spec_prefix_prec())
        },
        Expr::Binary(op, lhs, rhs) => shown(*lhs, operand_prec(op, true)) + seq![' '] + op.spec_symbol()
            + seq![' '] + shown(*rhs, operand_prec(op, false)),
        Expr::Tuple(items) => "<<"@ + shown_list(items@) + ">>"@,
        Expr::SetEnum(items) => seq!['{'] + shown_list(items@) + seq!['}'],
        Expr::SetFilter { bound, pred } => seq!['{'] + bound_text(*bound) + " : "@ + shown(*pred, TRAILING) + seq!['}'],
        Expr::SetMap { expr, bounds } => seq!['{'] + shown(*expr, TRAILING) + " : "@ + bounds_text(bounds@) + seq!['}'],
        Expr::Record(fields) => seq!['['] + fields_text(fields@, "|->"@) + seq![']'],
        Expr::RecordSet(fields) => seq!['['] + fields_text(fields@, ":"@) + seq![']'],
        Expr::FnDef { bounds, body } => seq!['['] + bounds_text(bounds@) + " |-> "@ + shown(*body, TRAILING) + seq![']'],
        Expr::FnSet { domain, range } => seq!['['] + shown(*domain, TRAILING) + " -> "@ + shown(*range, TRAILING) + seq![']'],
        Expr::Except { base, updates } => seq!['['] + shown(*base, TRAILING) + " EXCEPT "@ + updates_text(updates@) + seq![']'],
        Expr::Quant { kind, bounds, body } => quant_op(kind).spec_symbol() + seq![' '] + bounds_text(bounds@) + " : "@
            + shown(*body, TRAILING),
        Expr::Choose { bound, body } => "CHOOSE "@ + bound_text(*bound) + " : "@ + shown(*body, TRAILING),
        Expr::Let { defs, instances, body } => "LET"@ + defs_text(defs@) + let_instances_text(instances@) + " IN "@
            + shown(*body, TRAILING),
        Expr::If { cond, then, otherwise } => "IF "@ + shown(*cond, TRAILING) + " THEN "@ + shown(*then, TRAILING)
            + " ELSE "@ + shown(*otherwise, TRAILING),
        Expr::Case { arms, other } => "CASE "@ + arms_text(arms@) + match other {
            Some(value) => (if arms.len() > 0 { " [] "@ } else { Seq::empty() }) + "OTHER -> "@ + shown(*value, TRAILING),
            None => Seq::empty(),
        },
        Expr::Lambda { params, body } => "LAMBDA "@ + params_text(params@) + " : "@ + shown(*body, TRAILING),
        Expr::ActionBox { action, subscript } => seq!['['] + shown(*action, TRAILING) + "]_"@ + subscript_text(*subscript),
        Expr::ActionAngle { action, subscript } => "<<"@ + shown(*action, TRAILING) + ">>_"@ + subscript_text(*subscript),
        Expr::Fairness { strong, subscript, action } => (if strong { "SF_"@ } else { "WF_"@ }) + subscript_text(*subscript)
            + seq!['('] + shown(*action, TRAILING) + seq![')'],
    }
}

/// Expressions separated by `, `, each printed as it stands alone.
pub open spec fn shown_list(items: Seq<Expr>) -> Seq<char>
    decreases items, 0nat,
{
    if items.len() == 0 {
        Seq::empty()
    } else if items.len() == 1 {
        shown(items.last(), TRAILING)
    } else {
        shown_list(items.drop_last()) + ", "@ + shown(items.last(), TRAILING)
    }
}

/// `x, y \in S`, `<<x, y>> \in S`, or the names alone when unbounded.
pub open spec fn bound_text(b: Bound) -> Seq<char>
    decreases b, 0nat,
{
    (if b.destructure { "<<"@ + names_text(b.names@) + ">>"@ } else { names_text(b.names@) })
        + match b.domain {
        Some(d) => " \\in "@ + shown(d, TRAILING),
        None => Seq::empty(),
    }
}

/// Bounds separated by `, `.
pub open spec fn bounds_text(bounds: Seq<Bound>) -> Seq<char>
    decreases bounds, 0nat,
{
    if bounds.len() == 0 {
        Seq::empty()
    } else if bounds.len() == 1 {
        bound_text(bounds.last())
    } else {
        bounds_text(bounds.drop_last()) + ", "@ + bound_text(bounds.last())
    }
}

/// `a |-> e` or `a : S` items separated by `, `, with `sep` between name
/// and expression.
pub open spec fn fields_text(fields: Seq<(String, Expr)>, sep: Seq<char>) -> Seq<char>
    decreases fields, 0nat,
{
    if fields.len() == 0 {
        Seq::empty()
    } else {
        let item = fields.last().0@ + seq![' '] + sep + seq![' '] + shown(fields.last().1, TRAILING);
        if fields.len() == 1 { item } else { fields_text(fields.drop_last(), sep) + ", "@ + item }
    }
}

/// `x <- e` substitutions separated by `, `.
pub open spec fn subs_text(subs: Seq<(String, Expr)>) -> Seq<char>
    decreases subs, 0nat,
{
    if subs.len() == 0 {
        Seq::empty()
    } else {
        let item = subs.last().0@ + " <- "@ + shown(subs.last().1, TRAILING);
        if subs.len() == 1 { item } else { subs_text(subs.drop_last()) + ", "@ + item }
    }
}

/// `Name(params) == body`.
pub open spec fn def_text(d: Def) -> Seq<char>
    decreases d, 0nat,
{
    d.name@ + (if d.params.len() > 0 { seq!['('] + params_text(d.params@) + seq![')'] } else { Seq::empty() })
        + " == "@ + shown(d.body, TRAILING)
}

/// The definitions of a `LET`, each after a space.
pub open spec fn defs_text(defs: Seq<Def>) -> Seq<char>
    decreases defs, 0nat,
{
    if defs.len() == 0 { Seq::empty() } else { defs_text(defs.drop_last()) + seq![' '] + def_text(defs.last()) }
}

/// `I == INSTANCE M WITH x <- e`.
pub open spec fn let_instance_text(inst: LetInstance) -> Seq<char>
    decreases inst, 0nat,
{
    (match inst.name {
        Some(name) => name@ + " == "@,
        None => Seq::empty(),
    }) + "INSTANCE "@ + inst.module@
        + if inst.subs.len() > 0 { " WITH "@ + subs_text(inst.subs@) } else { Seq::empty() }
}

/// The instances of a `LET`, each after a space.
pub open spec fn let_instances_text(instances: Seq<LetInstance>) -> Seq<char>
    decreases instances, 0nat,
{
    if instances.len() == 0 {
        Seq::empty()
    } else {
        let_instances_text(instances.drop_last()) + seq![' '] + let_instance_text(instances.last())
    }
}

/// The steps of an `EXCEPT` path: `[e]` and `.field`.
pub open spec fn path_text(path: Seq<ExceptPath>) -> Seq<char>
    decreases path, 0nat,
{
    if path.len() == 0 {
        Seq::empty()
    } else {
        path_text(path.drop_last()) + match path.last() {
            ExceptPath::Index(index) => seq!['['] + shown(index, TRAILING) + seq![']'],
            ExceptPath::Field(name) => seq!['.'] + name@,
        }
    }
}

/// `![a].b = e` updates separated by `, `.
pub open spec fn updates_text(updates: Seq<(Vec<ExceptPath>, Expr)>) -> Seq<char>
    decreases updates, 0nat,
{
    if updates.len() == 0 {
        Seq::empty()
    } else {
        let item = seq!['!'] + path_text(updates.last().0@) + " = "@ + shown(updates.last().1, TRAILING);
        if updates.len() == 1 { item } else { updates_text(updates.drop_last()) + ", "@ + item }
    }
}

/// `c -> e` arms separated by ` [] `.
pub open spec fn arms_text(arms: Seq<(Expr, Expr)>) -> Seq<char>
    decreases arms, 0nat,
{
    if arms.len() == 0 {
        Seq::empty()
    } else {
        let item = shown(arms.last().0, TRAILING) + " -> "@ + shown(arms.last().1, TRAILING);
        if arms.len() == 1 { item } else { arms_text(arms.drop_last()) + " [] "@ + item }
    }
}

/// The subscript of `[A]_v`, `<<A>>_v` or `WF_v(A)`: a name as it is,
/// anything else as an operand.
pub open spec fn subscript_text(s: Expr) -> Seq<char>
    decreases s, 2nat,
{
    match s {
        Expr::Ident(name) => name@,
        _ => shown(s, ATOM),
    }
}

/// A string literal, with `\`, `"`, newline and tab escaped as the lexer
/// reads them back.
fn write_string(s: &String, out: &mut String)
    ensures
        final(out)@ == old(out)@ + (seq!['"'] + string_body(s@) + seq!['"']),
{
    push_char(out, '"');
    let ghost start = out@;
    let cs = chars_of(s.as_str());
    let mut i: usize = 0;
    proof { assert(s@.take(0) =~= Seq::<char>::empty()); assert(start + string_body(Seq::<char>::empty()) =~= start); }
    while i < cs.len()
        invariant
            i <= cs.len(),
            cs@ == s@,
            start == old(out)@.push('"'),
            out@ == start + string_body(s@.take(i as int)),
        decreases cs.len() - i,
    {
        let c = cs[i];
        proof {
            assert(s@.take(i + 1).drop_last() =~= s@.take(i as int));
            assert(s@.take(i + 1).last() == c);
            reveal_strlit("\\\\");
            reveal_strlit("\\\"");
            reveal_strlit("\\n");
            reveal_strlit("\\t");
        }
        if c == '\\' {
            append(out, "\\\\");
        } else if c == '"' {
            append(out, "\\\"");
        } else if c == '\n' {
            append(out, "\\n");
        } else if c == '\t' {
            append(out, "\\t");
        } else {
            push_char(out, c);
        }
        proof { assert(out@ =~= start + string_body(s@.take(i + 1))); }
        i = i + 1;
    }
    push_char(out, '"');
    proof {
        assert(s@.take(cs.len() as int) =~= s@);
        assert(out@ =~= old(out)@ + (seq!['"'] + string_body(s@) + seq!['"']));
    }
}

fn write_names(names: &Vec<String>, out: &mut String)
    ensures
        final(out)@ == old(out)@ + names_text(names@),
{
    let mut i: usize = 0;
    proof { assert(names@.take(0) =~= Seq::<String>::empty()); assert(old(out)@ + Seq::<char>::empty() =~= old(out)@); }
    while i < names.len()
        invariant
            i <= names.len(),
            out@ == old(out)@ + names_text(names@.take(i as int)),
        decreases names.len() - i,
    {
        let ghost before = out@;
        if i > 0 {
            append(out, ", ");
        }
        append(out, names[i].as_str());
        proof {
            assert(names@.take(i + 1).drop_last() =~= names@.take(i as int));
            assert(names@.take(i + 1).last() == names@[i as int]);
            assert(out@ =~= old(out)@ + names_text(names@.take(i + 1)));
        }
        i = i + 1;
    }
    proof { assert(names@.take(names.len() as int) =~= names@); }
}

fn write_param(p: &Param, out: &mut String)
    ensures
        final(out)@ == old(out)@ + param_text(*p),
{
    append(out, p.name.as_str());
    let ghost named = out@;
    if p.arity > 0 {
        push_char(out, '(');
        let ghost open = out@;
        let mut i: usize = 0;
        proof { assert(open + placeholders(0) =~= open); }
        while i < p.arity
            invariant
                i <= p.arity,
                out@ == open + placeholders(i as nat),
            decreases p.arity - i,
        {
            if i > 0 {
                append(out, ", ");
            }
            push_char(out, '_');
            proof {
                reveal_strlit(", _");
                reveal_strlit(", ");
                assert(out@ =~= open + placeholders((i + 1) as nat));
            }
            i = i + 1;
        }
        push_char(out, ')');
        proof { assert(out@ =~= old(out)@ + param_text(*p)); }
    } else {
        proof { assert(out@ =~= old(out)@ + param_text(*p)); }
    }
}

fn write_params(params: &Vec<Param>, out: &mut String)
    ensures
        final(out)@ == old(out)@ + params_text(params@),
{
    let mut i: usize = 0;
    proof { assert(params@.take(0) =~= Seq::<Param>::empty()); assert(old(out)@ + Seq::<char>::empty() =~= old(out)@); }
    while i < params.len()
        invariant
            i <= params.len(),
            out@ == old(out)@ + params_text(params@.take(i as int)),
        decreases params.len() - i,
    {
        if i > 0 {
            append(out, ", ");
        }
        write_param(&params[i], out);
        proof {
            assert(params@.take(i + 1).drop_last() =~= params@.take(i as int));
            assert(params@.take(i + 1).last() == params@[i as int]);
            assert(out@ =~= old(out)@ + params_text(params@.take(i + 1)));
        }
        i = i + 1;
    }
    proof { assert(params@.take(params.len() as int) =~= params@); }
}

/// Write `e`, parenthesized if it binds less tightly than `min`.
fn write(e: &Expr, min: u8, out: &mut String)
    ensures
        final(out)@ == old(out)@ + shown(*e, min),
    decreases e, 2nat,
{
    if precedence(e) < min {
        push_char(out, '(');
        bare(e, out);
        push_char(out, ')');
        proof { assert(out@ =~= old(out)@ + (seq!['('] + shown_bare(*e) + seq![')'])); }
    } else {
        bare(e, out);
    }
}

fn write_list(items: &Vec<Expr>, out: &mut String)
    ensures
        final(out)@ == old(out)@ + shown_list(items@),
    decreases items, 0nat,
{
    let mut i: usize = 0;
    proof { assert(items@.take(0) =~= Seq::<Expr>::empty()); assert(old(out)@ + Seq::<char>::empty() =~= old(out)@); }
    while i < items.len()
        invariant
            i <= items.len(),
            out@ == old(out)@ + shown_list(items@.take(i as int)),
        decreases items.len() - i,
    {
        if i > 0 {
            append(out, ", ");
        }
        proof { assert(decreases_to!(*items => items@)); assert(decreases_to!(items@ => items@[i as int])); }
        write(&items[i], TRAILING, out);
        proof {
            assert(items@.take(i + 1).drop_last() =~= items@.take(i as int));
            assert(items@.take(i + 1).last() == items@[i as int]);
            assert(out@ =~= old(out)@ + shown_list(items@.take(i + 1)));
        }
        i = i + 1;
    }
    proof { assert(items@.take(items.len() as int) =~= items@); }
}

fn write_bound(b: &Bound, out: &mut String)
    ensures
        final(out)@ == old(out)@ + bound_text(*b),
    decreases b, 0nat,
{
    if b.destructure {
        append(out, "<<");
        write_names(&b.names, out);
        append(out, ">>");
    } else {
        write_names(&b.names, out);
    }
    let ghost named = out@;
    match &b.domain {
        Some(domain) => {
            append(out, " \\in ");
            proof { assert(decreases_to!(*b => b.domain)); }
            write(domain, TRAILING, out);
        },
        None => {},
    }
    proof { assert(out@ =~= old(out)@ + bound_text(*b)); }
}

fn write_bounds(bounds: &Vec<Bound>, out: &mut String)
    ensures
        final(out)@ == old(out)@ + bounds_text(bounds@),
    decreases bounds, 0nat,
{
    let mut i: usize = 0;
    proof { assert(bounds@.take(0) =~= Seq::<Bound>::empty()); assert(old(out)@ + Seq::<char>::empty() =~= old(out)@); }
    while i < bounds.len()
        invariant
            i <= bounds.len(),
            out@ == old(out)@ + bounds_text(bounds@.take(i as int)),
        decreases bounds.len() - i,
    {
        if i > 0 {
            append(out, ", ");
        }
        proof { assert(decreases_to!(*bounds => bounds@)); assert(decreases_to!(bounds@ => bounds@[i as int])); }
        write_bound(&bounds[i], out);
        proof {
            assert(bounds@.take(i + 1).drop_last() =~= bounds@.take(i as int));
            assert(bounds@.take(i + 1).last() == bounds@[i as int]);
            assert(out@ =~= old(out)@ + bounds_text(bounds@.take(i + 1)));
        }
        i = i + 1;
    }
    proof { assert(bounds@.take(bounds.len() as int) =~= bounds@); }
}

fn write_fields(fields: &Vec<(String, Expr)>, sep: &str, out: &mut String)
    ensures
        final(out)@ == old(out)@ + fields_text(fields@, sep@),
    decreases fields, 0nat,
{
    let mut i: usize = 0;
    proof { assert(fields@.take(0) =~= Seq::<(String, Expr)>::empty()); assert(old(out)@ + Seq::<char>::empty() =~= old(out)@); }
    while i < fields.len()
        invariant
            i <= fields.len(),
            out@ == old(out)@ + fields_text(fields@.take(i as int), sep@),
        decreases fields.len() - i,
    {
        let ghost before = out@;
        if i > 0 {
            append(out, ", ");
        }
        let ghost start = out@;
        append(out, fields[i].0.as_str());
        push_char(out, ' ');
        append(out, sep);
        push_char(out, ' ');
        proof {
            assert(decreases_to!(*fields => fields@));
            assert(decreases_to!(fields@ => fields@[i as int]));
            assert(decreases_to!(fields@[i as int] => fields@[i as int].1));
        }
        write(&fields[i].1, TRAILING, out);
        proof {
            let t = fields@.take(i + 1);
            assert(t.drop_last() =~= fields@.take(i as int));
            assert(t.last() == fields@[i as int]);
            let item = t.last().0@ + seq![' '] + sep@ + seq![' '] + shown(t.last().1, TRAILING);
            assert(out@ =~= start + item);
            assert(out@ =~= old(out)@ + fields_text(t, sep@));
        }
        i = i + 1;
    }
    proof { assert(fields@.take(fields.len() as int) =~= fields@); }
}

fn write_subs(subs: &Vec<(String, Expr)>, out: &mut String)
    ensures
        final(out)@ == old(out)@ + subs_text(subs@),
    decreases subs, 0nat,
{
    let mut i: usize = 0;
    proof { assert(subs@.take(0) =~= Seq::<(String, Expr)>::empty()); assert(old(out)@ + Seq::<char>::empty() =~= old(out)@); }
    while i < subs.len()
        invariant
            i <= subs.len(),
            out@ == old(out)@ + subs_text(subs@.take(i as int)),
        decreases subs.len() - i,
    {
        if i > 0 {
            append(out, ", ");
        }
        let ghost start = out@;
        append(out, subs[i].0.as_str());
        append(out, " <- ");
        proof {
            assert(decreases_to!(*subs => subs@));
            assert(decreases_to!(subs@ => subs@[i as int]));
            assert(decreases_to!(subs@[i as int] => subs@[i as int].1));
        }
        write(&subs[i].1, TRAILING, out);
        proof {
            let t = subs@.take(i + 1);
            assert(t.drop_last() =~= subs@.take(i as int));
            assert(t.last() == subs@[i as int]);
            let item = t.last().0@ + " <- "@ + shown(t.last().1, TRAILING);
            assert(out@ =~= start + item);
            assert(out@ =~= old(out)@ + subs_text(t));
        }
        i = i + 1;
    }
    proof { assert(subs@.take(subs.len() as int) =~= subs@); }
}

fn write_def(d: &Def, out: &mut String)
    ensures
        final(out)@ == old(out)@ + def_text(*d),
    decreases d, 0nat,
{
    append(out, d.name.as_str());
    if d.params.len() > 0 {
        push_char(out, '(');
        write_params(&d.params, out);
        push_char(out, ')');
    }
    append(out, " == ");
    proof { assert(decreases_to!(*d => d.body)); }
    write(&d.body, TRAILING, out);
    proof { assert(out@ =~= old(out)@ + def_text(*d)); }
}

fn write_let_instance(inst: &LetInstance, out: &mut String)
    ensures
        final(out)@ == old(out)@ + let_instance_text(*inst),
    decreases inst, 0nat,
{
    if let Some(name) = &inst.name {
        append(out, name.as_str());
        append(out, " == ");
    }
    append(out, "INSTANCE ");
    append(out, inst.module.as_str());
    if inst.subs.len() > 0 {
        append(out, " WITH ");
        proof { assert(decreases_to!(*inst => inst.subs)); }
        write_subs(&inst.subs, out);
    }
    proof { assert(out@ =~= old(out)@ + let_instance_text(*inst)); }
}

/// The subscript of `[A]_v`, `<<A>>_v` or `WF_v(A)`: a name as it is,
/// anything else as an operand.
fn write_subscript(s: &Expr, out: &mut String)
    ensures
        final(out)@ == old(out)@ + subscript_text(*s),
    decreases s, 3nat,
{
    match s {
        Expr::Ident(name) => append(out, name.as_str()),
        _ => write(s, ATOM, out),
    }
}
} // verus!

verus! {

fn bare(e: &Expr, out: &mut String)
    ensures
        final(out)@ == old(out)@ + shown_bare(*e),
    decreases e, 1nat,
{
    match e {
        Expr::Num(n) => push_int(out, *n),
        Expr::Decimal(t) => append(out, t.as_str()),
        Expr::Str(s) => write_string(s, out),
        Expr::Bool(b) => append(out, if *b { "TRUE" } else { "FALSE" }),
        Expr::Ident(name) => append(out, name.as_str()),
        Expr::At => push_char(out, '@'),
        Expr::Prime(inner) => {
            write(inner, ATOM, out);
            push_char(out, '\'');
            proof { assert(out@ =~= old(out)@ + shown_bare(*e)); }
        },
        Expr::Apply(head, args) => {
            write(head, ATOM, out);
            push_char(out, '(');
            write_list(args, out);
            push_char(out, ')');
            proof { assert(out@ =~= old(out)@ + shown_bare(*e)); }
        },
        Expr::FnApply(head, args) => {
            write(head, ATOM, out);
            push_char(out, '[');
            write_list(args, out);
            push_char(out, ']');
            proof { assert(out@ =~= old(out)@ + shown_bare(*e)); }
        },
        Expr::Field(inner, name) => {
            write(inner, ATOM, out);
            push_char(out, '.');
            append(out, name.as_str());
            proof { assert(out@ =~= old(out)@ + shown_bare(*e)); }
        },
        Expr::Qualified { instance, name, args } => {
            append(out, instance.as_str());
            push_char(out, '!');
            append(out, name.as_str());
            if args.len() > 0 {
                push_char(out, '(');
                write_list(args, out);
                push_char(out, ')');
            }
            proof { assert(out@ =~= old(out)@ + shown_bare(*e)); }
        },
        Expr::Unary(op, operand) => {
            if op.is_postfix() {
                write(operand, ATOM, out);
                append(out, op.symbol());
            } else {
                append(out, op.symbol());
                if op.is_word() {
                    push_char(out, ' ');
                }
                write(operand, op.prefix_prec(), out);
            }
            proof { assert(out@ =~= old(out)@ + shown_bare(*e)); }
        },
        Expr::Binary(op, lhs, rhs) => {
            let prec = match op.infix_prec() {
                Some(p) => p,
                None => TRAILING,
            };
            let (left, right) = if op.is_right_assoc() { (prec + 1, prec) } else { (prec, prec + 1) };
            write(lhs, left, out);
            push_char(out, ' ');
            append(out, op.symbol());
            push_char(out, ' ');
            write(rhs, right, out);
            proof { assert(out@ =~= old(out)@ + shown_bare(*e)); }
        },
        Expr::Tuple(items) => {
            append(out, "<<");
            write_list(items, out);
            append(out, ">>");
            proof { assert(out@ =~= old(out)@ + shown_bare(*e)); }
        },
        Expr::SetEnum(items) => {
            push_char(out, '{');
            write_list(items, out);
            push_char(out, '}');
            proof { assert(out@ =~= old(out)@ + shown_bare(*e)); }
        },
        _ => {
            let bracketed = matches!(e, Expr::SetFilter { .. } | Expr::SetMap { .. } | Expr::Record(_)
                | Expr::RecordSet(_) | Expr::FnDef { .. } | Expr::FnSet { .. } | Expr::Except { .. });
            if bracketed {
                bare_bracketed(e, out);
            } else {
                bare_binding(e, out);
            }
        },
    }
    proof { assert(out@ =~= old(out)@ + shown_bare(*e)); }
}


/// The forms written between brackets or braces.
fn bare_bracketed(e: &Expr, out: &mut String)
    requires
        e is SetFilter || e is SetMap || e is Record || e is RecordSet || e is FnDef || e is FnSet || e is Except,
    ensures
        final(out)@ == old(out)@ + shown_bare(*e),
    decreases e, 0nat,
{
    match e {
        Expr::SetFilter { bound, pred } => {
            push_char(out, '{');
            write_bound(bound, out);
            append(out, " : ");
            write(pred, TRAILING, out);
            push_char(out, '}');
            proof { assert(out@ =~= old(out)@ + shown_bare(*e)); }
        },
        Expr::SetMap { expr, bounds } => {
            push_char(out, '{');
            write(expr, TRAILING, out);
            append(out, " : ");
            write_bounds(bounds, out);
            push_char(out, '}');
            proof { assert(out@ =~= old(out)@ + shown_bare(*e)); }
        },
        Expr::Record(fields) => {
            push_char(out, '[');
            write_fields(fields, "|->", out);
            push_char(out, ']');
            proof { assert(out@ =~= old(out)@ + shown_bare(*e)); }
        },
        Expr::RecordSet(fields) => {
            push_char(out, '[');
            write_fields(fields, ":", out);
            push_char(out, ']');
            proof { assert(out@ =~= old(out)@ + shown_bare(*e)); }
        },
        Expr::FnDef { bounds, body } => {
            push_char(out, '[');
            write_bounds(bounds, out);
            append(out, " |-> ");
            write(body, TRAILING, out);
            push_char(out, ']');
            proof { assert(out@ =~= old(out)@ + shown_bare(*e)); }
        },
        Expr::FnSet { domain, range } => {
            push_char(out, '[');
            write(domain, TRAILING, out);
            append(out, " -> ");
            write(range, TRAILING, out);
            push_char(out, ']');
            proof { assert(out@ =~= old(out)@ + shown_bare(*e)); }
        },
        Expr::Except { base, updates } => {
            push_char(out, '[');
            write(base, TRAILING, out);
            append(out, " EXCEPT ");
            write_updates(updates, out);
            push_char(out, ']');
            proof { assert(out@ =~= old(out)@ + shown_bare(*e)); }
        },
        _ => {},
    }
}

/// The forms that bind names or run to the end of the expression.
fn bare_binding(e: &Expr, out: &mut String)
    requires
        e is Quant || e is Choose || e is Let || e is If || e is Case || e is Lambda || e is ActionBox || e is ActionAngle || e is Fairness,
    ensures
        final(out)@ == old(out)@ + shown_bare(*e),
    decreases e, 0nat,
{
    match e {
        Expr::Quant { kind, bounds, body } => {
            let symbol = match kind {
                QuantKind::Forall => Op::Forall,
                QuantKind::Exists => Op::Exists,
                QuantKind::TemporalForall => Op::TemporalForall,
                QuantKind::TemporalExists => Op::TemporalExists,
            };
            append(out, symbol.symbol());
            push_char(out, ' ');
            write_bounds(bounds, out);
            append(out, " : ");
            write(body, TRAILING, out);
            proof { assert(out@ =~= old(out)@ + shown_bare(*e)); }
        },
        Expr::Choose { bound, body } => {
            append(out, "CHOOSE ");
            write_bound(bound, out);
            append(out, " : ");
            write(body, TRAILING, out);
            proof { assert(out@ =~= old(out)@ + shown_bare(*e)); }
        },
        Expr::Let { defs, instances, body } => {
            append(out, "LET");
            write_defs(defs, out);
            write_let_instances(instances, out);
            append(out, " IN ");
            write(body, TRAILING, out);
            proof { assert(out@ =~= old(out)@ + shown_bare(*e)); }
        },
        Expr::If { cond, then, otherwise } => {
            append(out, "IF ");
            write(cond, TRAILING, out);
            append(out, " THEN ");
            write(then, TRAILING, out);
            append(out, " ELSE ");
            write(otherwise, TRAILING, out);
            proof { assert(out@ =~= old(out)@ + shown_bare(*e)); }
        },
        Expr::Case { arms, other } => {
            append(out, "CASE ");
            write_arms(arms, out);
            let ghost listed = out@;
            match other {
                Some(value) => {
                    if arms.len() > 0 {
                        append(out, " [] ");
                    }
                    append(out, "OTHER -> ");
                    write(value, TRAILING, out);
                },
                None => {},
            }
            proof { assert(out@ =~= old(out)@ + shown_bare(*e)); }
        },
        Expr::Lambda { params, body } => {
            append(out, "LAMBDA ");
            write_params(params, out);
            append(out, " : ");
            write(body, TRAILING, out);
            proof { assert(out@ =~= old(out)@ + shown_bare(*e)); }
        },
        Expr::ActionBox { action, subscript } => {
            push_char(out, '[');
            write(action, TRAILING, out);
            append(out, "]_");
            write_subscript(subscript, out);
            proof { assert(out@ =~= old(out)@ + shown_bare(*e)); }
        },
        Expr::ActionAngle { action, subscript } => {
            append(out, "<<");
            write(action, TRAILING, out);
            append(out, ">>_");
            write_subscript(subscript, out);
            proof { assert(out@ =~= old(out)@ + shown_bare(*e)); }
        },
        Expr::Fairness { strong, subscript, action } => {
            append(out, if *strong { "SF_" } else { "WF_" });
            write_subscript(subscript, out);
            push_char(out, '(');
            write(action, TRAILING, out);
            push_char(out, ')');
            proof { assert(out@ =~= old(out)@ + shown_bare(*e)); }
        },
        _ => {},
    }
}

fn write_updates(updates: &Vec<(Vec<ExceptPath>, Expr)>, out: &mut String)
    ensures
        final(out)@ == old(out)@ + updates_text(updates@),
    decreases updates, 0nat,
{
    let mut i: usize = 0;
    proof {
        assert(updates@.take(0) =~= Seq::<(Vec<ExceptPath>, Expr)>::empty());
        assert(old(out)@ + Seq::<char>::empty() =~= old(out)@);
    }
    while i < updates.len()
        invariant
            i <= updates.len(),
            out@ == old(out)@ + updates_text(updates@.take(i as int)),
        decreases updates.len() - i,
    {
        if i > 0 {
            append(out, ", ");
        }
        let ghost start = out@;
        push_char(out, '!');
        proof {
            assert(decreases_to!(*updates => updates@));
            assert(decreases_to!(updates@ => updates@[i as int]));
            assert(decreases_to!(updates@[i as int] => updates@[i as int].0));
            assert(decreases_to!(updates@[i as int] => updates@[i as int].1));
        }
        write_path(&updates[i].0, out);
        append(out, " = ");
        write(&updates[i].1, TRAILING, out);
        proof {
            let t = updates@.take(i + 1);
            assert(t.drop_last() =~= updates@.take(i as int));
            assert(t.last() == updates@[i as int]);
            let item = seq!['!'] + path_text(t.last().0@) + " = "@ + shown(t.last().1, TRAILING);
            assert(out@ =~= start + item);
            assert(out@ =~= old(out)@ + updates_text(t));
        }
        i = i + 1;
    }
    proof { assert(updates@.take(updates.len() as int) =~= updates@); }
}

fn write_path(path: &Vec<ExceptPath>, out: &mut String)
    ensures
        final(out)@ == old(out)@ + path_text(path@),
    decreases path, 0nat,
{
    let mut j: usize = 0;
    proof { assert(path@.take(0) =~= Seq::<ExceptPath>::empty()); assert(old(out)@ + Seq::<char>::empty() =~= old(out)@); }
    while j < path.len()
        invariant
            j <= path.len(),
            out@ == old(out)@ + path_text(path@.take(j as int)),
        decreases path.len() - j,
    {
        let ghost start = out@;
        proof { assert(decreases_to!(*path => path@)); assert(decreases_to!(path@ => path@[j as int])); }
        match &path[j] {
            ExceptPath::Index(index) => {
                proof { assert(decreases_to!(path@[j as int] => path@[j as int]->Index_0)); }
                push_char(out, '[');
                write(index, TRAILING, out);
                push_char(out, ']');
            },
            ExceptPath::Field(name) => {
                push_char(out, '.');
                append(out, name.as_str());
            },
        }
        proof {
            let t = path@.take(j + 1);
            assert(t.drop_last() =~= path@.take(j as int));
            assert(t.last() == path@[j as int]);
            assert(out@ =~= old(out)@ + path_text(t));
        }
        j = j + 1;
    }
    proof { assert(path@.take(path.len() as int) =~= path@); }
}

fn write_defs(defs: &Vec<Def>, out: &mut String)
    ensures
        final(out)@ == old(out)@ + defs_text(defs@),
    decreases defs, 0nat,
{
    let mut i: usize = 0;
    proof { assert(defs@.take(0) =~= Seq::<Def>::empty()); assert(old(out)@ + Seq::<char>::empty() =~= old(out)@); }
    while i < defs.len()
        invariant
            i <= defs.len(),
            out@ == old(out)@ + defs_text(defs@.take(i as int)),
        decreases defs.len() - i,
    {
        push_char(out, ' ');
        proof { assert(decreases_to!(*defs => defs@)); assert(decreases_to!(defs@ => defs@[i as int])); }
        write_def(&defs[i], out);
        proof {
            let t = defs@.take(i + 1);
            assert(t.drop_last() =~= defs@.take(i as int));
            assert(t.last() == defs@[i as int]);
            assert(out@ =~= old(out)@ + defs_text(t));
        }
        i = i + 1;
    }
    proof { assert(defs@.take(defs.len() as int) =~= defs@); }
}

fn write_let_instances(instances: &Vec<LetInstance>, out: &mut String)
    ensures
        final(out)@ == old(out)@ + let_instances_text(instances@),
    decreases instances, 0nat,
{
    let mut i: usize = 0;
    proof {
        assert(instances@.take(0) =~= Seq::<LetInstance>::empty());
        assert(old(out)@ + Seq::<char>::empty() =~= old(out)@);
    }
    while i < instances.len()
        invariant
            i <= instances.len(),
            out@ == old(out)@ + let_instances_text(instances@.take(i as int)),
        decreases instances.len() - i,
    {
        push_char(out, ' ');
        proof { assert(decreases_to!(*instances => instances@)); assert(decreases_to!(instances@ => instances@[i as int])); }
        write_let_instance(&instances[i], out);
        proof {
            let t = instances@.take(i + 1);
            assert(t.drop_last() =~= instances@.take(i as int));
            assert(t.last() == instances@[i as int]);
            assert(out@ =~= old(out)@ + let_instances_text(t));
        }
        i = i + 1;
    }
    proof { assert(instances@.take(instances.len() as int) =~= instances@); }
}

fn write_arms(arms: &Vec<(Expr, Expr)>, out: &mut String)
    ensures
        final(out)@ == old(out)@ + arms_text(arms@),
    decreases arms, 0nat,
{
    let mut i: usize = 0;
    proof { assert(arms@.take(0) =~= Seq::<(Expr, Expr)>::empty()); assert(old(out)@ + Seq::<char>::empty() =~= old(out)@); }
    while i < arms.len()
        invariant
            i <= arms.len(),
            out@ == old(out)@ + arms_text(arms@.take(i as int)),
        decreases arms.len() - i,
    {
        if i > 0 {
            append(out, " [] ");
        }
        let ghost start = out@;
        proof {
            assert(decreases_to!(*arms => arms@));
            assert(decreases_to!(arms@ => arms@[i as int]));
            assert(decreases_to!(arms@[i as int] => arms@[i as int].0));
            assert(decreases_to!(arms@[i as int] => arms@[i as int].1));
        }
        write(&arms[i].0, TRAILING, out);
        append(out, " -> ");
        write(&arms[i].1, TRAILING, out);
        proof {
            let t = arms@.take(i + 1);
            assert(t.drop_last() =~= arms@.take(i as int));
            assert(t.last() == arms@[i as int]);
            let item = shown(t.last().0, TRAILING) + " -> "@ + shown(t.last().1, TRAILING);
            assert(out@ =~= start + item);
            assert(out@ =~= old(out)@ + arms_text(t));
        }
        i = i + 1;
    }
    proof { assert(arms@.take(arms.len() as int) =~= arms@); }
}

impl Expr {
    /// The expression as TLA+ source that the parser reads back.
    pub fn to_string(&self) -> (s: String)
        ensures
            s@ == shown(*self, TRAILING),
    {
        let mut out = String::new();
        write(self, TRAILING, &mut out);
        proof { assert(Seq::<char>::empty() + shown(*self, TRAILING) =~= shown(*self, TRAILING)); }
        out
    }
}

impl Bound {
    /// `x, y \in S`, or `<<x, y>> \in S`.
    pub fn to_string(&self) -> (s: String)
        ensures
            s@ == bound_text(*self),
    {
        let mut out = String::new();
        write_bound(self, &mut out);
        proof { assert(Seq::<char>::empty() + bound_text(*self) =~= bound_text(*self)); }
        out
    }
}

impl Def {
    /// `Name(params) == body`.
    pub fn to_string(&self) -> (s: String)
        ensures
            s@ == def_text(*self),
    {
        let mut out = String::new();
        write_def(self, &mut out);
        proof { assert(Seq::<char>::empty() + def_text(*self) =~= def_text(*self)); }
        out
    }
}

impl Param {
    /// `name`, or `name(_, _)` for an operator parameter.
    pub fn to_string(&self) -> (s: String)
        ensures
            s@ == param_text(*self),
    {
        let mut out = String::new();
        write_param(self, &mut out);
        proof { assert(Seq::<char>::empty() + param_text(*self) =~= param_text(*self)); }
        out
    }
}

} // verus!
