//! A specification: a root module together with every module it reaches.

use vstd::prelude::*;
use crate::eval::error::Error;
use crate::eval::value::{chars_order, compare_text, lemma_chars_order_antisym, lemma_chars_order_trans, lemma_chars_order_zero, Rel};
use crate::syntax::{parse_module, Def, Expr, Module, Stage, Unit};
use crate::syntax::lexical::source_tokens;
use crate::syntax::parser::{agrees_module, bare_module_source, g_module, lemma_module_plain, lexed, module_is, DEFAULT_NESTING_LIMIT};
use crate::syntax::token::{TokV, Token};
use crate::syntax::ast::first_definition;
use crate::text::{append, str_eq, text};

verus! {

/// Where the source of a module named in `EXTENDS` or `INSTANCE` comes from.
///
/// The standard modules are not looked up here: their operators are built in,
/// so `EXTENDS Naturals` needs nothing loaded.
pub trait Modules {
    fn source(&self, name: &str) -> Option<String>;
}

/// No modules beyond the one given and whatever it declares inside itself.
pub struct NoModules;

impl Modules for NoModules {
    fn source(&self, name: &str) -> (r: Option<String>)
        ensures
            r is None,
    {
        None
    }
}

/// The standard modules, whose operators are built in.
pub open spec fn spec_is_standard(name: Seq<char>) -> bool {
    name == "Naturals"@ || name == "Integers"@ || name == "Reals"@ || name == "Sequences"@
        || name == "FiniteSets"@ || name == "TLC"@ || name == "Bags"@ || name == "RealTime"@
        || name == "Randomization"@ || name == "Toolbox"@
}

/// Is `name` one of the standard modules?
pub fn is_standard(name: &str) -> (r: bool)
    ensures
        r == spec_is_standard(name@),
{
    str_eq(name, "Naturals") || str_eq(name, "Integers") || str_eq(name, "Reals")
        || str_eq(name, "Sequences") || str_eq(name, "FiniteSets") || str_eq(name, "TLC")
        || str_eq(name, "Bags") || str_eq(name, "RealTime") || str_eq(name, "Randomization")
        || str_eq(name, "Toolbox")
}

/// What loading gives, for what the grammar reads: a syntax error where it
/// fails, and where it reads a module that extends only standard modules, a
/// specification whose root is that module.
pub open spec fn load_agrees(r: Result<Spec, Error>, g: Option<Result<((String, Seq<String>, Seq<spec_fn(Unit) -> bool>), int), ()>>) -> bool {
    match g {
        Some(Err(_)) => r is Err && r->Err_0 is Syntax,
        Some(Ok((d, _))) => (forall|k: int| 0 <= k < d.1.len() ==> spec_is_standard(#[trigger] d.1[k]@))
            ==> (r is Ok && module_is(r->Ok_0.module_at(r->Ok_0.root_at()), d)
                && (!spec_is_standard(d.0@) ==> standalone(r->Ok_0))),
        None => true,
    }
}

/// The root module stands alone: the definitions it sees are its own, first
/// one first, and what it declares is what its own units declare.
pub open spec fn standalone(s: Spec) -> bool {
    let root = s.module_at(s.root_at());
    &&& forall|n: Seq<char>| #[trigger] s.definition_of(s.root_at(), n) == match first_definition(root.units@, n) {
        Some(d) => Some((s.root_at(), d)),
        None => None,
    }
    &&& forall|n: Seq<char>| #[trigger] s.declares_var(s.root_at(), n) <==> declared_before(root.units@, true, n, root.units.len() as int)
    &&& forall|n: Seq<char>| #[trigger] s.declares_const(s.root_at(), n) <==> declared_before(root.units@, false, n, root.units.len() as int)
}

/// How deep a chain of modules, each naming the next, may go.
pub const MAX_MODULE_NESTING: usize = 4096;

/// A named instance of a module: `I == INSTANCE M WITH ...`, or an anonymous
/// one (`INSTANCE M`), whose definitions are pulled in directly.
pub struct Instance {
    pub name: Option<String>,
    /// The instantiated module.
    pub target: usize,
    /// The module the instance is written in, and the position of the
    /// `INSTANCE` among its units; the `WITH` clause is read from there.
    pub module: usize,
    pub unit: usize,
    /// Every name the target declares that the `WITH` clause leaves out,
    /// standing for the same name where the instance was written.
    pub implicit: Vec<(String, Expr)>,
}

/// What was worked out about one module once all of them were loaded.
struct Facts {
    /// Declared here or in anything this module extends, sorted.
    variables: Vec<String>,
    constants: Vec<String>,
    /// This module and every module it extends, directly or not, in the
    /// order a depth-first search from here first meets them.
    reach: Vec<usize>,
    instances: Vec<Instance>,
}

/// A specification: a root module together with every module it reaches.
pub struct Spec {
    modules: Vec<Module>,
    facts: Vec<Facts>,
    root: usize,
}

/// Names in strictly increasing order, compared character by character.
pub open spec fn names_sorted(names: Seq<String>) -> bool {
    forall|i: int, j: int| 0 <= i < j < names.len() ==> chars_order(#[trigger] names[i]@, #[trigger] names[j]@) < 0
}

/// Does one of `names` read `n`?
pub open spec fn in_names(names: Seq<String>, n: Seq<char>) -> bool {
    exists|k: int| 0 <= k < names.len() && (#[trigger] names[k])@ == n
}

/// The sorted, repeat-free list of names with `name` added.
#[verifier::spinoff_prover]
#[verifier::rlimit(40)]
fn insert_name(names: &mut Vec<String>, name: &String)
    ensures
        forall|n: Seq<char>| #[trigger] in_names(final(names)@, n) <==> (in_names(old(names)@, n) || n == name@),
        forall|k: int| 0 <= k < old(names).len() ==> final(names)@.contains(#[trigger] old(names)@[k]),
        exists|k: int| 0 <= k < final(names).len() && (#[trigger] final(names)@[k])@ == name@,
        forall|k: int| 0 <= k < final(names).len() ==> (#[trigger] final(names)@[k]) == *name
            || old(names)@.contains(final(names)@[k]),
        final(names).len() <= old(names).len() + 1,
        names_sorted(old(names)@) ==> names_sorted(final(names)@),
        names_sorted(old(names)@) ==> (final(names)@ == old(names)@
            <==> exists|k: int| 0 <= k < old(names).len() && (#[trigger] old(names)@[k])@ == name@),
{
    let ghost before = names@;
    let ghost ok = names_sorted(before);
    let mut lo: usize = 0;
    let mut hi: usize = names.len();
    while lo < hi
        invariant
            names@ == before,
            ok == names_sorted(before),
            lo <= hi <= names.len(),
            ok ==> forall|k: int| 0 <= k < lo ==> chars_order(#[trigger] before[k]@, name@) < 0,
            ok ==> forall|k: int| hi <= k < before.len() ==> chars_order(#[trigger] before[k]@, name@) > 0,
        decreases hi - lo,
    {
        let mid = lo + (hi - lo) / 2;
        match compare_text(&names[mid], name) {
            Rel::Less => {
                proof {
                    if ok {
                        assert forall|k: int| 0 <= k < mid + 1 implies chars_order(#[trigger] before[k]@, name@) < 0 by {
                            if k < mid {
                                lemma_chars_order_trans(before[k]@, before[mid as int]@, name@);
                            }
                        }
                    }
                }
                lo = mid + 1;
            },
            Rel::Equal => {
                proof {
                    lemma_chars_order_zero(before[mid as int]@, name@);
                    assert forall|n: Seq<char>| #[trigger] in_names(names@, n) <==> (in_names(before, n) || n == name@) by {
                        if n == name@ {
                            assert(names@[mid as int]@ == n);
                        }
                    }
                }
                return;
            },
            Rel::Greater => {
                proof {
                    if ok {
                        assert forall|k: int| mid <= k < before.len() implies chars_order(#[trigger] before[k]@, name@) > 0 by {
                            if k > mid {
                                lemma_chars_order_antisym(before[mid as int]@, name@);
                                lemma_chars_order_trans(name@, before[mid as int]@, before[k]@);
                                lemma_chars_order_antisym(name@, before[k]@);
                            }
                        }
                    }
                }
                hi = mid;
            },
        }
    }
    names.insert(lo, name.clone());
    proof {
        assert(names@[lo as int] == *name);
        assert forall|k: int| 0 <= k < before.len() implies names@.contains(#[trigger] before[k]) by {
            if k < lo {
                assert(names@[k] == before[k]);
            } else {
                assert(names@[k + 1] == before[k]);
            }
        }
        assert forall|n: Seq<char>| #[trigger] in_names(names@, n) <==> (in_names(before, n) || n == name@) by {
            if in_names(before, n) {
                let k = choose|k: int| 0 <= k < before.len() && (#[trigger] before[k])@ == n;
                if k < lo {
                    assert(names@[k] == before[k]);
                } else {
                    assert(names@[k + 1] == before[k]);
                }
            }
            if n == name@ {
                assert(names@[lo as int]@ == n);
            }
            if in_names(names@, n) {
                let k = choose|k: int| 0 <= k < names@.len() && (#[trigger] names@[k])@ == n;
                if k < lo {
                    assert(names@[k] == before[k]);
                } else if k > lo {
                    assert(names@[k] == before[k - 1]);
                }
            }
        }
        assert forall|k: int| 0 <= k < names.len() implies (#[trigger] names@[k]) == *name
            || before.contains(names@[k]) by {
            if k < lo {
                assert(names@[k] == before[k]);
            } else if k > lo {
                assert(names@[k] == before[k - 1]);
            }
        }
        if ok {
            assert forall|i: int, j: int| 0 <= i < j < names@.len() implies
                chars_order(#[trigger] names@[i]@, #[trigger] names@[j]@) < 0 by {
                if j < lo {
                    assert(names@[i] == before[i] && names@[j] == before[j]);
                } else if j == lo {
                    assert(names@[i] == before[i]);
                } else if i == lo {
                    assert(names@[j] == before[j - 1]);
                    lemma_chars_order_antisym(before[j - 1]@, name@);
                } else if i < lo {
                    assert(names@[i] == before[i] && names@[j] == before[j - 1]);
                } else {
                    assert(names@[i] == before[i - 1] && names@[j] == before[j - 1]);
                }
            }
            assert(names@.len() != before.len());
            assert forall|k: int| 0 <= k < before.len() implies (#[trigger] before[k])@ != name@ by {
                if k < lo {
                    assert(chars_order(before[k]@, name@) < 0);
                } else {
                    assert(chars_order(before[k]@, name@) > 0);
                }
                lemma_chars_order_zero(before[k]@, name@);
            }
        }
    }
}

/// Does the sorted list hold `name`?
fn has_name(names: &Vec<String>, name: &str) -> (r: bool)
    ensures
        r == exists|k: int| 0 <= k < names.len() && (#[trigger] names@[k])@ == name@,
{
    let mut i: usize = 0;
    while i < names.len()
        invariant
            i <= names.len(),
            forall|k: int| 0 <= k < i ==> (#[trigger] names@[k])@ != name@,
        decreases names.len() - i,
    {
        if str_eq(names[i].as_str(), name) {
            return true;
        }
        i = i + 1;
    }
    false
}

/// The position of the module named `name`, if one is registered.
fn position_of(names: &Vec<String>, name: &str) -> (r: Option<usize>)
    ensures
        r matches Some(i) ==> i < names.len() && names@[i as int]@ == name@,
        r is None ==> forall|k: int| 0 <= k < names.len() ==> (#[trigger] names@[k])@ != name@,
{
    let mut i: usize = 0;
    while i < names.len()
        invariant
            i <= names.len(),
            forall|k: int| 0 <= k < i ==> (#[trigger] names@[k])@ != name@,
        decreases names.len() - i,
    {
        if str_eq(names[i].as_str(), name) {
            return Some(i);
        }
        i = i + 1;
    }
    None
}

/// The first definition named `name` among the modules at the positions
/// `order`, taken in turn, with the position of the module holding it.
pub open spec fn first_in(modules: Seq<Module>, order: Seq<usize>, name: Seq<char>) -> Option<(int, Def)>
    decreases order.len(),
{
    if order.len() == 0 {
        None
    } else {
        let m = order[0] as int;
        if m < modules.len() && first_definition(modules[m].units@, name) is Some {
            Some((m, first_definition(modules[m].units@, name)->Some_0))
        } else {
            first_in(modules, order.drop_first(), name)
        }
    }
}

/// The first of `instances` named `name`.
spec fn named_instance(instances: Seq<Instance>, name: Seq<char>) -> Option<Instance>
    decreases instances.len(),
{
    if instances.len() == 0 {
        None
    } else if instances[0].name matches Some(n) && n@ == name {
        Some(instances[0])
    } else {
        named_instance(instances.drop_first(), name)
    }
}

/// The first instance named `name` among those of the modules at the
/// positions `order`, taken in turn.
spec fn instance_in(facts: Seq<Facts>, order: Seq<usize>, name: Seq<char>) -> Option<Instance>
    decreases order.len(),
{
    if order.len() == 0 {
        None
    } else {
        let m = order[0] as int;
        if m < facts.len() && named_instance(facts[m].instances@, name) is Some {
            named_instance(facts[m].instances@, name)
        } else {
            instance_in(facts, order.drop_first(), name)
        }
    }
}

/// How many of the flags are still down.
pub open spec fn unseen(s: Seq<bool>) -> nat
    decreases s.len(),
{
    if s.len() == 0 {
        0
    } else {
        unseen(s.drop_last()) + if s.last() { 0nat } else { 1nat }
    }
}

proof fn lemma_unseen_mark(s: Seq<bool>, i: int)
    requires
        0 <= i < s.len(),
        !s[i],
    ensures
        unseen(s.update(i, true)) + 1 == unseen(s),
    decreases s.len(),
{
    if i == s.len() - 1 {
        assert(s.update(i, true).drop_last() =~= s.drop_last());
    } else {
        lemma_unseen_mark(s.drop_last(), i);
        assert(s.update(i, true).drop_last() =~= s.drop_last().update(i, true));
    }
}

/// The modules reachable from `start` along `edges`, `start` first, each
/// once, in the order a depth-first search meets them.
fn preorder(edges: &Vec<Vec<usize>>, start: usize) -> (order: Vec<usize>)
    requires
        start < edges.len(),
    ensures
        order.len() >= 1,
        order@[0] == start,
        forall|k: int| 0 <= k < order.len() ==> #[trigger] order@[k] < edges.len(),
        edges@[start as int].len() == 0 ==> order@ == seq![start],
{
    let ghost lone = edges@[start as int].len() == 0;
    let n = edges.len();
    let mut seen: Vec<bool> = Vec::new();
    while seen.len() < n
        invariant
            seen.len() <= n,
            forall|k: int| 0 <= k < seen.len() ==> !#[trigger] seen@[k],
        decreases n - seen.len(),
    {
        seen.push(false);
    }
    let mut stack: Vec<usize> = Vec::new();
    stack.push(start);
    let mut order: Vec<usize> = Vec::new();
    while stack.len() > 0
        invariant
            n == edges.len(),
            seen.len() == n,
            start < n,
            forall|k: int| 0 <= k < stack.len() ==> #[trigger] stack@[k] < n,
            forall|k: int| 0 <= k < order.len() ==> #[trigger] order@[k] < n,
            order.len() == 0 ==> stack.len() == 1 && stack@[0] == start && !seen@[start as int],
            order.len() >= 1 ==> order@[0] == start,
            lone == (edges@[start as int].len() == 0),
            lone && order.len() >= 1 ==> order@ == seq![start] && stack.len() == 0,
        decreases unseen(seen@), stack.len(),
    {
        let m = stack.pop().unwrap();
        if !seen[m] {
            proof { lemma_unseen_mark(seen@, m as int); }
            seen.set(m, true);
            order.push(m);
            let parents = &edges[m];
            let mut j: usize = parents.len();
            while j > 0
                invariant
                    n == edges.len(),
                    j <= parents.len(),
                    forall|k: int| 0 <= k < stack.len() ==> #[trigger] stack@[k] < n,
                    *parents == edges@[m as int],
                    lone && m == start ==> j == 0 && stack.len() == 0,
                decreases j,
            {
                j = j - 1;
                let p = parents[j];
                if p < n {
                    stack.push(p);
                }
            }
        }
    }
    order
}

struct Builder {
    modules: Vec<Module>,
    names: Vec<String>,
}

impl Builder {
    spec fn well_formed(&self) -> bool {
        self.modules.len() == self.names.len()
    }

    /// Register a module and everything it names, depth first. Inner modules
    /// are registered before anything is loaded from outside, so they take
    /// precedence.
    fn add<M: Modules>(&mut self, module: Module, source: &M, budget: usize) -> (r: Result<usize, Error>)
        requires
            old(self).well_formed(),
        ensures
            final(self).well_formed(),
            final(self).modules.len() >= old(self).modules.len(),
            final(self).names@.subrange(0, old(self).names.len() as int) == old(self).names@,
            r matches Ok(i) ==> i < final(self).modules.len() && final(self).names@[i as int]@ == module.name@,
            budget == 0 ==> (r matches Err(e) && e is Malformed),
            r matches Err(e) ==> e is Undefined || e is Malformed || e is Syntax,
            budget > 0 && in_names(old(self).names@, module.name@) ==> (r is Ok
                && final(self).names@ == old(self).names@ && final(self).modules@ == old(self).modules@),
            budget > 0 && !in_names(old(self).names@, module.name@) && self_contained(old(self).names@, module)
                ==> (r == Ok::<usize, Error>(old(self).modules.len())
                    && final(self).names@ == old(self).names@.push(module.name)
                    && final(self).modules.len() == old(self).modules.len() + 1
                    && final(self).modules@.take(old(self).modules.len() as int) == old(self).modules@
                    && final(self).modules@.last().name == module.name
                    && final(self).modules@.last().extends == module.extends
                    && final(self).modules@.last().units@ == module.units@),
        decreases budget,
    {
        if budget == 0 {
            let mut m = text("modules name one another more than ");
            crate::text::push_int(&mut m, MAX_MODULE_NESTING as i64);
            append(&mut m, " deep");
            return Err(Error::Malformed(m));
        }
        if let Some(existing) = position_of(&self.names, module.name.as_str()) {
            proof { assert(self.names@.subrange(0, self.names.len() as int) =~= self.names@); }
            return Ok(existing);
        }
        proof {
            if in_names(self.names@, module.name@) {
                let k = choose|k: int| 0 <= k < self.names@.len() && (#[trigger] self.names@[k])@ == module.name@;
                assert(self.names@[k]@ == module.name@);
            }
        }
        let ghost whole = module;
        let ghost contained = self_contained(old(self).names@, whole);
        let position = self.modules.len();
        let Module { name, extends, units } = module;
        // Inner modules move out of their parent, which keeps a placeholder.
        let ghost orig = units@;
        let mut units = units;
        let mut reversed: Vec<Unit> = Vec::new();
        while units.len() > 0
            invariant
                units.len() + reversed.len() == orig.len(),
                units@ == orig.take(units.len() as int),
                forall|k: int| 0 <= k < reversed.len() ==> #[trigger] reversed@[k] == orig[orig.len() - 1 - k],
            decreases units.len(),
        {
            let ghost before = units@;
            let u = units.pop().unwrap();
            proof { assert(units@ =~= orig.take(units.len() as int)); }
            reversed.push(u);
        }
        let mut kept: Vec<Unit> = Vec::new();
        let mut inner: Vec<Module> = Vec::new();
        while reversed.len() > 0
            invariant
                kept.len() + reversed.len() == orig.len(),
                forall|k: int| 0 <= k < reversed.len() ==> #[trigger] reversed@[k] == orig[orig.len() - 1 - k],
                forall|k: int| 0 <= k < kept.len() ==> !(orig[k] is Inner) ==> #[trigger] kept@[k] == orig[k],
                (forall|k: int| 0 <= k < orig.len() ==> !(#[trigger] orig[k] is Inner)) ==> inner.len() == 0,
            decreases reversed.len(),
        {
            let ghost at = kept.len();
            let u = reversed.pop().unwrap();
            proof { assert(u == orig[at as int]); }
            match u {
                Unit::Inner(m) => {
                    inner.push(*m);
                    kept.push(Unit::Opaque);
                },
                other => kept.push(other),
            }
        }
        proof {
            assert(orig == whole.units@);
            if contained {
                assert(kept@ =~= orig);
            }
        }
        let mut wanted: Vec<String> = Vec::new();
        let mut i: usize = 0;
        while i < extends.len()
            invariant
                i <= extends.len(),
                wanted.len() == i,
                extends == whole.extends,
                contained == self_contained(old(self).names@, whole),
                contained ==> forall|k: int| 0 <= k < wanted.len() ==> known(old(self).names@, whole.name@, #[trigger] wanted@[k]@),
            decreases extends.len() - i,
        {
            wanted.push(extends[i].clone());
            i = i + 1;
        }
        let mut i: usize = 0;
        while i < kept.len()
            invariant
                i <= kept.len(),
                contained == self_contained(old(self).names@, whole),
                contained ==> kept@ == whole.units@,
                contained ==> forall|k: int| 0 <= k < wanted.len() ==> known(old(self).names@, whole.name@, #[trigger] wanted@[k]@),
            decreases kept.len() - i,
        {
            if let Unit::Instance { module: target, .. } = &kept[i] {
                proof {
                    if contained {
                        assert(whole.units@[i as int] matches Unit::Instance { module: t, .. } && t == *target);
                    }
                }
                wanted.push(target.clone());
            }
            i = i + 1;
        }
        let ghost name_view = name@;
        self.names.push(name.clone());
        self.modules.push(Module { name, extends, units: kept });
        proof {
            assert(self.names@.subrange(0, position + 1) =~= old(self).names@.push(whole.name));
            assert(self.names@.subrange(0, old(self).names.len() as int) =~= old(self).names@);
            if contained {
                assert(self.modules@.take(position as int) =~= old(self).modules@);
            }
        }

        let mut inner = inner;
        let mut ordered: Vec<Module> = Vec::new();
        while inner.len() > 0
            invariant
                contained ==> inner.len() == 0 && ordered.len() == 0,
            decreases inner.len(),
        {
            ordered.push(inner.pop().unwrap());
        }
        while ordered.len() > 0
            invariant
                self.well_formed(),
                position < self.modules.len(),
                position == old(self).modules.len(),
                budget > 0,
                self.modules.len() >= old(self).modules.len(),
                self.names@.subrange(0, position + 1) == old(self).names@.push(whole.name),
                self.names@.subrange(0, old(self).names.len() as int) == old(self).names@,
                !in_names(old(self).names@, whole.name@),
                whole == module,
                contained == self_contained(old(self).names@, whole),
                contained ==> ordered.len() == 0,
                contained ==> self.names@ == old(self).names@.push(whole.name)
                    && self.modules.len() == old(self).modules.len() + 1
                    && self.modules@.take(old(self).modules.len() as int) == old(self).modules@
                    && self.modules@.last().name == whole.name
                    && self.modules@.last().extends == whole.extends
                    && self.modules@.last().units@ == whole.units@,
            decreases ordered.len(),
        {
            let m = ordered.pop().unwrap();
            let ghost before = self.names@;
            let res = self.add(m, source, budget - 1);
            proof {
                assert(self.names@.subrange(0, position + 1) =~= before.subrange(0, position + 1));
                assert(self.names@.subrange(0, old(self).names.len() as int) =~= before.subrange(0, old(self).names.len() as int));
            }
            res?;
        }

        let mut i: usize = 0;
        while i < wanted.len()
            invariant
                self.well_formed(),
                position < self.modules.len(),
                position == old(self).modules.len(),
                budget > 0,
                self.modules.len() >= old(self).modules.len(),
                self.names@.subrange(0, position + 1) == old(self).names@.push(whole.name),
                i <= wanted.len(),
                self.names@.subrange(0, old(self).names.len() as int) == old(self).names@,
                !in_names(old(self).names@, whole.name@),
                whole == module,
                contained == self_contained(old(self).names@, whole),
                contained ==> self.names@ == old(self).names@.push(whole.name)
                    && self.modules.len() == old(self).modules.len() + 1
                    && self.modules@.take(old(self).modules.len() as int) == old(self).modules@
                    && self.modules@.last().name == whole.name
                    && self.modules@.last().extends == whole.extends
                    && self.modules@.last().units@ == whole.units@,
                contained ==> forall|k: int| 0 <= k < wanted.len() ==> known(old(self).names@, whole.name@, #[trigger] wanted@[k]@),
            decreases wanted.len() - i,
        {
            let name = wanted[i].as_str();
            proof {
                if contained {
                    assert(known(old(self).names@, whole.name@, wanted@[i as int]@));
                    assert(self.names@[position as int] == whole.name);
                    if in_names(old(self).names@, name@) {
                        let k = choose|k: int| 0 <= k < old(self).names@.len() && (#[trigger] old(self).names@[k])@ == name@;
                        assert(self.names@[k]@ == name@);
                    }
                    if name@ == whole.name@ {
                        assert(self.names@[position as int]@ == name@);
                    }
                }
            }
            if !is_standard(name) && position_of(&self.names, name).is_none() {
                match source.source(name) {
                    None => {
                        let mut m = text("module `");
                        append(&mut m, name);
                        append(&mut m, "` is neither a standard module nor one that could be found");
                        return Err(Error::Undefined(m));
                    },
                    Some(src) => {
                        let parsed = match parse_module(src.as_str()) {
                            Ok(m) => m,
                            Err(e) => return Err(Error::Syntax(e)),
                        };
                        let ghost before = self.names@;
                        let res = self.add(parsed, source, budget - 1);
                        proof {
                            assert(self.names@.subrange(0, position + 1) =~= before.subrange(0, position + 1));
                            assert(self.names@.subrange(0, old(self).names.len() as int) =~= before.subrange(0, old(self).names.len() as int));
                        }
                        res?;
                    },
                }
            }
            i = i + 1;
        }
        proof {
            assert(self.names@.subrange(0, position + 1)[position as int] == self.names@[position as int]);
            assert(self.names@[position as int] == whole.name);
        }
        Ok(position)
    }
}

/// A name a module refers to that needs nothing loaded: a standard module,
/// one already registered, or the module itself.
pub open spec fn known(names: Seq<String>, own: Seq<char>, w: Seq<char>) -> bool {
    spec_is_standard(w) || in_names(names, w) || w == own
}

/// A module that holds no inner module and refers only to modules that need
/// nothing loaded.
pub open spec fn self_contained(names: Seq<String>, module: Module) -> bool {
    &&& forall|u: int| 0 <= u < module.units.len() ==> !(#[trigger] module.units@[u] is Inner)
    &&& forall|e: int| 0 <= e < module.extends.len() ==> known(names, module.name@, #[trigger] module.extends@[e]@)
    &&& forall|u: int| 0 <= u < module.units.len()
        ==> (#[trigger] module.units@[u] matches Unit::Instance { module: t, .. } ==> known(names, module.name@, t@))
}

/// Does the unit declare `n`, as a variable or as a constant?
pub open spec fn unit_declares(u: Unit, variables: bool, n: Seq<char>) -> bool {
    match u {
        Unit::Variables(vs) => variables && exists|j: int| 0 <= j < vs.len() && (#[trigger] vs@[j])@ == n,
        Unit::Constants(ds) => !variables && exists|j: int| 0 <= j < ds.len() && (#[trigger] ds@[j]).name@ == n,
        _ => false,
    }
}

/// Does one of the first `i` units declare `n`?
pub open spec fn declared_before(units: Seq<Unit>, variables: bool, n: Seq<char>, i: int) -> bool {
    exists|i2: int| 0 <= i2 < i && i2 < units.len() && #[trigger] unit_declares(units[i2], variables, n)
}

/// The names a module declares itself, sorted: its variables, or its
/// constants.
fn own_names(module: &Module, variables: bool) -> (r: Vec<String>)
    ensures
        names_sorted(r@),
        forall|n: Seq<char>| #[trigger] in_names(r@, n)
            <==> declared_before(module.units@, variables, n, module.units.len() as int),
{
    let mut out: Vec<String> = Vec::new();
    let mut i: usize = 0;
    let ghost units = module.units@;
    while i < module.units.len()
        invariant
            units == module.units@,
            i <= module.units.len(),
            names_sorted(out@),
            forall|n: Seq<char>| #[trigger] in_names(out@, n) <==> declared_before(units, variables, n, i as int),
        decreases module.units.len() - i,
    {
        match &module.units[i] {
            Unit::Variables(vs) => {
                if variables {
                    let mut j: usize = 0;
                    while j < vs.len()
                        invariant
                            j <= vs.len(),
                            names_sorted(out@),
                            forall|n: Seq<char>| #[trigger] in_names(out@, n) <==> (declared_before(units, variables, n, i as int)
                                || exists|j2: int| 0 <= j2 < j && (#[trigger] vs@[j2])@ == n),
                        decreases vs.len() - j,
                    {
                        insert_name(&mut out, &vs[j]);
                        proof {
                            assert forall|n: Seq<char>| #[trigger] in_names(out@, n) <==> (declared_before(units, variables, n, i as int)
                                || exists|j2: int| 0 <= j2 < j + 1 && (#[trigger] vs@[j2])@ == n) by {
                                if exists|j2: int| 0 <= j2 < j + 1 && (#[trigger] vs@[j2])@ == n {
                                    let j2 = choose|j2: int| 0 <= j2 < j + 1 && (#[trigger] vs@[j2])@ == n;
                                    if j2 < j {
                                        assert(exists|j3: int| 0 <= j3 < j && (#[trigger] vs@[j3])@ == n);
                                    }
                                }
                            }
                        }
                        j = j + 1;
                    }
                }
            },
            Unit::Constants(ds) => {
                if !variables {
                    let mut j: usize = 0;
                    while j < ds.len()
                        invariant
                            j <= ds.len(),
                            names_sorted(out@),
                            forall|n: Seq<char>| #[trigger] in_names(out@, n) <==> (declared_before(units, variables, n, i as int)
                                || exists|j2: int| 0 <= j2 < j && (#[trigger] ds@[j2]).name@ == n),
                        decreases ds.len() - j,
                    {
                        insert_name(&mut out, &ds[j].name);
                        proof {
                            assert forall|n: Seq<char>| #[trigger] in_names(out@, n) <==> (declared_before(units, variables, n, i as int)
                                || exists|j2: int| 0 <= j2 < j + 1 && (#[trigger] ds@[j2]).name@ == n) by {
                                if exists|j2: int| 0 <= j2 < j + 1 && (#[trigger] ds@[j2]).name@ == n {
                                    let j2 = choose|j2: int| 0 <= j2 < j + 1 && (#[trigger] ds@[j2]).name@ == n;
                                    if j2 < j {
                                        assert(exists|j3: int| 0 <= j3 < j && (#[trigger] ds@[j3]).name@ == n);
                                    }
                                }
                            }
                        }
                        j = j + 1;
                    }
                }
            },
            _ => {},
        }
        proof {
            assert forall|n: Seq<char>| #[trigger] in_names(out@, n) <==> declared_before(units, variables, n, i + 1) by {
                if declared_before(units, variables, n, i + 1) {
                    let i2 = choose|i2: int| 0 <= i2 < i + 1 && i2 < units.len() && #[trigger] unit_declares(units[i2], variables, n);
                    if i2 < i {
                        assert(declared_before(units, variables, n, i as int));
                    }
                }
                if declared_before(units, variables, n, i as int) {
                    let i2 = choose|i2: int| 0 <= i2 < i && i2 < units.len() && #[trigger] unit_declares(units[i2], variables, n);
                    assert(unit_declares(units[i2], variables, n));
                }
                if in_names(out@, n) && !declared_before(units, variables, n, i as int) {
                    assert(unit_declares(units[i as int], variables, n));
                }
            }
        }
        i = i + 1;
    }
    out
}

/// Work out, for every module, what it declares and inherits, what it reaches
/// and which instances it holds.
/// Module `i` extends no module that is registered: everything it names in
/// `EXTENDS` is standard, or missing.
pub open spec fn isolated(modules: Seq<Module>, names: Seq<String>, i: int) -> bool {
    forall|e: int| 0 <= e < modules[i].extends.len() ==> !in_names(names, #[trigger] modules[i].extends@[e]@)
}

/// Every `INSTANCE` in the modules names a module that is registered.
pub open spec fn instances_known(modules: Seq<Module>, names: Seq<String>) -> bool {
    forall|i: int, u: int| 0 <= i < modules.len() && 0 <= u < modules[i].units.len()
        ==> (#[trigger] modules[i].units@[u] matches Unit::Instance { module: t, .. } ==> in_names(names, t@))
}

fn resolve(modules: &Vec<Module>, names: &Vec<String>) -> (r: Result<Vec<Facts>, Error>)
    requires
        modules.len() == names.len(),
    ensures
        r matches Ok(facts) ==> facts.len() == modules.len(),
        r is Ok <==> instances_known(modules@, names@),
        r matches Err(e) ==> e is Undefined,
        r matches Ok(facts) ==> forall|i: int| 0 <= i < modules.len() && #[trigger] isolated(modules@, names@, i) ==> {
            &&& facts@[i].reach@ == seq![i as usize]
            &&& forall|nm: Seq<char>| #[trigger] in_names(facts@[i].variables@, nm)
                <==> declared_before(modules@[i].units@, true, nm, modules@[i].units.len() as int)
            &&& forall|nm: Seq<char>| #[trigger] in_names(facts@[i].constants@, nm)
                <==> declared_before(modules@[i].units@, false, nm, modules@[i].units.len() as int)
        },
{
    let n = modules.len();
    let mut edges: Vec<Vec<usize>> = Vec::new();
    let mut own_variables: Vec<Vec<String>> = Vec::new();
    let mut own_constants: Vec<Vec<String>> = Vec::new();
    let mut i: usize = 0;
    while i < n
        invariant
            n == modules.len(),
            i <= n,
            edges.len() == i,
            own_variables.len() == i,
            own_constants.len() == i,
            forall|i2: int| 0 <= i2 < i && #[trigger] isolated(modules@, names@, i2) ==> edges@[i2].len() == 0,
            forall|i2: int, nm: Seq<char>| 0 <= i2 < i ==> (#[trigger] in_names(own_variables@[i2]@, nm)
                <==> declared_before(modules@[i2].units@, true, nm, modules@[i2].units.len() as int)),
            forall|i2: int, nm: Seq<char>| 0 <= i2 < i ==> (#[trigger] in_names(own_constants@[i2]@, nm)
                <==> declared_before(modules@[i2].units@, false, nm, modules@[i2].units.len() as int)),
        decreases n - i,
    {
        let module = &modules[i];
        let mut parents: Vec<usize> = Vec::new();
        let mut j: usize = 0;
        while j < module.extends.len()
            invariant
                j <= module.extends.len(),
                *module == modules@[i as int],
                (forall|e: int| 0 <= e < j ==> !in_names(names@, #[trigger] module.extends@[e]@)) ==> parents.len() == 0,
            decreases module.extends.len() - j,
        {
            if let Some(p) = position_of(names, module.extends[j].as_str()) {
                proof {
                    assert(in_names(names@, module.extends@[j as int]@));
                }
                parents.push(p);
            }
            j = j + 1;
        }
        proof {
            if isolated(modules@, names@, i as int) {
                assert forall|e: int| 0 <= e < j implies !in_names(names@, #[trigger] module.extends@[e]@) by {
                    assert(modules@[i as int].extends@[e] == module.extends@[e]);
                }
            }
        }
        edges.push(parents);
        own_variables.push(own_names(module, true));
        own_constants.push(own_names(module, false));
        i = i + 1;
    }

    // A module declares whatever it extends declares.
    let mut facts: Vec<Facts> = Vec::new();
    let mut i: usize = 0;
    while i < n
        invariant
            n == modules.len(),
            n == edges.len(),
            n == own_variables.len(),
            n == own_constants.len(),
            i <= n,
            facts.len() == i,
            forall|i2: int| 0 <= i2 < n && #[trigger] isolated(modules@, names@, i2) ==> edges@[i2].len() == 0,
            forall|i2: int, nm: Seq<char>| 0 <= i2 < n ==> (#[trigger] in_names(own_variables@[i2]@, nm)
                <==> declared_before(modules@[i2].units@, true, nm, modules@[i2].units.len() as int)),
            forall|i2: int, nm: Seq<char>| 0 <= i2 < n ==> (#[trigger] in_names(own_constants@[i2]@, nm)
                <==> declared_before(modules@[i2].units@, false, nm, modules@[i2].units.len() as int)),
            forall|i2: int| 0 <= i2 < i && edges@[i2].len() == 0 ==> {
                &&& (#[trigger] facts@[i2]).reach@ == seq![i2 as usize]
                &&& forall|nm: Seq<char>| #[trigger] in_names(facts@[i2].variables@, nm) <==> in_names(own_variables@[i2]@, nm)
                &&& forall|nm: Seq<char>| #[trigger] in_names(facts@[i2].constants@, nm) <==> in_names(own_constants@[i2]@, nm)
            },
        decreases n - i,
    {
        let reach = preorder(&edges, i);
        let mut variables: Vec<String> = Vec::new();
        let mut constants: Vec<String> = Vec::new();
        let mut k: usize = 0;
        while k < reach.len()
            invariant
                n == own_variables.len(),
                n == own_constants.len(),
                k <= reach.len(),
                forall|q: int| 0 <= q < reach.len() ==> #[trigger] reach@[q] < n,
                i < n,
                reach@ == seq![i] ==> (forall|nm: Seq<char>| #[trigger] in_names(variables@, nm)
                    <==> (k >= 1 && in_names(own_variables@[i as int]@, nm))),
                reach@ == seq![i] ==> (forall|nm: Seq<char>| #[trigger] in_names(constants@, nm)
                    <==> (k >= 1 && in_names(own_constants@[i as int]@, nm))),
            decreases reach.len() - k,
        {
            let m = reach[k];
            let vs = &own_variables[m];
            let ghost vars0 = variables@;
            let mut j: usize = 0;
            while j < vs.len()
                invariant
                    j <= vs.len(),
                    forall|nm: Seq<char>| #[trigger] in_names(variables@, nm)
                        <==> (in_names(vars0, nm) || exists|j2: int| 0 <= j2 < j && (#[trigger] vs@[j2])@ == nm),
                decreases vs.len() - j,
            {
                insert_name(&mut variables, &vs[j]);
                proof {
                    assert forall|nm: Seq<char>| #[trigger] in_names(variables@, nm)
                        <==> (in_names(vars0, nm) || exists|j2: int| 0 <= j2 < j + 1 && (#[trigger] vs@[j2])@ == nm) by {
                        if exists|j2: int| 0 <= j2 < j + 1 && (#[trigger] vs@[j2])@ == nm {
                            let j2 = choose|j2: int| 0 <= j2 < j + 1 && (#[trigger] vs@[j2])@ == nm;
                            if j2 < j {
                                assert(exists|j3: int| 0 <= j3 < j && (#[trigger] vs@[j3])@ == nm);
                            }
                        }
                    }
                }
                j = j + 1;
            }
            let cs = &own_constants[m];
            let ghost consts0 = constants@;
            let mut j: usize = 0;
            while j < cs.len()
                invariant
                    j <= cs.len(),
                    forall|nm: Seq<char>| #[trigger] in_names(constants@, nm)
                        <==> (in_names(consts0, nm) || exists|j2: int| 0 <= j2 < j && (#[trigger] cs@[j2])@ == nm),
                decreases cs.len() - j,
            {
                insert_name(&mut constants, &cs[j]);
                proof {
                    assert forall|nm: Seq<char>| #[trigger] in_names(constants@, nm)
                        <==> (in_names(consts0, nm) || exists|j2: int| 0 <= j2 < j + 1 && (#[trigger] cs@[j2])@ == nm) by {
                        if exists|j2: int| 0 <= j2 < j + 1 && (#[trigger] cs@[j2])@ == nm {
                            let j2 = choose|j2: int| 0 <= j2 < j + 1 && (#[trigger] cs@[j2])@ == nm;
                            if j2 < j {
                                assert(exists|j3: int| 0 <= j3 < j && (#[trigger] cs@[j3])@ == nm);
                            }
                        }
                    }
                }
                j = j + 1;
            }
            proof {
                if reach@ == seq![i] {
                    assert(m == i);
                    assert forall|nm: Seq<char>| #[trigger] in_names(variables@, nm)
                        <==> (k + 1 >= 1 && in_names(own_variables@[i as int]@, nm)) by {
                        if in_names(own_variables@[i as int]@, nm) {
                            let q = choose|q: int| 0 <= q < own_variables@[i as int].len() && (#[trigger] own_variables@[i as int]@[q])@ == nm;
                            assert(vs@[q]@ == nm);
                        }
                    }
                    assert forall|nm: Seq<char>| #[trigger] in_names(constants@, nm)
                        <==> (k + 1 >= 1 && in_names(own_constants@[i as int]@, nm)) by {
                        if in_names(own_constants@[i as int]@, nm) {
                            let q = choose|q: int| 0 <= q < own_constants@[i as int].len() && (#[trigger] own_constants@[i as int]@[q])@ == nm;
                            assert(cs@[q]@ == nm);
                        }
                    }
                }
            }
            k = k + 1;
        }
        let ghost (vars_made, consts_made, reach_made) = (variables@, constants@, reach@);
        facts.push(Facts { variables, constants, reach, instances: Vec::new() });
        proof {
            assert(facts@[i as int].reach@ == reach_made && facts@[i as int].variables@ == vars_made
                && facts@[i as int].constants@ == consts_made);
        }
        i = i + 1;
    }

    let ghost built = facts@;
    proof {
        assert forall|i2: int| 0 <= i2 < n && #[trigger] isolated(modules@, names@, i2) implies {
            &&& built[i2].reach@ == seq![i2 as usize]
            &&& forall|nm: Seq<char>| #[trigger] in_names(built[i2].variables@, nm)
                <==> declared_before(modules@[i2].units@, true, nm, modules@[i2].units.len() as int)
            &&& forall|nm: Seq<char>| #[trigger] in_names(built[i2].constants@, nm)
                <==> declared_before(modules@[i2].units@, false, nm, modules@[i2].units.len() as int)
        } by {
            assert(edges@[i2].len() == 0);
            assert(facts@[i2] == built[i2]);
            assert forall|nm: Seq<char>| #[trigger] in_names(built[i2].variables@, nm)
                <==> declared_before(modules@[i2].units@, true, nm, modules@[i2].units.len() as int) by {
                assert(in_names(own_variables@[i2]@, nm) <==> declared_before(modules@[i2].units@, true, nm, modules@[i2].units.len() as int));
            }
            assert forall|nm: Seq<char>| #[trigger] in_names(built[i2].constants@, nm)
                <==> declared_before(modules@[i2].units@, false, nm, modules@[i2].units.len() as int) by {
                assert(in_names(own_constants@[i2]@, nm) <==> declared_before(modules@[i2].units@, false, nm, modules@[i2].units.len() as int));
            }
        }
    }
    let mut i: usize = 0;
    while i < n
        invariant
            n == modules.len(),
            n == names.len(),
            n == facts.len(),
            i <= n,
            built.len() == n,
            forall|i2: int| 0 <= i2 < n ==> (#[trigger] facts@[i2]).reach == built[i2].reach
                && facts@[i2].variables == built[i2].variables && facts@[i2].constants == built[i2].constants,
            forall|i2: int| 0 <= i2 < n && #[trigger] isolated(modules@, names@, i2) ==> {
                &&& built[i2].reach@ == seq![i2 as usize]
                &&& forall|nm: Seq<char>| #[trigger] in_names(built[i2].variables@, nm)
                    <==> declared_before(modules@[i2].units@, true, nm, modules@[i2].units.len() as int)
                &&& forall|nm: Seq<char>| #[trigger] in_names(built[i2].constants@, nm)
                    <==> declared_before(modules@[i2].units@, false, nm, modules@[i2].units.len() as int)
            },
            forall|i2: int, u: int| 0 <= i2 < i && 0 <= u < modules@[i2].units.len()
                ==> (#[trigger] modules@[i2].units@[u] matches Unit::Instance { module: t, .. } ==> in_names(names@, t@)),
        decreases n - i,
    {
        let module = &modules[i];
        let mut instances: Vec<Instance> = Vec::new();
        let mut u: usize = 0;
        while u < module.units.len()
            invariant
                n == facts.len(),
                n == names.len(),
                n == modules.len(),
                i < n,
                *module == modules@[i as int],
                u <= module.units.len(),
                forall|i2: int, u2: int| 0 <= i2 < i && 0 <= u2 < modules@[i2].units.len()
                    ==> (#[trigger] modules@[i2].units@[u2] matches Unit::Instance { module: t, .. } ==> in_names(names@, t@)),
                forall|u2: int| 0 <= u2 < u
                    ==> (#[trigger] module.units@[u2] matches Unit::Instance { module: t, .. } ==> in_names(names@, t@)),
            decreases module.units.len() - u,
        {
            if let Unit::Instance { name, module: target_name, subs } = &module.units[u] {
                let target = match position_of(names, target_name.as_str()) {
                    Some(t) => t,
                    None => {
                        proof {
                            assert(!in_names(names@, target_name@));
                            assert(modules@[i as int].units@[u as int] matches Unit::Instance { module: t, .. } && !in_names(names@, t@));
                        }
                        let mut m = text("INSTANCE of unknown module `");
                        append(&mut m, target_name.as_str());
                        append(&mut m, "`");
                        return Err(Error::Undefined(m));
                    },
                };
                let implicit = omitted(&facts[target], subs);
                let copied_name = match name {
                    Some(s) => Some(s.clone()),
                    None => None,
                };
                instances.push(Instance { name: copied_name, target, module: i, unit: u, implicit });
                proof { assert(names@[target as int]@ == target_name@); }
            }
            u = u + 1;
        }
        facts[i].instances = instances;
        i = i + 1;
    }
    Ok(facts)
}

/// Does the `WITH` clause `given` substitute for `n`?
pub open spec fn substitutes(given: Seq<(String, Expr)>, n: Seq<char>) -> bool {
    exists|j: int| 0 <= j < given.len() && (#[trigger] given[j]).0@ == n
}

/// Each of `declared` that `given` does not substitute, standing for itself,
/// in order.
pub open spec fn left_out(declared: Seq<String>, given: Seq<(String, Expr)>) -> Seq<(String, Expr)>
    decreases declared.len(),
{
    if declared.len() == 0 {
        Seq::empty()
    } else {
        left_out(declared.drop_last(), given) + if substitutes(given, declared.last()@) {
            Seq::empty()
        } else {
            seq![(declared.last(), Expr::Ident(declared.last()))]
        }
    }
}

/// The names `target` declares, constants first, that `given` does not
/// substitute, each standing for itself.
fn omitted(target: &Facts, given: &Vec<(String, Expr)>) -> (r: Vec<(String, Expr)>)
    ensures
        r@ == left_out(target.constants@, given@) + left_out(target.variables@, given@),
{
    let mut out: Vec<(String, Expr)> = Vec::new();
    let mut pass: usize = 0;
    while pass < 2
        invariant
            pass <= 2,
            pass == 0 ==> out@ == Seq::<(String, Expr)>::empty(),
            pass == 1 ==> out@ == left_out(target.constants@, given@),
            pass == 2 ==> out@ == left_out(target.constants@, given@) + left_out(target.variables@, given@),
        decreases 2 - pass,
    {
        let declared = if pass == 0 { &target.constants } else { &target.variables };
        let ghost start = out@;
        proof { assert(declared@.take(0) =~= Seq::<String>::empty()); }
        let mut k: usize = 0;
        while k < declared.len()
            invariant
                k <= declared.len(),
                out@ == start + left_out(declared@.take(k as int), given@),
            decreases declared.len() - k,
        {
            let name = &declared[k];
            let mut named = false;
            let mut j: usize = 0;
            while j < given.len()
                invariant
                    j <= given.len(),
                    named == exists|j2: int| 0 <= j2 < j && (#[trigger] given@[j2]).0@ == name@,
                decreases given.len() - j,
            {
                if str_eq(given[j].0.as_str(), name.as_str()) {
                    named = true;
                }
                j = j + 1;
            }
            proof {
                assert(declared@.take(k + 1).drop_last() =~= declared@.take(k as int));
                assert(declared@.take(k + 1).last() == *name);
            }
            let ghost mid = out@;
            if !named {
                out.push((name.clone(), Expr::Ident(name.clone())));
            }
            proof {
                if named {
                    assert(out@ =~= start + left_out(declared@.take(k + 1), given@));
                } else {
                    assert(out@ =~= start + left_out(declared@.take(k + 1), given@));
                }
            }
            k = k + 1;
        }
        proof {
            assert(declared@.take(k as int) =~= declared@);
            if pass == 0 {
                assert(out@ =~= left_out(target.constants@, given@));
            }
        }
        pass = pass + 1;
    }
    out
}

impl Spec {
    /// How many modules the specification holds.
    pub closed spec fn module_count(&self) -> nat {
        self.modules@.len()
    }

    /// The module at a position.
    pub closed spec fn module_at(&self, i: int) -> Module {
        self.modules@[i]
    }

    /// The position of the root module.
    pub closed spec fn root_at(&self) -> int {
        self.root as int
    }

    /// Does `module` declare the variable `name`, itself or through
    /// `EXTENDS`?
    pub closed spec fn declares_var(&self, module: int, name: Seq<char>) -> bool {
        0 <= module < self.facts.len()
            && exists|k: int| 0 <= k < self.facts@[module].variables.len()
                && (#[trigger] self.facts@[module].variables@[k])@ == name
    }

    /// Does `module` declare the constant `name`, itself or through
    /// `EXTENDS`?
    pub closed spec fn declares_const(&self, module: int, name: Seq<char>) -> bool {
        0 <= module < self.facts.len()
            && exists|k: int| 0 <= k < self.facts@[module].constants.len()
                && (#[trigger] self.facts@[module].constants@[k])@ == name
    }

    /// The definition of `name` that `module` sees: its own, or the first
    /// found searching what it extends depth first; with the position of the
    /// module that holds it.
    pub closed spec fn definition_of(&self, module: int, name: Seq<char>) -> Option<(int, Def)> {
        if 0 <= module < self.facts.len() {
            first_in(self.modules@, self.facts@[module].reach@, name)
        } else {
            None
        }
    }

    /// The instance named `name` that `module` sees: the first so named
    /// among its own, then among those of what it extends, depth first.
    pub closed spec fn instance_of(&self, module: int, name: Seq<char>) -> Option<Instance> {
        if 0 <= module < self.facts.len() {
            instance_in(self.facts@, self.facts@[module].reach@, name)
        } else {
            None
        }
    }

    /// The variables the root module declares or inherits.
    pub closed spec fn root_variables(&self) -> Seq<String> {
        if self.root < self.facts.len() { self.facts@[self.root as int].variables@ } else { Seq::empty() }
    }

    /// The constants the root module declares or inherits.
    pub closed spec fn root_constants(&self) -> Seq<String> {
        if self.root < self.facts.len() { self.facts@[self.root as int].constants@ } else { Seq::empty() }
    }

    /// The root is one of the modules, and every module has its facts.
    pub closed spec fn well_formed(&self) -> bool {
        self.root < self.modules.len() && self.facts.len() == self.modules.len()
    }

    /// Parse a self-contained specification. `EXTENDS` of a standard module
    /// is honoured; anything else it names is reported as missing.
    pub fn parse(src: &str) -> (r: Result<Spec, Error>)
        ensures
            r matches Err(e) ==> e is Undefined || e is Malformed || e is Syntax,
            r matches Ok(s) ==> s.well_formed(),
            source_tokens(src@) is None ==> (r matches Err(Error::Syntax(e)) && e.stage == Stage::Lex),
            source_tokens(src@) matches Some(ts) ==> (bare_module_source(ts) ==> (r matches Ok(s)
                && ts[2].0 == TokV::Ident(s.module_at(s.root_at()).name@))),
            source_tokens(src@) is Some ==> exists|toks: Seq<Token>| #[trigger] lexed(src@, toks)
                && load_agrees(r, g_module(toks, 0, Seq::empty(), 0, DEFAULT_NESTING_LIMIT as int)),
    {
        Self::load(src, &NoModules)
    }

    /// Parse a specification, finding the modules it names through `modules`.
    pub fn load<M: Modules>(src: &str, modules: &M) -> (r: Result<Spec, Error>)
        ensures
            r matches Err(e) ==> e is Undefined || e is Malformed || e is Syntax,
            r matches Ok(s) ==> s.well_formed(),
            source_tokens(src@) is None ==> (r matches Err(Error::Syntax(e)) && e.stage == Stage::Lex),
            source_tokens(src@) matches Some(ts) ==> (bare_module_source(ts) ==> (r matches Ok(s)
                && ts[2].0 == TokV::Ident(s.module_at(s.root_at()).name@))),
            source_tokens(src@) is Some ==> exists|toks: Seq<Token>| #[trigger] lexed(src@, toks)
                && load_agrees(r, g_module(toks, 0, Seq::empty(), 0, DEFAULT_NESTING_LIMIT as int)),
    {
        let read = parse_module(src);
        let ghost toks = choose|toks: Seq<Token>| #[trigger] lexed(src@, toks)
            && agrees_module(read, g_module(toks, 0, Seq::empty(), 0, DEFAULT_NESTING_LIMIT as int));
        let ghost g = g_module(toks, 0, Seq::empty(), 0, DEFAULT_NESTING_LIMIT as int);
        proof {
            lemma_module_plain(toks, 0, Seq::empty(), 0, DEFAULT_NESTING_LIMIT as int);
        }
        let root = match read {
            Ok(m) => m,
            Err(e) => return Err(Error::Syntax(e)),
        };
        let ghost parsed = root;
        let ghost simple = g matches Some(Ok((d, _))) && (forall|k: int| 0 <= k < d.1.len() ==> spec_is_standard(#[trigger] d.1[k]@));
        proof {
            if simple {
                let d = g->Some_0->Ok_0.0;
                assert(module_is(parsed, d));
                assert forall|u: int| 0 <= u < parsed.units.len() implies !(#[trigger] parsed.units@[u] is Inner)
                    && !(parsed.units@[u] is Instance) by {
                    assert((d.2[u])(parsed.units@[u]));
                }
                assert forall|e: int| 0 <= e < parsed.extends.len() implies known(Seq::empty(), parsed.name@, #[trigger] parsed.extends@[e]@) by {
                    assert(parsed.extends@[e] == d.1[e]);
                }
                assert(self_contained(Seq::empty(), parsed));
            }
        }
        let mut builder = Builder { modules: Vec::new(), names: Vec::new() };
        proof {
            assert(!in_names(builder.names@, parsed.name@));
        }
        let root = builder.add(root, modules, MAX_MODULE_NESTING)?;
        proof {
            if parsed.units.len() == 0 && parsed.extends.len() == 0 {
                assert(self_contained(Seq::<String>::empty(), parsed));
                assert(builder.modules@[0].units@.len() == 0);
                assert(instances_known(builder.modules@, builder.names@));
                assert(builder.names@[0] == parsed.name);
            }
            if simple {
                let d = g->Some_0->Ok_0.0;
                assert(builder.modules@.len() == 1);
                assert forall|i: int, u: int| 0 <= i < builder.modules@.len() && 0 <= u < builder.modules@[i].units.len()
                    implies !(#[trigger] builder.modules@[i].units@[u] is Instance) by {
                    assert(builder.modules@[i].units@[u] == parsed.units@[u]);
                    assert((d.2[u])(parsed.units@[u]));
                }
                assert(instances_known(builder.modules@, builder.names@));
                assert(module_is(builder.modules@[0], d)) by {
                    assert(builder.modules@[0].units@ == parsed.units@);
                    assert(builder.modules@[0].extends == parsed.extends);
                }
            }
        }
        let facts = resolve(&builder.modules, &builder.names)?;
        let ghost modules = builder.modules@;
        let ghost names = builder.names@;
        let spec = Spec { modules: builder.modules, facts, root };
        proof {
            if simple && !spec_is_standard(parsed.name@) {
                let d = g->Some_0->Ok_0.0;
                assert(root == 0);
                assert forall|e: int| 0 <= e < modules[0].extends.len() implies !in_names(names, #[trigger] modules[0].extends@[e]@) by {
                    assert(modules[0].extends@[e] == d.1[e]);
                    if in_names(names, modules[0].extends@[e]@) {
                        let k = choose|k: int| 0 <= k < names.len() && (#[trigger] names[k])@ == modules[0].extends@[e]@;
                        assert(k == 0);
                    }
                }
                assert(isolated(modules, names, 0));
                reveal_with_fuel(first_in, 2);
                assert forall|n: Seq<char>| #[trigger] spec.definition_of(spec.root_at(), n) == match first_definition(spec.module_at(spec.root_at()).units@, n) {
                    Some(d) => Some((spec.root_at(), d)),
                    None => None,
                } by {
                    assert(spec.facts@[0].reach@ == seq![0usize]);
                    assert(spec.facts@[0].reach@.drop_first() =~= Seq::<usize>::empty());
                }
                assert forall|n: Seq<char>| #[trigger] spec.declares_var(spec.root_at(), n)
                    <==> declared_before(spec.module_at(spec.root_at()).units@, true, n, spec.module_at(spec.root_at()).units.len() as int) by {
                    assert(in_names(spec.facts@[0].variables@, n) <==> declared_before(modules[0].units@, true, n, modules[0].units.len() as int));
                }
                assert forall|n: Seq<char>| #[trigger] spec.declares_const(spec.root_at(), n)
                    <==> declared_before(spec.module_at(spec.root_at()).units@, false, n, spec.module_at(spec.root_at()).units.len() as int) by {
                    assert(in_names(spec.facts@[0].constants@, n) <==> declared_before(modules[0].units@, false, n, modules[0].units.len() as int));
                }
            }
        }
        Ok(spec)
    }

    /// The name of the root module.
    pub fn name(&self) -> (r: &str)
        ensures
            self.well_formed() ==> r@ == self.module_at(self.root_at()).name@,
    {
        if self.root < self.modules.len() {
            self.modules[self.root].name.as_str()
        } else {
            ""
        }
    }

    /// The variables of the root module, including any it inherits, sorted.
    pub fn variables(&self) -> (r: Vec<String>)
        ensures
            r@ == self.root_variables(),
    {
        if self.root < self.facts.len() {
            self.facts[self.root].variables.clone()
        } else {
            Vec::new()
        }
    }

    /// The constants of the root module, including any it inherits, sorted.
    pub fn constants(&self) -> (r: Vec<String>)
        ensures
            r@ == self.root_constants(),
    {
        if self.root < self.facts.len() {
            self.facts[self.root].constants.clone()
        } else {
            Vec::new()
        }
    }

    /// Does the root module define `name`, itself or through `EXTENDS`?
    pub fn defines(&self, name: &str) -> (r: bool)
        ensures
            r == self.definition_of(self.root_at(), name@) is Some,
    {
        self.definition(self.root, name).is_some()
    }

    pub(crate) fn root(&self) -> (r: usize)
        ensures
            r == self.root_at(),
    {
        self.root
    }

    pub(crate) fn declares_variable(&self, module: usize, name: &str) -> (r: bool)
        ensures
            r == self.declares_var(module as int, name@),
    {
        module < self.facts.len() && has_name(&self.facts[module].variables, name)
    }

    pub(crate) fn declares_constant(&self, module: usize, name: &str) -> (r: bool)
        ensures
            r == self.declares_const(module as int, name@),
    {
        module < self.facts.len() && has_name(&self.facts[module].constants, name)
    }

    /// Find a definition, following `EXTENDS`. The module it was found in
    /// comes back with it, because that is the scope its body must be read in.
    pub(crate) fn definition(&self, module: usize, name: &str) -> (r: Option<(usize, &Def)>)
        ensures
            r matches Some((m, d)) ==> m < self.module_count()
                && first_definition(self.module_at(m as int).units@, name@) == Some(*d)
                && self.definition_of(module as int, name@) == Some((m as int, *d)),
            r is None ==> self.definition_of(module as int, name@) is None,
    {
        if module >= self.facts.len() {
            return None;
        }
        let reach = &self.facts[module].reach;
        let mut k: usize = 0;
        proof { assert(reach@.skip(0) =~= reach@); }
        while k < reach.len()
            invariant
                k <= reach.len(),
                module < self.facts.len(),
                *reach == self.facts@[module as int].reach,
                first_in(self.modules@, reach@, name@) == first_in(self.modules@, reach@.skip(k as int), name@),
            decreases reach.len() - k,
        {
            let m = reach[k];
            proof {
                assert(reach@.skip(k as int)[0] == m);
                assert(reach@.skip(k as int).drop_first() =~= reach@.skip(k + 1));
            }
            if m < self.modules.len() {
                if let Some(d) = self.modules[m].definition(name) {
                    return Some((m, d));
                }
            }
            k = k + 1;
        }
        None
    }

    /// Find an instance by the name it was given, following `EXTENDS`.
    pub(crate) fn instance(&self, module: usize, name: &str) -> (r: Option<&Instance>)
        ensures
            r matches Some(i) ==> (i.name matches Some(n) && n@ == name@),
            r matches Some(i) ==> self.instance_of(module as int, name@) == Some(*i),
            r is None <==> self.instance_of(module as int, name@) is None,
    {
        if module >= self.facts.len() {
            return None;
        }
        let reach = &self.facts[module].reach;
        let mut k: usize = 0;
        proof { assert(reach@.skip(0) =~= reach@); }
        while k < reach.len()
            invariant
                k <= reach.len(),
                module < self.facts.len(),
                *reach == self.facts@[module as int].reach,
                self.instance_of(module as int, name@) == instance_in(self.facts@, reach@.skip(k as int), name@),
            decreases reach.len() - k,
        {
            let m = reach[k];
            proof {
                assert(reach@.skip(k as int)[0] == m);
                assert(reach@.skip(k as int).drop_first() =~= reach@.skip(k + 1));
            }
            if m < self.facts.len() {
                let instances = &self.facts[m].instances;
                let mut j: usize = 0;
                proof { assert(instances@.skip(0) =~= instances@); }
                while j < instances.len()
                    invariant
                        j <= instances.len(),
                        m < self.facts.len(),
                        *instances == self.facts@[m as int].instances,
                        named_instance(instances@, name@) == named_instance(instances@.skip(j as int), name@),
                        k < reach.len(),
                        reach@.skip(k as int)[0] == m,
                        self.instance_of(module as int, name@) == instance_in(self.facts@, reach@.skip(k as int), name@),
                    decreases instances.len() - j,
                {
                    proof {
                        assert(instances@.skip(j as int)[0] == instances@[j as int]);
                        assert(instances@.skip(j as int).drop_first() =~= instances@.skip(j + 1));
                    }
                    if let Some(n) = &instances[j].name {
                        if str_eq(n.as_str(), name) {
                            proof {
                                assert(named_instance(instances@.skip(j as int), name@) == Some(instances@[j as int]));
                                assert(named_instance(self.facts@[m as int].instances@, name@) == Some(instances@[j as int]));
                                assert(instance_in(self.facts@, reach@.skip(k as int), name@) == Some(instances@[j as int]));
                            }
                            return Some(&instances[j]);
                        }
                    }
                    j = j + 1;
                }
                proof { assert(instances@.skip(j as int) =~= Seq::<Instance>::empty()); }
            }
            k = k + 1;
        }
        proof { assert(reach@.skip(k as int) =~= Seq::<usize>::empty()); }
        None
    }

    /// The `WITH` clause an instance was written with.
    pub(crate) fn written_substitutions(&self, instance: &Instance) -> (r: Option<&Vec<(String, Expr)>>)
        ensures
            r matches Some(subs) ==> instance.module < self.module_count()
                && instance.unit < self.module_at(instance.module as int).units.len()
                && (self.module_at(instance.module as int).units@[instance.unit as int] matches Unit::Instance { subs: s, .. }
                    && s == *subs),
            r is Some <==> (instance.module < self.module_count()
                && instance.unit < self.module_at(instance.module as int).units.len()
                && self.module_at(instance.module as int).units@[instance.unit as int] is Instance),
    {
        if instance.module < self.modules.len() && instance.unit < self.modules[instance.module].units.len() {
            match &self.modules[instance.module].units[instance.unit] {
                Unit::Instance { subs, .. } => Some(subs),
                _ => None,
            }
        } else {
            None
        }
    }
}

} // verus!
