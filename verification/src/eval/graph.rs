//! Functions as values: their graphs, lookups in them, and the one
//! representation each function has.

use vstd::prelude::*;
use crate::eval::value::{
    chars_order, compare, compare_text, copy, lemma_chars_order_antisym, lemma_chars_order_trans,
    lemma_chars_order_zero, lemma_view_fields_len, lemma_view_pairs_len, lemma_vorder_antisym,
    lemma_view_list_len, lemma_vorder_trans, lemma_vorder_zero, copy_pairs, holds, sorted, view_fields, view_list,
    view_of, view_pairs, vorder, Rel, Value, VV,
};

verus! {

/// The result the last pair with argument `k` gives, if any pair has it.
pub open spec fn lookup<K, V>(g: Seq<(K, V)>, k: K) -> Option<V>
    decreases g.len(),
{
    if g.len() == 0 {
        None
    } else if g.last().0 == k {
        Some(g.last().1)
    } else {
        lookup(g.drop_last(), k)
    }
}

/// No argument occurs in two pairs.
pub open spec fn distinct_keys<K, V>(g: Seq<(K, V)>) -> bool {
    forall|i: int, j: int| #![trigger g[i], g[j]] 0 <= i < j < g.len() ==> g[i].0 != g[j].0
}

/// The arguments strictly increase in the value order.
pub open spec fn keys_sorted(g: Seq<(VV, VV)>) -> bool {
    forall|i: int, j: int| #![trigger g[i], g[j]] 0 <= i < j < g.len() ==> vorder(g[i].0, g[j].0) < 0
}

/// The same, for a list of pairs not yet viewed.
pub open spec fn pairs_sorted(s: Seq<(Value, Value)>) -> bool {
    forall|i: int, j: int| #![trigger s[i], s[j]] 0 <= i < j < s.len() ==> vorder(s[i].0@, s[j].0@) < 0
}

/// Is the value a function: a sequence, a record or a general function?
pub open spec fn is_function(v: VV) -> bool {
    v is Sequence || v is Record || v is Func
}

/// The graph of a function value, in the order the value holds it: a
/// sequence maps `1..n` to its elements, a record maps field names to field
/// values. Other values have an empty graph.
pub open spec fn graph(v: VV) -> Seq<(VV, VV)> {
    match v {
        VV::Sequence(items) => Seq::new(items.len(), |i: int| (VV::Int(i + 1), items[i])),
        VV::Record(fields) => Seq::new(fields.len(), |i: int| (VV::Str(fields[i].0), fields[i].1)),
        VV::Func(pairs) => pairs,
        _ => Seq::empty(),
    }
}

/// The one representation of the function whose graph is `g`: a sequence
/// when the arguments are `1..n` in order, a record when every argument is a
/// string, a general function otherwise.
pub open spec fn canonical(g: Seq<(VV, VV)>) -> VV {
    if forall|i: int| 0 <= i < g.len() ==> #[trigger] g[i].0 == VV::Int(i + 1) {
        VV::Sequence(Seq::new(g.len(), |i: int| g[i].1))
    } else if forall|i: int| 0 <= i < g.len() ==> #[trigger] g[i].0 is Str {
        VV::Record(Seq::new(g.len(), |i: int| (g[i].0->Str_0, g[i].1)))
    } else {
        VV::Func(g)
    }
}

/// In a graph without repeated arguments, the lookup finds the one pair
/// with the argument, or nothing when no pair has it.
pub proof fn lemma_lookup_distinct<K, V>(g: Seq<(K, V)>, k: K)
    requires
        distinct_keys(g),
    ensures
        lookup(g, k) is None <==> (forall|i: int| 0 <= i < g.len() ==> (#[trigger] g[i]).0 != k),
        forall|i: int| 0 <= i < g.len() && (#[trigger] g[i]).0 == k ==> lookup(g, k) == Some(g[i].1),
    decreases g.len(),
{
    if g.len() > 0 {
        let h = g.drop_last();
        assert forall|i: int, j: int| #![trigger h[i], h[j]] 0 <= i < j < h.len() implies h[i].0 != h[j].0 by {
            assert(h[i] == g[i] && h[j] == g[j]);
        }
        lemma_lookup_distinct(h, k);
        let n = g.len() - 1;
        if g[n].0 == k {
            assert forall|i: int| 0 <= i < g.len() && (#[trigger] g[i]).0 == k implies lookup(g, k) == Some(g[i].1) by {
                if i < n {
                    assert(g[i].0 != g[n].0);
                }
            }
        } else {
            assert forall|i: int| 0 <= i < g.len() && (#[trigger] g[i]).0 == k implies lookup(g, k) == Some(g[i].1) by {
                assert(h[i] == g[i]);
            }
            if lookup(g, k) is None {
                assert forall|i: int| 0 <= i < g.len() implies (#[trigger] g[i]).0 != k by {
                    if i < n {
                        assert(h[i] == g[i]);
                    }
                }
            }
        }
    }
}

/// Sorted arguments are distinct.
pub proof fn lemma_sorted_distinct(g: Seq<(VV, VV)>)
    requires
        keys_sorted(g),
    ensures
        distinct_keys(g),
{
    assert forall|i: int, j: int| #![trigger g[i], g[j]] 0 <= i < j < g.len() implies g[i].0 != g[j].0 by {
        lemma_vorder_zero(g[i].0, g[i].0);
    }
}

/// A list of pairs is sorted exactly when its view is.
pub proof fn lemma_pairs_sorted_view(s: Seq<(Value, Value)>)
    ensures
        pairs_sorted(s) <==> keys_sorted(view_pairs(s)),
{
    lemma_view_pairs_len(s);
    let g = view_pairs(s);
    if pairs_sorted(s) {
        assert forall|i: int, j: int| #![trigger g[i], g[j]] 0 <= i < j < g.len() implies vorder(g[i].0, g[j].0) < 0 by {
            assert(s[i].0@ == g[i].0 && s[j].0@ == g[j].0);
        }
    }
    if keys_sorted(g) {
        assert forall|i: int, j: int| #![trigger s[i], s[j]] 0 <= i < j < s.len() implies vorder(s[i].0@, s[j].0@) < 0 by {
            assert(s[i].0@ == g[i].0 && s[j].0@ == g[j].0);
        }
    }
}

/// Two sorted graphs that give the same result at every argument are the
/// same graph.
pub proof fn lemma_sorted_graphs_equal(a: Seq<(VV, VV)>, b: Seq<(VV, VV)>)
    requires
        keys_sorted(a),
        keys_sorted(b),
        forall|k: VV| #[trigger] lookup(a, k) == lookup(b, k),
    ensures
        a == b,
    decreases a.len(),
{
    lemma_sorted_distinct(a);
    lemma_sorted_distinct(b);
    if a.len() == 0 {
        if b.len() > 0 {
            lemma_lookup_distinct(b, b[0].0);
            lemma_lookup_distinct(a, b[0].0);
            assert(lookup(a, b[0].0) == lookup(b, b[0].0));
        }
        assert(a =~= b);
    } else {
        let k0 = a[0].0;
        lemma_lookup_distinct(a, k0);
        lemma_lookup_distinct(b, k0);
        assert(lookup(a, k0) == lookup(b, k0));
        let j = choose|j: int| 0 <= j < b.len() && (#[trigger] b[j]).0 == k0;
        let k1 = b[0].0;
        lemma_lookup_distinct(a, k1);
        lemma_lookup_distinct(b, k1);
        assert(lookup(a, k1) == lookup(b, k1));
        let i = choose|i: int| 0 <= i < a.len() && (#[trigger] a[i]).0 == k1;
        if i > 0 && j > 0 {
            assert(vorder(a[0].0, a[i].0) < 0);
            assert(vorder(b[0].0, b[j].0) < 0);
            lemma_vorder_antisym(k0, k1);
        }
        assert(k0 == k1);
        assert(a[0] == b[0]);
        let ta = a.drop_first();
        let tb = b.drop_first();
        assert forall|x: int, y: int| #![trigger ta[x], ta[y]] 0 <= x < y < ta.len() implies vorder(ta[x].0, ta[y].0) < 0 by {
            assert(ta[x] == a[x + 1] && ta[y] == a[y + 1]);
        }
        assert forall|x: int, y: int| #![trigger tb[x], tb[y]] 0 <= x < y < tb.len() implies vorder(tb[x].0, tb[y].0) < 0 by {
            assert(tb[x] == b[x + 1] && tb[y] == b[y + 1]);
        }
        lemma_sorted_distinct(ta);
        lemma_sorted_distinct(tb);
        assert forall|k: VV| #[trigger] lookup(ta, k) == lookup(tb, k) by {
            lemma_lookup_distinct(ta, k);
            lemma_lookup_distinct(tb, k);
            lemma_lookup_distinct(a, k);
            lemma_lookup_distinct(b, k);
            if k == k0 {
                assert forall|x: int| 0 <= x < ta.len() implies (#[trigger] ta[x]).0 != k by {
                    assert(ta[x] == a[x + 1]);
                }
                assert forall|x: int| 0 <= x < tb.len() implies (#[trigger] tb[x]).0 != k by {
                    assert(tb[x] == b[x + 1]);
                }
            } else {
                assert(lookup(a, k) == lookup(b, k));
                if lookup(a, k) is None {
                    assert forall|x: int| 0 <= x < ta.len() implies (#[trigger] ta[x]).0 != k by {
                        assert(ta[x] == a[x + 1]);
                    }
                    assert forall|x: int| 0 <= x < tb.len() implies (#[trigger] tb[x]).0 != k by {
                        assert(tb[x] == b[x + 1]);
                    }
                } else {
                    let x = choose|x: int| 0 <= x < a.len() && (#[trigger] a[x]).0 == k;
                    let y = choose|y: int| 0 <= y < b.len() && (#[trigger] b[y]).0 == k;
                    assert(ta[x - 1] == a[x]);
                    assert(tb[y - 1] == b[y]);
                }
            }
        }
        lemma_sorted_graphs_equal(ta, tb);
        assert(a =~= b) by {
            assert forall|x: int| 0 <= x < a.len() implies a[x] == b[x] by {
                if x > 0 {
                    assert(a[x] == ta[x - 1] && b[x] == tb[x - 1]);
                }
            }
        }
    }
}

/// A function has one representation: two values in their canonical form
/// whose graphs are sorted and give the same result at every argument are
/// the same value. Equality of functions is equality of values, and a
/// function rebuilt from its own graph is the function it was read from.
pub proof fn law_one_representation(a: VV, b: VV)
    requires
        keys_sorted(graph(a)),
        keys_sorted(graph(b)),
        a == canonical(graph(a)),
        b == canonical(graph(b)),
        forall|k: VV| #[trigger] lookup(graph(a), k) == lookup(graph(b), k),
    ensures
        a == b,
{
    lemma_sorted_graphs_equal(graph(a), graph(b));
}

/// The arguments of the graph are exactly the integers `1..n`, `n` its
/// length.
pub open spec fn arguments_one_to_n(g: Seq<(VV, VV)>) -> bool {
    forall|k: VV| #[trigger] lookup(g, k) is Some <==> (k is Int && 1 <= k->Int_0 <= g.len())
}

/// Every argument of the graph is a string.
pub open spec fn arguments_strings(g: Seq<(VV, VV)>) -> bool {
    forall|k: VV| #[trigger] lookup(g, k) is Some ==> k is Str
}

/// Sorted integer arguments, each in `1..n`, are `1, 2, ..., n` in turn:
/// the `i`th is at least `i + 1` ...
proof fn lemma_sorted_ints_from_below(g: Seq<(VV, VV)>, i: int)
    requires
        keys_sorted(g),
        0 <= i < g.len(),
        forall|x: int| 0 <= x < g.len() ==> (#[trigger] g[x]).0 is Int && 1 <= g[x].0->Int_0 <= g.len(),
    ensures
        g[i].0->Int_0 >= i + 1,
    decreases i,
{
    if i > 0 {
        lemma_sorted_ints_from_below(g, i - 1);
        assert(vorder(g[i - 1].0, g[i].0) < 0);
    }
}

/// ... and at most `i + 1`.
proof fn lemma_sorted_ints_from_above(g: Seq<(VV, VV)>, i: int)
    requires
        keys_sorted(g),
        0 <= i < g.len(),
        forall|x: int| 0 <= x < g.len() ==> (#[trigger] g[x]).0 is Int && 1 <= g[x].0->Int_0 <= g.len(),
    ensures
        g[i].0->Int_0 <= i + 1,
    decreases g.len() - i,
{
    if i < g.len() - 1 {
        lemma_sorted_ints_from_above(g, i + 1);
        assert(vorder(g[i].0, g[i + 1].0) < 0);
    }
}

/// A function value takes the representation its domain implies: it is a
/// sequence exactly when its arguments are `1..n`, a record exactly when
/// it has arguments and all are strings, and a general function otherwise.
pub proof fn law_representation_follows_domain(r: VV)
    requires
        keys_sorted(graph(r)),
        r == canonical(graph(r)),
    ensures
        r is Sequence <==> arguments_one_to_n(graph(r)),
        r is Record <==> (graph(r).len() > 0 && arguments_strings(graph(r))),
        r is Func <==> !arguments_one_to_n(graph(r)) && !(graph(r).len() > 0 && arguments_strings(graph(r))),
{
    let g = graph(r);
    lemma_sorted_distinct(g);
    assert forall|k: VV| #[trigger] lookup(g, k) is Some <==> exists|x: int| 0 <= x < g.len() && (#[trigger] g[x]).0 == k by {
        lemma_lookup_distinct(g, k);
        if exists|x: int| 0 <= x < g.len() && (#[trigger] g[x]).0 == k {
            let x = choose|x: int| 0 <= x < g.len() && (#[trigger] g[x]).0 == k;
            assert(g[x].0 == k);
        }
    }
    let first = forall|i: int| 0 <= i < g.len() ==> #[trigger] g[i].0 == VV::Int(i + 1);
    let strings = forall|i: int| 0 <= i < g.len() ==> #[trigger] g[i].0 is Str;
    if first {
        assert forall|k: VV| #[trigger] lookup(g, k) is Some <==> (k is Int && 1 <= k->Int_0 <= g.len()) by {
            if k is Int && 1 <= k->Int_0 <= g.len() {
                assert(g[k->Int_0 - 1].0 == k);
            }
        }
    }
    if arguments_one_to_n(g) {
        assert forall|x: int| 0 <= x < g.len() implies (#[trigger] g[x]).0 is Int && 1 <= g[x].0->Int_0 <= g.len() by {
            assert(lookup(g, g[x].0) is Some);
        }
        assert forall|i: int| 0 <= i < g.len() implies #[trigger] g[i].0 == VV::Int(i + 1) by {
            lemma_sorted_ints_from_below(g, i);
            lemma_sorted_ints_from_above(g, i);
        }
        assert(first);
    }
    if strings {
        assert forall|k: VV| #[trigger] lookup(g, k) is Some implies k is Str by {
            let x = choose|x: int| 0 <= x < g.len() && (#[trigger] g[x]).0 == k;
        }
    }
    if arguments_strings(g) {
        assert forall|i: int| 0 <= i < g.len() implies #[trigger] g[i].0 is Str by {
            assert(lookup(g, g[i].0) is Some);
        }
        assert(strings);
    }
    if g.len() > 0 && strings {
        assert(g[0].0 is Str);
        assert(!first);
    }
}

/// A lookup finds something exactly when some pair has the argument.
pub proof fn lemma_lookup_some<K, V>(g: Seq<(K, V)>, k: K)
    ensures
        lookup(g, k) is Some <==> exists|i: int| 0 <= i < g.len() && (#[trigger] g[i]).0 == k,
    decreases g.len(),
{
    if g.len() > 0 {
        let d = g.drop_last();
        lemma_lookup_some(d, k);
        if g.last().0 == k {
            assert(g[g.len() - 1].0 == k);
        } else {
            if exists|i: int| 0 <= i < g.len() && (#[trigger] g[i]).0 == k {
                let i = choose|i: int| 0 <= i < g.len() && (#[trigger] g[i]).0 == k;
                assert(i != g.len() - 1);
                assert(d[i].0 == k);
            }
            if exists|i: int| 0 <= i < d.len() && (#[trigger] d[i]).0 == k {
                let i = choose|i: int| 0 <= i < d.len() && (#[trigger] d[i]).0 == k;
                assert(g[i].0 == k);
            }
        }
    }
}

/// What `domain` lists is what `entries` lists the arguments of: a value
/// is in the domain exactly when some pair of the graph has it as its
/// argument.
pub proof fn law_domain_matches_entries(v: VV, e: Seq<(Value, Value)>, d: Seq<Value>)
    requires
        view_pairs(e) == graph(v),
        view_list(d) == Seq::new(graph(v).len(), |i: int| graph(v)[i].0),
    ensures
        forall|k: VV| #[trigger] view_list(d).contains(k) <==> lookup(view_pairs(e), k) is Some,
{
    let g = graph(v);
    assert forall|k: VV| #[trigger] view_list(d).contains(k) <==> lookup(view_pairs(e), k) is Some by {
        lemma_lookup_some(g, k);
        if view_list(d).contains(k) {
            let i = choose|i: int| 0 <= i < view_list(d).len() && view_list(d)[i] == k;
            assert(g[i].0 == k);
        }
        if lookup(g, k) is Some {
            let i = choose|i: int| 0 <= i < g.len() && (#[trigger] g[i]).0 == k;
            assert(view_list(d)[i] == k);
        }
    }
}

/// A record's graph maps each field name, as a string, to its value.
pub proof fn lemma_record_lookup(f: Seq<(Seq<char>, VV)>, k: Seq<char>)
    requires
        distinct_keys(f),
    ensures
        lookup(graph(VV::Record(f)), VV::Str(k)) == lookup(f, k),
{
    let g = graph(VV::Record(f));
    assert forall|i: int, j: int| #![trigger g[i], g[j]] 0 <= i < j < g.len() implies g[i].0 != g[j].0 by {
        assert(f[i].0 != f[j].0);
    }
    lemma_lookup_distinct(g, VV::Str(k));
    lemma_lookup_distinct(f, k);
    if lookup(f, k) is None {
        assert forall|i: int| 0 <= i < g.len() implies (#[trigger] g[i]).0 != VV::Str(k) by {
            assert(f[i].0 != k);
        }
    } else {
        let i = choose|i: int| 0 <= i < f.len() && (#[trigger] f[i]).0 == k;
        assert(g[i].0 == VV::Str(k));
    }
}

/// Two records with sorted field names that give the same value for every
/// name are the same record.
pub proof fn lemma_records_equal(f1: Seq<(Seq<char>, VV)>, f2: Seq<(Seq<char>, VV)>)
    requires
        names_sorted(f1),
        names_sorted(f2),
        forall|k: Seq<char>| #[trigger] lookup(f1, k) == lookup(f2, k),
    ensures
        f1 == f2,
{
    let g1 = graph(VV::Record(f1));
    let g2 = graph(VV::Record(f2));
    lemma_names_distinct(f1);
    lemma_names_distinct(f2);
    assert forall|i: int, j: int| #![trigger g1[i], g1[j]] 0 <= i < j < g1.len() implies vorder(g1[i].0, g1[j].0) < 0 by {
        assert(chars_order(f1[i].0, f1[j].0) < 0);
    }
    assert forall|i: int, j: int| #![trigger g2[i], g2[j]] 0 <= i < j < g2.len() implies vorder(g2[i].0, g2[j].0) < 0 by {
        assert(chars_order(f2[i].0, f2[j].0) < 0);
    }
    lemma_sorted_distinct(g1);
    lemma_sorted_distinct(g2);
    assert forall|k: VV| #[trigger] lookup(g1, k) == lookup(g2, k) by {
        match k {
            VV::Str(name) => {
                lemma_record_lookup(f1, name);
                lemma_record_lookup(f2, name);
            },
            _ => {
                lemma_lookup_distinct(g1, k);
                lemma_lookup_distinct(g2, k);
                assert forall|i: int| 0 <= i < g1.len() implies (#[trigger] g1[i]).0 != k by {}
                assert forall|i: int| 0 <= i < g2.len() implies (#[trigger] g2[i]).0 != k by {}
            },
        }
    }
    lemma_sorted_graphs_equal(g1, g2);
    assert(f1.len() == g1.len() && f2.len() == g2.len());
    assert forall|i: int| 0 <= i < f1.len() implies f1[i] == f2[i] by {
        assert(g1[i] == g2[i]);
    }
    assert(f1 =~= f2);
}

/// The values strictly increase in the value order.
pub open spec fn values_sorted(t: Seq<VV>) -> bool {
    forall|i: int, j: int| #![trigger t[i], t[j]] 0 <= i < j < t.len() ==> vorder(t[i], t[j]) < 0
}

/// Two sorted lists holding the same values are the same list.
pub proof fn lemma_sets_equal(a: Seq<VV>, b: Seq<VV>)
    requires
        values_sorted(a),
        values_sorted(b),
        forall|y: VV| #![trigger a.contains(y)] #![trigger b.contains(y)] a.contains(y) <==> b.contains(y),
    ensures
        a == b,
    decreases a.len(),
{
    if a.len() == 0 {
        if b.len() > 0 {
            assert(b.contains(b[0]));
        }
        assert(a =~= b);
    } else {
        assert(a.contains(a[0]));
        assert(b.contains(a[0]));
        assert(b.contains(b[0]));
        assert(a.contains(b[0]));
        let i = choose|i: int| 0 <= i < b.len() && b[i] == a[0];
        let j = choose|j: int| 0 <= j < a.len() && a[j] == b[0];
        if i > 0 && j > 0 {
            assert(vorder(b[0], b[i]) < 0);
            assert(vorder(a[0], a[j]) < 0);
            lemma_vorder_antisym(a[0], b[0]);
        }
        assert(a[0] == b[0]);
        let ta = a.drop_first();
        let tb = b.drop_first();
        assert forall|x: int, y: int| #![trigger ta[x], ta[y]] 0 <= x < y < ta.len() implies vorder(ta[x], ta[y]) < 0 by {
            assert(ta[x] == a[x + 1] && ta[y] == a[y + 1]);
        }
        assert forall|x: int, y: int| #![trigger tb[x], tb[y]] 0 <= x < y < tb.len() implies vorder(tb[x], tb[y]) < 0 by {
            assert(tb[x] == b[x + 1] && tb[y] == b[y + 1]);
        }
        assert forall|y: VV| #![trigger ta.contains(y)] #![trigger tb.contains(y)] ta.contains(y) <==> tb.contains(y) by {
            lemma_vorder_zero(a[0], a[0]);
            if ta.contains(y) {
                let k = choose|k: int| 0 <= k < ta.len() && ta[k] == y;
                assert(a[k + 1] == y);
                assert(a.contains(y));
                assert(vorder(a[0], a[k + 1]) < 0);
                let m = choose|m: int| 0 <= m < b.len() && b[m] == y;
                assert(m != 0);
                assert(tb[m - 1] == y);
            }
            if tb.contains(y) {
                let k = choose|k: int| 0 <= k < tb.len() && tb[k] == y;
                assert(b[k + 1] == y);
                assert(b.contains(y));
                assert(vorder(b[0], b[k + 1]) < 0);
                let m = choose|m: int| 0 <= m < a.len() && a[m] == y;
                assert(m != 0);
                assert(ta[m - 1] == y);
            }
        }
        lemma_sets_equal(ta, tb);
        assert forall|x: int| 0 <= x < a.len() implies a[x] == b[x] by {
            if x > 0 {
                assert(a[x] == ta[x - 1] && b[x] == tb[x - 1]);
            }
        }
        assert(a =~= b);
    }
}

/// The set holding the given values: sorted, without repeats.
pub open spec fn set_from(vs: Seq<VV>) -> Seq<VV> {
    choose|t: Seq<VV>| values_sorted(t) && forall|y: VV| #[trigger] t.contains(y) <==> vs.contains(y)
}

/// `t` with `v` put in its place in the value order, unless `t` holds it.
pub open spec fn insert_value(t: Seq<VV>, v: VV) -> Seq<VV>
    decreases t.len(),
{
    if t.len() == 0 {
        seq![v]
    } else if vorder(t.last(), v) < 0 {
        t.push(v)
    } else if t.last() == v {
        t
    } else {
        insert_value(t.drop_last(), v).push(t.last())
    }
}

/// The values of `vs`, sorted and without repeats.
pub open spec fn sort_values(vs: Seq<VV>) -> Seq<VV>
    decreases vs.len(),
{
    if vs.len() == 0 { Seq::empty() } else { insert_value(sort_values(vs.drop_last()), vs.last()) }
}

/// Putting a value into a sorted list keeps it sorted and adds the value.
proof fn lemma_insert_value(t: Seq<VV>, v: VV)
    requires
        values_sorted(t),
    ensures
        values_sorted(insert_value(t, v)),
        forall|y: VV| #[trigger] insert_value(t, v).contains(y) <==> (t.contains(y) || y == v),
    decreases t.len(),
{
    let r = insert_value(t, v);
    if t.len() == 0 {
        assert forall|y: VV| #[trigger] r.contains(y) <==> (t.contains(y) || y == v) by {
            if y == v {
                assert(r[0] == v);
            }
        }
    } else if vorder(t.last(), v) < 0 {
        assert forall|i: int, j: int| #![trigger r[i], r[j]] 0 <= i < j < r.len() implies vorder(r[i], r[j]) < 0 by {
            if j == t.len() && i < t.len() - 1 {
                assert(vorder(t[i], t[t.len() - 1]) < 0);
                lemma_vorder_trans(t[i], t.last(), v);
            }
        }
        assert forall|y: VV| #[trigger] r.contains(y) <==> (t.contains(y) || y == v) by {
            if r.contains(y) {
                let k = choose|k: int| 0 <= k < r.len() && r[k] == y;
                if k < t.len() {
                    assert(t[k] == y);
                }
            }
            if t.contains(y) {
                let k = choose|k: int| 0 <= k < t.len() && t[k] == y;
                assert(r[k] == y);
            }
            if y == v {
                assert(r[t.len() as int] == v);
            }
        }
    } else if t.last() == v {
        assert forall|y: VV| #[trigger] r.contains(y) <==> (t.contains(y) || y == v) by {
            if y == v {
                assert(t[t.len() - 1] == v);
            }
        }
    } else {
        let d = t.drop_last();
        let last = t.last();
        assert forall|i: int, j: int| #![trigger d[i], d[j]] 0 <= i < j < d.len() implies vorder(d[i], d[j]) < 0 by {
            assert(d[i] == t[i] && d[j] == t[j]);
        }
        lemma_insert_value(d, v);
        let s = insert_value(d, v);
        assert(r == s.push(last));
        lemma_vorder_zero(last, v);
        lemma_vorder_antisym(last, v);
        assert(vorder(v, last) < 0);
        assert forall|x: VV| #[trigger] s.contains(x) implies vorder(x, last) < 0 by {
            if d.contains(x) {
                let k = choose|k: int| 0 <= k < d.len() && d[k] == x;
                assert(t[k] == x);
                assert(vorder(t[k], t[t.len() - 1]) < 0);
            }
        }
        assert forall|i: int, j: int| #![trigger r[i], r[j]] 0 <= i < j < r.len() implies vorder(r[i], r[j]) < 0 by {
            if j == s.len() {
                assert(r[i] == s[i]);
                assert(s.contains(s[i]));
            } else {
                assert(r[i] == s[i] && r[j] == s[j]);
            }
        }
        assert forall|y: VV| #[trigger] r.contains(y) <==> (t.contains(y) || y == v) by {
            if r.contains(y) {
                let k = choose|k: int| 0 <= k < r.len() && r[k] == y;
                if k < s.len() {
                    assert(s[k] == y);
                    assert(s.contains(y));
                    if d.contains(y) {
                        let m = choose|m: int| 0 <= m < d.len() && d[m] == y;
                        assert(t[m] == y);
                    }
                } else {
                    assert(t[t.len() - 1] == y);
                }
            }
            if t.contains(y) {
                let k = choose|k: int| 0 <= k < t.len() && t[k] == y;
                if k < t.len() - 1 {
                    assert(d[k] == y);
                    assert(s.contains(y));
                    let m = choose|m: int| 0 <= m < s.len() && s[m] == y;
                    assert(r[m] == y);
                } else {
                    assert(r[s.len() as int] == y);
                }
            }
            if y == v {
                assert(s.contains(v));
                let m = choose|m: int| 0 <= m < s.len() && s[m] == v;
                assert(r[m] == v);
            }
        }
    }
}

/// Sorting keeps exactly the values given.
proof fn lemma_sort_values(vs: Seq<VV>)
    ensures
        values_sorted(sort_values(vs)),
        forall|y: VV| #[trigger] sort_values(vs).contains(y) <==> vs.contains(y),
    decreases vs.len(),
{
    if vs.len() > 0 {
        let d = vs.drop_last();
        lemma_sort_values(d);
        lemma_insert_value(sort_values(d), vs.last());
        assert forall|y: VV| #[trigger] sort_values(vs).contains(y) <==> vs.contains(y) by {
            if d.contains(y) {
                let k = choose|k: int| 0 <= k < d.len() && d[k] == y;
                assert(vs[k] == y);
            }
            if vs.contains(y) {
                let k = choose|k: int| 0 <= k < vs.len() && vs[k] == y;
                if k < vs.len() - 1 {
                    assert(d[k] == y);
                }
            }
        }
    } else {
        assert(sort_values(vs) =~= Seq::<VV>::empty());
    }
}

/// Every list of values has a set: `set_from` is sorted and holds exactly
/// the values given.
pub proof fn lemma_set_from_holds(vs: Seq<VV>)
    ensures
        values_sorted(set_from(vs)),
        forall|y: VV| #[trigger] set_from(vs).contains(y) <==> vs.contains(y),
{
    lemma_sort_values(vs);
    let t = sort_values(vs);
    assert(values_sorted(t) && forall|y: VV| #[trigger] t.contains(y) <==> vs.contains(y));
}

/// The record with the given fields: sorted by name, the last value given
/// for a name kept.
pub open spec fn record_from(fs: Seq<(Seq<char>, VV)>) -> Seq<(Seq<char>, VV)> {
    choose|f: Seq<(Seq<char>, VV)>| names_sorted(f) && forall|k: Seq<char>| #[trigger] lookup(f, k) == lookup(fs, k)
}

/// A list holds a value exactly when its view contains it.
pub proof fn lemma_holds_view(s: Seq<Value>, y: VV)
    ensures
        holds(s, y) <==> view_list(s).contains(y),
{
    lemma_view_list_len(s);
    if holds(s, y) {
        let k = choose|k: int| 0 <= k < s.len() && #[trigger] view_of(s[k]) == y;
        assert(view_list(s)[k] == y);
    }
    if view_list(s).contains(y) {
        let k = choose|k: int| 0 <= k < view_list(s).len() && view_list(s)[k] == y;
        assert(view_of(s[k]) == y);
    }
}

/// The set built by inserting values one by one is the set of those values.
pub proof fn lemma_set_from(out: Seq<Value>, vs: Seq<VV>)
    requires
        sorted(out),
        forall|y: VV| #[trigger] holds(out, y) <==> vs.contains(y),
    ensures
        view_list(out) == set_from(vs),
{
    let t = view_list(out);
    lemma_view_list_len(out);
    assert forall|i: int, j: int| #![trigger t[i], t[j]] 0 <= i < j < t.len() implies vorder(t[i], t[j]) < 0 by {
        assert(t[i] == out[i]@ && t[j] == out[j]@);
    }
    assert forall|y: VV| #![trigger t.contains(y)] #![trigger vs.contains(y)] t.contains(y) <==> vs.contains(y) by {
        if t.contains(y) {
            let k = choose|k: int| 0 <= k < t.len() && t[k] == y;
            assert(view_of(out[k]) == y);
            assert(holds(out, y));
        }
        if vs.contains(y) {
            assert(holds(out, y));
            let k = choose|k: int| 0 <= k < out.len() && #[trigger] view_of(out[k]) == y;
            assert(t[k] == y);
        }
    }
    assert(values_sorted(t) && forall|y: VV| #[trigger] t.contains(y) <==> vs.contains(y));
    let c = set_from(vs);
    assert(values_sorted(c) && forall|y: VV| #[trigger] c.contains(y) <==> vs.contains(y));
    lemma_sets_equal(t, c);
}

/// Where a sorted list holds exactly the given values, the set of those
/// values is sorted and holds exactly them.
pub proof fn lemma_set_from_members(out: Seq<Value>, vs: Seq<VV>)
    requires
        sorted(out),
        forall|y: VV| #[trigger] holds(out, y) <==> vs.contains(y),
    ensures
        values_sorted(set_from(vs)),
        forall|y: VV| #[trigger] set_from(vs).contains(y) <==> vs.contains(y),
{
    lemma_set_from(out, vs);
    let t = view_list(out);
    lemma_view_list_len(out);
    assert forall|i: int, j: int| #![trigger t[i], t[j]] 0 <= i < j < t.len() implies vorder(t[i], t[j]) < 0 by {
        assert(t[i] == out[i]@ && t[j] == out[j]@);
    }
    assert forall|y: VV| #[trigger] t.contains(y) <==> vs.contains(y) by {
        lemma_holds_view(out, y);
    }
}

/// The record built from the given fields is the record of those fields.
pub proof fn lemma_record_from(r: Seq<(Seq<char>, VV)>, fs: Seq<(Seq<char>, VV)>)
    requires
        names_sorted(r),
        forall|k: Seq<char>| #[trigger] lookup(r, k) == lookup(fs, k),
    ensures
        r == record_from(fs),
{
    assert(names_sorted(r) && forall|k: Seq<char>| #[trigger] lookup(r, k) == lookup(fs, k));
    let c = record_from(fs);
    assert(names_sorted(c) && forall|k: Seq<char>| #[trigger] lookup(c, k) == lookup(fs, k));
    assert forall|k: Seq<char>| #[trigger] lookup(r, k) == lookup(c, k) by {}
    lemma_records_equal(r, c);
}

/// The canonical form of a graph has that graph.
pub proof fn lemma_graph_of_canonical(g: Seq<(VV, VV)>)
    ensures
        graph(canonical(g)) == g,
{
    let c = canonical(g);
    if forall|i: int| 0 <= i < g.len() ==> #[trigger] g[i].0 == VV::Int(i + 1) {
        assert forall|i: int| 0 <= i < g.len() implies #[trigger] graph(c)[i] == g[i] by {
            assert(g[i].0 == VV::Int(i + 1));
        }
        assert(graph(c) =~= g);
    } else if forall|i: int| 0 <= i < g.len() ==> #[trigger] g[i].0 is Str {
        assert forall|i: int| 0 <= i < g.len() implies #[trigger] graph(c)[i] == g[i] by {
            assert(g[i].0 is Str);
        }
        assert(graph(c) =~= g);
    }
}

/// Looking up in a graph extended by one pair: the new pair wins for its
/// argument.
pub proof fn lemma_lookup_push<K, V>(g: Seq<(K, V)>, p: (K, V), k: K)
    ensures
        lookup(g.push(p), k) == if p.0 == k { Some(p.1) } else { lookup(g, k) },
{
    assert(g.push(p).drop_last() =~= g);
}

/// Where `key` belongs among pairs kept sorted by argument: the position of
/// the pair with that argument, or where such a pair would go.
fn search_pairs(pairs: &Vec<(Value, Value)>, key: &Value) -> (r: (usize, bool))
    ensures
        r.0 <= pairs.len(),
        r.1 ==> r.0 < pairs.len() && pairs@[r.0 as int].0@ == key@,
        pairs_sorted(pairs@) && !r.1 ==> (forall|i: int| 0 <= i < r.0 ==> vorder((#[trigger] pairs@[i]).0@, key@) < 0)
            && (forall|i: int| r.0 <= i < pairs.len() ==> vorder((#[trigger] pairs@[i]).0@, key@) > 0),
{
    let mut lo: usize = 0;
    let mut hi: usize = pairs.len();
    while lo < hi
        invariant
            lo <= hi <= pairs.len(),
            pairs_sorted(pairs@) ==> forall|i: int| 0 <= i < lo ==> vorder((#[trigger] pairs@[i]).0@, key@) < 0,
            pairs_sorted(pairs@) ==> forall|i: int| hi <= i < pairs.len() ==> vorder((#[trigger] pairs@[i]).0@, key@) > 0,
        decreases hi - lo,
    {
        let mid = lo + (hi - lo) / 2;
        match compare(&pairs[mid].0, key) {
            Rel::Less => {
                proof {
                    if pairs_sorted(pairs@) {
                        assert forall|i: int| 0 <= i < mid + 1 implies vorder((#[trigger] pairs@[i]).0@, key@) < 0 by {
                            if i < mid {
                                lemma_vorder_trans(pairs@[i].0@, pairs@[mid as int].0@, key@);
                            }
                        }
                    }
                }
                lo = mid + 1;
            },
            Rel::Equal => {
                proof { lemma_vorder_zero(pairs@[mid as int].0@, key@); }
                return (mid, true);
            },
            Rel::Greater => {
                proof {
                    if pairs_sorted(pairs@) {
                        lemma_vorder_antisym(pairs@[mid as int].0@, key@);
                        assert forall|i: int| mid <= i < pairs.len() implies vorder((#[trigger] pairs@[i]).0@, key@) > 0 by {
                            if i > mid {
                                lemma_vorder_trans(key@, pairs@[mid as int].0@, pairs@[i].0@);
                                lemma_vorder_antisym(key@, pairs@[i].0@);
                            }
                        }
                    }
                }
                hi = mid;
            },
        }
    }
    (lo, false)
}

/// Give `key` the result `value` in a list of pairs sorted by argument,
/// replacing the pair it had.
fn insert_pair(pairs: &mut Vec<(Value, Value)>, key: Value, value: Value)
    requires
        pairs_sorted(old(pairs)@),
    ensures
        pairs_sorted(final(pairs)@),
        forall|k: VV| #[trigger] lookup(view_pairs(final(pairs)@), k)
            == if k == key@ { Some(value@) } else { lookup(view_pairs(old(pairs)@), k) },
{
    let ghost before = pairs@;
    let ghost kv = key@;
    let ghost vv = value@;
    let (at, found) = search_pairs(pairs, &key);
    if found {
        pairs.set(at, (key, value));
        proof {
            assert forall|i: int, j: int| #![trigger pairs@[i], pairs@[j]] 0 <= i < j < pairs@.len() implies
                vorder(pairs@[i].0@, pairs@[j].0@) < 0 by {
                assert(before[i] == pairs@[i] || i == at);
                assert(before[j] == pairs@[j] || j == at);
                assert(vorder(before[i].0@, before[j].0@) < 0);
            }
        }
    } else {
        pairs.insert(at, (key, value));
        proof {
            assert forall|i: int, j: int| #![trigger pairs@[i], pairs@[j]] 0 <= i < j < pairs@.len() implies
                vorder(pairs@[i].0@, pairs@[j].0@) < 0 by {
                if j < at {
                    assert(pairs@[i] == before[i] && pairs@[j] == before[j]);
                } else if j == at {
                    assert(pairs@[i] == before[i]);
                } else if i == at {
                    assert(pairs@[j] == before[j - 1]);
                    lemma_vorder_antisym(before[j - 1].0@, kv);
                } else if i < at {
                    assert(pairs@[i] == before[i] && pairs@[j] == before[j - 1]);
                } else {
                    assert(pairs@[i] == before[i - 1] && pairs@[j] == before[j - 1]);
                }
            }
        }
    }
    proof {
        let g = view_pairs(before);
        let h = view_pairs(pairs@);
        lemma_view_pairs_len(before);
        lemma_view_pairs_len(pairs@);
        lemma_pairs_sorted_view(before);
        lemma_pairs_sorted_view(pairs@);
        lemma_sorted_distinct(g);
        lemma_sorted_distinct(h);
        assert(h[at as int] == (kv, vv));
        assert forall|k: VV| #[trigger] lookup(h, k) == if k == kv { Some(vv) } else { lookup(g, k) } by {
            lemma_lookup_distinct(g, k);
            lemma_lookup_distinct(h, k);
            if k != kv {
                if found {
                    assert forall|i: int| 0 <= i < h.len() && i != at implies #[trigger] h[i] == g[i] by {
                        assert(pairs@[i] == before[i]);
                    }
                    if lookup(g, k) is None {
                        assert forall|i: int| 0 <= i < h.len() implies (#[trigger] h[i]).0 != k by {
                            if i != at {
                                assert(h[i] == g[i]);
                            }
                        }
                    } else {
                        let x = choose|x: int| 0 <= x < g.len() && (#[trigger] g[x]).0 == k;
                        assert(x != at);
                        assert(h[x] == g[x]);
                    }
                } else {
                    assert forall|i: int| 0 <= i < at implies #[trigger] h[i] == g[i] by {
                        assert(pairs@[i] == before[i]);
                    }
                    assert forall|i: int| at < i < h.len() implies #[trigger] h[i] == g[i - 1] by {
                        assert(pairs@[i] == before[i - 1]);
                    }
                    if lookup(g, k) is None {
                        assert forall|i: int| 0 <= i < h.len() implies (#[trigger] h[i]).0 != k by {
                            if i < at {
                                assert(h[i] == g[i]);
                            } else if i > at {
                                assert(h[i] == g[i - 1]);
                            }
                        }
                    } else {
                        let x = choose|x: int| 0 <= x < g.len() && (#[trigger] g[x]).0 == k;
                        if x < at {
                            assert(h[x] == g[x]);
                        } else {
                            assert(h[x + 1] == g[x]);
                        }
                    }
                }
            }
        }
    }
}

/// The value a sorted graph stands for, in its canonical form.
fn canonical_value(pairs: Vec<(Value, Value)>) -> (r: Value)
    requires
        pairs_sorted(pairs@),
    ensures
        r@ == canonical(view_pairs(pairs@)),
{
    let ghost g = view_pairs(pairs@);
    proof { lemma_view_pairs_len(pairs@); }
    let mut one_to_n = true;
    let mut all_strings = true;
    let mut i: usize = 0;
    while i < pairs.len()
        invariant
            i <= pairs.len(),
            g == view_pairs(pairs@),
            g.len() == pairs.len(),
            forall|j: int| 0 <= j < pairs.len() ==> #[trigger] g[j] == (pairs@[j].0@, pairs@[j].1@),
            one_to_n <==> forall|j: int| 0 <= j < i ==> #[trigger] g[j].0 == VV::Int(j + 1),
            all_strings <==> forall|j: int| 0 <= j < i ==> #[trigger] g[j].0 is Str,
        decreases pairs.len() - i,
    {
        let ghost was_one = one_to_n;
        let ghost was_str = all_strings;
        assert(g[i as int] == (pairs@[i as int].0@, pairs@[i as int].1@));
        match &pairs[i].0 {
            Value::Int(n) => {
                all_strings = false;
                if (i as u64) >= (i64::MAX as u64) || *n != (i as i64) + 1 {
                    one_to_n = false;
                }
            },
            Value::Str(_) => one_to_n = false,
            _ => {
                one_to_n = false;
                all_strings = false;
            },
        }
        proof {
            if was_one && !one_to_n {
                assert(g[i as int].0 != VV::Int(i + 1));
            }
            if was_str && !all_strings {
                assert(!(g[i as int].0 is Str));
            }
        }
        i = i + 1;
    }
    if one_to_n {
        let mut values: Vec<Value> = Vec::new();
        let mut j: usize = 0;
        while j < pairs.len()
            invariant
                j <= pairs.len(),
                g.len() == pairs.len(),
                forall|x: int| 0 <= x < pairs.len() ==> #[trigger] g[x] == (pairs@[x].0@, pairs@[x].1@),
                values.len() == j,
                forall|x: int| 0 <= x < j ==> (#[trigger] values@[x])@ == g[x].1,
            decreases pairs.len() - j,
        {
            assert(g[j as int] == (pairs@[j as int].0@, pairs@[j as int].1@));
            values.push(copy(&pairs[j].1));
            j = j + 1;
        }
        proof {
            crate::eval::value::lemma_view_list_len(values@);
            assert(crate::eval::value::view_list(values@) =~= Seq::new(g.len(), |x: int| g[x].1));
        }
        return Value::Sequence(values);
    }
    if all_strings {
        let mut fields: Vec<(String, Value)> = Vec::new();
        let mut j: usize = 0;
        while j < pairs.len()
            invariant
                j <= pairs.len(),
                g.len() == pairs.len(),
                forall|x: int| 0 <= x < pairs.len() ==> #[trigger] g[x] == (pairs@[x].0@, pairs@[x].1@),
                forall|x: int| 0 <= x < pairs.len() ==> (#[trigger] g[x]).0 is Str,
                fields.len() == j,
                forall|x: int| 0 <= x < j ==> ((#[trigger] fields@[x]).0@, fields@[x].1@) == (g[x].0->Str_0, g[x].1),
            decreases pairs.len() - j,
        {
            assert(g[j as int] == (pairs@[j as int].0@, pairs@[j as int].1@));
            let name = match &pairs[j].0 {
                Value::Str(s) => s.clone(),
                _ => String::new(),
            };
            fields.push((name, copy(&pairs[j].1)));
            j = j + 1;
        }
        proof {
            crate::eval::value::lemma_view_fields_len(fields@);
            assert(crate::eval::value::view_fields(fields@) =~= Seq::new(g.len(), |x: int| (g[x].0->Str_0, g[x].1)));
        }
        return Value::Record(fields);
    }
    Value::Func(pairs)
}

/// The field names strictly increase.
pub open spec fn names_sorted(f: Seq<(Seq<char>, VV)>) -> bool {
    forall|i: int, j: int| #![trigger f[i], f[j]] 0 <= i < j < f.len() ==> chars_order(f[i].0, f[j].0) < 0
}

/// The same, for a list of fields not yet viewed.
pub open spec fn fields_sorted(s: Seq<(String, Value)>) -> bool {
    forall|i: int, j: int| #![trigger s[i], s[j]] 0 <= i < j < s.len() ==> chars_order(s[i].0@, s[j].0@) < 0
}

/// Sorted names are distinct.
pub proof fn lemma_names_distinct(f: Seq<(Seq<char>, VV)>)
    requires
        names_sorted(f),
    ensures
        distinct_keys(f),
{
    assert forall|i: int, j: int| #![trigger f[i], f[j]] 0 <= i < j < f.len() implies f[i].0 != f[j].0 by {
        lemma_chars_order_zero(f[i].0, f[i].0);
    }
}

/// A list of fields is sorted exactly when its view is.
pub proof fn lemma_fields_sorted_view(s: Seq<(String, Value)>)
    ensures
        fields_sorted(s) <==> names_sorted(view_fields(s)),
{
    lemma_view_fields_len(s);
    let f = view_fields(s);
    if fields_sorted(s) {
        assert forall|i: int, j: int| #![trigger f[i], f[j]] 0 <= i < j < f.len() implies chars_order(f[i].0, f[j].0) < 0 by {
            assert(s[i].0@ == f[i].0 && s[j].0@ == f[j].0);
        }
    }
    if names_sorted(f) {
        assert forall|i: int, j: int| #![trigger s[i], s[j]] 0 <= i < j < s.len() implies chars_order(s[i].0@, s[j].0@) < 0 by {
            assert(s[i].0@ == f[i].0 && s[j].0@ == f[j].0);
        }
    }
}

/// Where the field named `key` is among fields sorted by name, or where it
/// would go.
fn search_fields(fields: &Vec<(String, Value)>, key: &String) -> (r: (usize, bool))
    ensures
        r.0 <= fields.len(),
        r.1 ==> r.0 < fields.len() && fields@[r.0 as int].0@ == key@,
        fields_sorted(fields@) && !r.1 ==> (forall|i: int| 0 <= i < r.0 ==> chars_order((#[trigger] fields@[i]).0@, key@) < 0)
            && (forall|i: int| r.0 <= i < fields.len() ==> chars_order((#[trigger] fields@[i]).0@, key@) > 0),
{
    let mut lo: usize = 0;
    let mut hi: usize = fields.len();
    while lo < hi
        invariant
            lo <= hi <= fields.len(),
            fields_sorted(fields@) ==> forall|i: int| 0 <= i < lo ==> chars_order((#[trigger] fields@[i]).0@, key@) < 0,
            fields_sorted(fields@) ==> forall|i: int| hi <= i < fields.len() ==> chars_order((#[trigger] fields@[i]).0@, key@) > 0,
        decreases hi - lo,
    {
        let mid = lo + (hi - lo) / 2;
        match compare_text(&fields[mid].0, key) {
            Rel::Less => {
                proof {
                    if fields_sorted(fields@) {
                        assert forall|i: int| 0 <= i < mid + 1 implies chars_order((#[trigger] fields@[i]).0@, key@) < 0 by {
                            if i < mid {
                                lemma_chars_order_trans(fields@[i].0@, fields@[mid as int].0@, key@);
                            }
                        }
                    }
                }
                lo = mid + 1;
            },
            Rel::Equal => {
                proof { lemma_chars_order_zero(fields@[mid as int].0@, key@); }
                return (mid, true);
            },
            Rel::Greater => {
                proof {
                    if fields_sorted(fields@) {
                        lemma_chars_order_antisym(fields@[mid as int].0@, key@);
                        assert forall|i: int| mid <= i < fields.len() implies chars_order((#[trigger] fields@[i]).0@, key@) > 0 by {
                            if i > mid {
                                lemma_chars_order_trans(key@, fields@[mid as int].0@, fields@[i].0@);
                                lemma_chars_order_antisym(key@, fields@[i].0@);
                            }
                        }
                    }
                }
                hi = mid;
            },
        }
    }
    (lo, false)
}

/// Give the field `key` the value `value` among fields sorted by name,
/// replacing the value it had.
fn insert_field(fields: &mut Vec<(String, Value)>, key: String, value: Value)
    requires
        fields_sorted(old(fields)@),
    ensures
        fields_sorted(final(fields)@),
        forall|k: Seq<char>| #[trigger] lookup(view_fields(final(fields)@), k)
            == if k == key@ { Some(value@) } else { lookup(view_fields(old(fields)@), k) },
{
    let ghost before = fields@;
    let ghost kv = key@;
    let ghost vv = value@;
    let (at, found) = search_fields(fields, &key);
    if found {
        fields.set(at, (key, value));
        proof {
            assert forall|i: int, j: int| #![trigger fields@[i], fields@[j]] 0 <= i < j < fields@.len() implies
                chars_order(fields@[i].0@, fields@[j].0@) < 0 by {
                assert(before[i] == fields@[i] || i == at);
                assert(before[j] == fields@[j] || j == at);
                assert(chars_order(before[i].0@, before[j].0@) < 0);
            }
        }
    } else {
        fields.insert(at, (key, value));
        proof {
            assert forall|i: int, j: int| #![trigger fields@[i], fields@[j]] 0 <= i < j < fields@.len() implies
                chars_order(fields@[i].0@, fields@[j].0@) < 0 by {
                if j < at {
                    assert(fields@[i] == before[i] && fields@[j] == before[j]);
                } else if j == at {
                    assert(fields@[i] == before[i]);
                } else if i == at {
                    assert(fields@[j] == before[j - 1]);
                    lemma_chars_order_antisym(before[j - 1].0@, kv);
                } else if i < at {
                    assert(fields@[i] == before[i] && fields@[j] == before[j - 1]);
                } else {
                    assert(fields@[i] == before[i - 1] && fields@[j] == before[j - 1]);
                }
            }
        }
    }
    proof {
        let g = view_fields(before);
        let h = view_fields(fields@);
        lemma_view_fields_len(before);
        lemma_view_fields_len(fields@);
        lemma_fields_sorted_view(before);
        lemma_fields_sorted_view(fields@);
        lemma_names_distinct(g);
        lemma_names_distinct(h);
        assert(h[at as int] == (kv, vv));
        assert forall|k: Seq<char>| #[trigger] lookup(h, k) == if k == kv { Some(vv) } else { lookup(g, k) } by {
            lemma_lookup_distinct(g, k);
            lemma_lookup_distinct(h, k);
            if k != kv {
                if found {
                    assert forall|i: int| 0 <= i < h.len() && i != at implies #[trigger] h[i] == g[i] by {
                        assert(fields@[i] == before[i]);
                    }
                    if lookup(g, k) is None {
                        assert forall|i: int| 0 <= i < h.len() implies (#[trigger] h[i]).0 != k by {
                            if i != at {
                                assert(h[i] == g[i]);
                            }
                        }
                    } else {
                        let x = choose|x: int| 0 <= x < g.len() && (#[trigger] g[x]).0 == k;
                        assert(x != at);
                        assert(h[x] == g[x]);
                    }
                } else {
                    assert forall|i: int| 0 <= i < at implies #[trigger] h[i] == g[i] by {
                        assert(fields@[i] == before[i]);
                    }
                    assert forall|i: int| at < i < h.len() implies #[trigger] h[i] == g[i - 1] by {
                        assert(fields@[i] == before[i - 1]);
                    }
                    if lookup(g, k) is None {
                        assert forall|i: int| 0 <= i < h.len() implies (#[trigger] h[i]).0 != k by {
                            if i < at {
                                assert(h[i] == g[i]);
                            } else if i > at {
                                assert(h[i] == g[i - 1]);
                            }
                        }
                    } else {
                        let x = choose|x: int| 0 <= x < g.len() && (#[trigger] g[x]).0 == k;
                        if x < at {
                            assert(h[x] == g[x]);
                        } else {
                            assert(h[x + 1] == g[x]);
                        }
                    }
                }
            }
        }
    }
}

impl Value {
    /// The record with the given fields, sorted by name; where a name
    /// repeats, the last value is the one kept.
    pub fn record(fields: Vec<(String, Value)>) -> (r: Value)
        ensures
            r is Record,
            names_sorted(view_fields(r->Record_0@)),
            forall|k: Seq<char>| #[trigger] lookup(view_fields(r->Record_0@), k) == lookup(view_fields(fields@), k),
    {
        let mut out: Vec<(String, Value)> = Vec::new();
        let mut i: usize = 0;
        while i < fields.len()
            invariant
                i <= fields.len(),
                fields_sorted(out@),
                forall|k: Seq<char>| #[trigger] lookup(view_fields(out@), k) == lookup(view_fields(fields@.take(i as int)), k),
            decreases fields.len() - i,
        {
            let name = fields[i].0.clone();
            let value = copy(&fields[i].1);
            insert_field(&mut out, name, value);
            proof {
                let t = fields@.take(i + 1);
                assert(t.drop_last() =~= fields@.take(i as int));
                assert(view_fields(t) == view_fields(fields@.take(i as int)).push((name@, value@)));
                assert forall|k: Seq<char>| #[trigger] lookup(view_fields(out@), k) == lookup(view_fields(t), k) by {
                    lemma_lookup_push(view_fields(fields@.take(i as int)), (name@, value@), k);
                }
            }
            i = i + 1;
        }
        proof {
            assert(fields@.take(fields.len() as int) =~= fields@);
            lemma_fields_sorted_view(out@);
        }
        Value::Record(out)
    }

    /// The function with the given graph, in the representation its domain
    /// implies. Where an argument repeats, the last pair is the one kept.
    pub fn function(entries: Vec<(Value, Value)>) -> (r: Value)
        ensures
            keys_sorted(graph(r@)),
            r@ == canonical(graph(r@)),
            forall|k: VV| #[trigger] lookup(graph(r@), k) == lookup(view_pairs(entries@), k),
    {
        let mut pairs: Vec<(Value, Value)> = Vec::new();
        let mut i: usize = 0;
        while i < entries.len()
            invariant
                i <= entries.len(),
                pairs_sorted(pairs@),
                forall|k: VV| #[trigger] lookup(view_pairs(pairs@), k) == lookup(view_pairs(entries@.take(i as int)), k),
            decreases entries.len() - i,
        {
            let key = copy(&entries[i].0);
            let value = copy(&entries[i].1);
            let ghost before = pairs@;
            insert_pair(&mut pairs, key, value);
            proof {
                let t = entries@.take(i + 1);
                assert(t.drop_last() =~= entries@.take(i as int));
                assert(view_pairs(t) == view_pairs(entries@.take(i as int)).push((key@, value@)));
                assert forall|k: VV| #[trigger] lookup(view_pairs(pairs@), k) == lookup(view_pairs(t), k) by {
                    lemma_lookup_push(view_pairs(entries@.take(i as int)), (key@, value@), k);
                }
            }
            i = i + 1;
        }
        proof {
            assert(entries@.take(entries.len() as int) =~= entries@);
            lemma_pairs_sorted_view(pairs@);
        }
        let ghost g = view_pairs(pairs@);
        let r = canonical_value(pairs);
        proof {
            lemma_graph_of_canonical(g);
        }
        r
    }
}

/// An optional value, viewed.
pub open spec fn view_option(r: Option<Value>) -> Option<VV> {
    match r {
        Some(v) => Some(v@),
        None => None,
    }
}

/// A sequence's arguments `1..n` are sorted.
pub proof fn lemma_sequence_graph_sorted(items: Seq<VV>)
    ensures
        keys_sorted(graph(VV::Sequence(items))),
        distinct_keys(graph(VV::Sequence(items))),
{
    let g = graph(VV::Sequence(items));
    assert forall|i: int, j: int| #![trigger g[i], g[j]] 0 <= i < j < g.len() implies vorder(g[i].0, g[j].0) < 0 by {}
    lemma_sorted_distinct(g);
}

impl Value {
    /// The function's graph, sorted by argument, for values that are
    /// functions.
    pub fn entries(&self) -> (r: Option<Vec<(Value, Value)>>)
        ensures
            r is Some <==> is_function(self@),
            r matches Some(e) ==> (graph(self@).len() <= i64::MAX ==> view_pairs(e@) == graph(self@)),
    {
        match self {
            Value::Sequence(items) => {
                let mut out: Vec<(Value, Value)> = Vec::new();
                let mut i: usize = 0;
                proof { lemma_view_list_len(items@); }
                while i < items.len()
                    invariant
                        i <= items.len(),
                        out.len() <= i,
                        i <= i64::MAX ==> out.len() == i,
                        forall|x: int| 0 <= x < out.len() ==> (#[trigger] out@[x]).0@ == VV::Int(x + 1) && out@[x].1@ == items@[x]@,
                    decreases items.len() - i,
                {
                    if (i as u64) < (i64::MAX as u64) {
                        out.push((Value::Int(i as i64 + 1), copy(&items[i])));
                    }
                    i = i + 1;
                }
                proof {
                    lemma_view_pairs_len(out@);
                    if items.len() <= i64::MAX {
                        assert(view_pairs(out@) =~= graph(self@));
                    }
                }
                Some(out)
            },
            Value::Record(fields) => {
                let mut out: Vec<(Value, Value)> = Vec::new();
                let mut i: usize = 0;
                proof { lemma_view_fields_len(fields@); }
                while i < fields.len()
                    invariant
                        i <= fields.len(),
                        out.len() == i,
                        forall|x: int| 0 <= x < i ==> (#[trigger] out@[x]).0@ == VV::Str(fields@[x].0@) && out@[x].1@ == fields@[x].1@,
                    decreases fields.len() - i,
                {
                    out.push((Value::Str(fields[i].0.clone()), copy(&fields[i].1)));
                    i = i + 1;
                }
                proof {
                    lemma_view_pairs_len(out@);
                    assert(view_pairs(out@) =~= graph(self@));
                }
                Some(out)
            },
            Value::Func(pairs) => Some(copy_pairs(pairs)),
            _ => None,
        }
    }

    /// The function's domain, in the order of its graph, for values that
    /// are functions.
    pub fn domain(&self) -> (r: Option<Vec<Value>>)
        ensures
            r is Some <==> is_function(self@),
            r matches Some(d) ==> (graph(self@).len() <= i64::MAX
                ==> view_list(d@) == Seq::new(graph(self@).len(), |i: int| graph(self@)[i].0)),
    {
        match self {
            Value::Sequence(items) => {
                let n = items.len();
                proof { lemma_view_list_len(items@); }
                if (n as u64) > (i64::MAX as u64) {
                    return Some(Vec::new());
                }
                if n == 0 {
                    let empty: Vec<Value> = Vec::new();
                    proof {
                        assert(view_list(empty@) =~= Seq::new(graph(self@).len(), |i: int| graph(self@)[i].0));
                    }
                    return Some(empty);
                }
                match Value::interval(1, n as i64) {
                    Value::FiniteSet(out) => {
                        proof {
                            assert(view_list(out@) =~= Seq::new(graph(self@).len(), |i: int| graph(self@)[i].0));
                        }
                        Some(out)
                    },
                    _ => Some(Vec::new()),
                }
            },
            Value::Record(fields) => {
                let mut out: Vec<Value> = Vec::new();
                let mut i: usize = 0;
                proof { lemma_view_fields_len(fields@); }
                while i < fields.len()
                    invariant
                        i <= fields.len(),
                        out.len() == i,
                        forall|x: int| 0 <= x < i ==> (#[trigger] out@[x])@ == VV::Str(fields@[x].0@),
                    decreases fields.len() - i,
                {
                    out.push(Value::Str(fields[i].0.clone()));
                    i = i + 1;
                }
                proof {
                    lemma_view_list_len(out@);
                    assert(view_list(out@) =~= Seq::new(graph(self@).len(), |i: int| graph(self@)[i].0));
                }
                Some(out)
            },
            Value::Func(pairs) => {
                let mut out: Vec<Value> = Vec::new();
                let mut i: usize = 0;
                proof { lemma_view_pairs_len(pairs@); }
                while i < pairs.len()
                    invariant
                        i <= pairs.len(),
                        out.len() == i,
                        forall|x: int| 0 <= x < i ==> (#[trigger] out@[x])@ == pairs@[x].0@,
                    decreases pairs.len() - i,
                {
                    out.push(copy(&pairs[i].0));
                    i = i + 1;
                }
                proof {
                    lemma_view_list_len(out@);
                    assert(view_list(out@) =~= Seq::new(graph(self@).len(), |i: int| graph(self@)[i].0));
                }
                Some(out)
            },
            _ => None,
        }
    }

    /// The function's result at `key`, if the value is a function defined
    /// there. A value whose graph is not sorted is not one this library
    /// builds; for it only sequences are answered exactly.
    pub fn apply(&self, key: &Value) -> (r: Option<Value>)
        ensures
            keys_sorted(graph(self@)) ==> view_option(r) == lookup(graph(self@), key@),
            self is Sequence ==> view_option(r) == lookup(graph(self@), key@),
            !is_function(self@) ==> r is None,
    {
        let ghost g = graph(self@);
        match (self, key) {
            (Value::Sequence(items), Value::Int(i)) => {
                proof {
                    lemma_view_list_len(items@);
                    lemma_sequence_graph_sorted(view_list(items@));
                    lemma_lookup_distinct(g, key@);
                }
                if *i >= 1 && (*i as u64) - 1 < items.len() as u64 {
                    let at = ((*i as u64) - 1) as usize;
                    proof { assert(g[at as int].0 == key@); }
                    Some(copy(&items[at]))
                } else {
                    proof {
                        assert forall|x: int| 0 <= x < g.len() implies (#[trigger] g[x]).0 != key@ by {}
                    }
                    None
                }
            },
            (Value::Sequence(items), _) => {
                proof {
                    lemma_view_list_len(items@);
                    lemma_sequence_graph_sorted(view_list(items@));
                    lemma_lookup_distinct(g, key@);
                    assert forall|x: int| 0 <= x < g.len() implies (#[trigger] g[x]).0 != key@ by {}
                }
                None
            },
            (Value::Record(fields), _) => {
                proof {
                    lemma_view_fields_len(fields@);
                    let f = view_fields(fields@);
                    if keys_sorted(g) {
                        assert forall|x: int, y: int| #![trigger f[x], f[y]] 0 <= x < y < f.len() implies
                            chars_order(f[x].0, f[y].0) < 0 by {
                            assert(g[x].0 == VV::Str(f[x].0) && g[y].0 == VV::Str(f[y].0));
                        }
                        lemma_fields_sorted_view(fields@);
                        lemma_sorted_distinct(g);
                        lemma_lookup_distinct(g, key@);
                    }
                }
                match key {
                    Value::Str(k) => {
                        let (at, found) = search_fields(fields, k);
                        if found {
                            proof {
                                if keys_sorted(g) {
                                    assert(g[at as int].0 == key@);
                                }
                            }
                            Some(copy(&fields[at].1))
                        } else {
                            proof {
                                if keys_sorted(g) {
                                    assert forall|x: int| 0 <= x < g.len() implies (#[trigger] g[x]).0 != key@ by {
                                        lemma_chars_order_zero(fields@[x].0@, k@);
                                    }
                                }
                            }
                            None
                        }
                    },
                    _ => {
                        proof {
                            if keys_sorted(g) {
                                assert forall|x: int| 0 <= x < g.len() implies (#[trigger] g[x]).0 != key@ by {}
                            }
                        }
                        None
                    },
                }
            },
            (Value::Func(pairs), k) => {
                proof {
                    lemma_view_pairs_len(pairs@);
                    if keys_sorted(g) {
                        lemma_pairs_sorted_view(pairs@);
                        lemma_sorted_distinct(g);
                        lemma_lookup_distinct(g, key@);
                    }
                }
                let (at, found) = search_pairs(pairs, k);
                if found {
                    proof {
                        if keys_sorted(g) {
                            assert(g[at as int].0 == key@);
                        }
                    }
                    Some(copy(&pairs[at].1))
                } else {
                    proof {
                        if keys_sorted(g) {
                            assert forall|x: int| 0 <= x < g.len() implies (#[trigger] g[x]).0 != key@ by {
                                lemma_vorder_zero(pairs@[x].0@, key@);
                            }
                        }
                    }
                    None
                }
            },
            _ => None,
        }
    }
}

} // verus!
