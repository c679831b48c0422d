//! Reading JSON values as TLA+ values, by an explicit schema.

use vstd::prelude::*;
use crate::eval::evaluator::State;
use crate::eval::graph::{lemma_record_from, lemma_set_from, record_from, set_from};
use crate::eval::value::{
 chars_order, compare_text, holds, insert_sorted, lemma_chars_order_antisym, lemma_chars_order_trans,
 lemma_chars_order_zero, lemma_vorder_zero, search,
 sorted, view_fields, view_list, view_of, Rel, Value, VV,
};
use crate::text::{append, int_digits, push_int, str_eq, text};
use crate::eval::spec::names_sorted;

verus! {

/// A JSON value, as the oracle reads it. A number is held as the integer it
/// is, or as `None` when it is not an integer that fits in 64 bits.
#[derive(Debug, PartialEq)]
pub enum Json {
    Null,
    Bool(bool),
    Number(Option<i64>),
    Text(String),
    Array(Vec<Json>),
    Object(Vec<(String, Json)>),
}

/// How to read a JSON value as a TLA+ one.
///
/// The schema is explicit rather than inferred because JSON cannot tell a set
/// from a sequence: both arrive as an array, and reading one as the other
/// silently changes what the oracle checks.
#[derive(Debug)]
pub enum Schema {
    Int,
    Bool,
    Str,
    SetOf { of: Box<Schema> },
    SeqOf { of: Box<Schema> },
    /// An object with arbitrary keys: a function from strings.
    MapOf { of: Box<Schema> },
    /// An object whose keys are fixed by the schema.
    Rec { fields: Vec<(String, Schema)> },
    /// Alternatives tried in order; used for sets whose members differ in
    /// shape, such as a message set carrying several kinds of message.
    Union { of: Vec<Schema> },
}

/// Where a value failed to decode, and why.
#[derive(Debug, Clone, PartialEq, Eq)]
pub struct DecodeError {
    pub path: String,
    pub message: String,
}

impl DecodeError {
    /// `path: message`.
    pub fn to_string(&self) -> (s: String)
        ensures
            s@ == self.path@ + ": "@ + self.message@,
    {
        let mut s = self.path.clone();
        append(&mut s, ": ");
        append(&mut s, self.message.as_str());
        s
    }
}

fn fail(path: &str, message: String) -> (r: DecodeError)
    ensures
        r.path@ == path@,
        r.message == message,
{
    DecodeError { path: text(path), message }
}

/// What kind of JSON value this is, in words.
pub open spec fn spec_kind_of(json: Json) -> Seq<char> {
    match json {
        Json::Null => "null"@,
        Json::Bool(_) => "a boolean"@,
        Json::Number(_) => "a number"@,
        Json::Text(_) => "a string"@,
        Json::Array(_) => "an array"@,
        Json::Object(_) => "an object"@,
    }
}

pub fn kind_of(json: &Json) -> (r: &'static str)
    ensures
        r@ == spec_kind_of(*json),
{
    match json {
        Json::Null => "null",
        Json::Bool(_) => "a boolean",
        Json::Number(_) => "a number",
        Json::Text(_) => "a string",
        Json::Array(_) => "an array",
        Json::Object(_) => "an object",
    }
}

fn expected(what: &str, json: &Json) -> (m: String)
    ensures
        m@ == "expected "@ + what@ + ", got "@ + spec_kind_of(*json),
{
    let mut m = text("expected ");
    append(&mut m, what);
    append(&mut m, ", got ");
    append(&mut m, kind_of(json));
    m
}

/// `path[i]`.
fn index_path(path: &str, i: usize) -> (p: String)
    ensures
        p@ == path@ + "["@ + (if i <= i64::MAX { int_digits(i as int) } else { Seq::empty() }) + "]"@,
{
    let mut p = text(path);
    append(&mut p, "[");
    if (i as u64) <= (i64::MAX as u64) {
        push_int(&mut p, i as i64);
    }
    append(&mut p, "]");
    p
}

/// `path.name`.
fn field_path(path: &str, name: &str) -> (p: String)
    ensures
        p@ == path@ + "."@ + name@,
{
    let mut p = text(path);
    append(&mut p, ".");
    append(&mut p, name);
    p
}

/// The first member of an object with the given key.
pub open spec fn first_member(members: Seq<(String, Json)>, name: Seq<char>) -> Option<Json>
    decreases members.len(),
{
    if members.len() == 0 {
        None
    } else if members[0].0@ == name {
        Some(members[0].1)
    } else {
        first_member(members.drop_first(), name)
    }
}

/// The value of key `name` in an object's members: the first one given.
fn member_named<'a>(members: &'a Vec<(String, Json)>, name: &str) -> (r: Option<&'a Json>)
    ensures
        r is Some <==> exists|k: int| 0 <= k < members.len() && (#[trigger] members@[k]).0@ == name@,
        first_member(members@, name@) == match r {
            Some(j) => Some(*j),
            None => None::<Json>,
        },
{
    let mut i: usize = 0;
    proof { assert(members@.skip(0) =~= members@); }
    while i < members.len()
        invariant
            i <= members.len(),
            forall|k: int| 0 <= k < i ==> (#[trigger] members@[k]).0@ != name@,
            first_member(members@, name@) == first_member(members@.skip(i as int), name@),
        decreases members.len() - i,
    {
        proof {
            assert(members@.skip(i as int)[0] == members@[i as int]);
            assert(members@.skip(i as int).drop_first() =~= members@.skip(i + 1));
        }
        if str_eq(members[i].0.as_str(), name) {
            return Some(&members[i].1);
        }
        i = i + 1;
    }
    None
}

/// The first `n` names, each in double quotes, separated by `, `.
pub open spec fn quoted_items(names: Seq<String>, n: nat) -> Seq<char>
    decreases n,
{
    if n == 0 {
        Seq::empty()
    } else {
        let item = "\""@ + names[n - 1]@ + "\""@;
        if n == 1 { item } else { quoted_items(names, (n - 1) as nat) + ", "@ + item }
    }
}

/// The keys of a list of pairs, in order.
pub open spec fn key_names<T>(pairs: Seq<(String, T)>) -> Seq<String> {
    Seq::new(pairs.len(), |k: int| pairs[k].0)
}

/// `names` is sorted and holds exactly the names in `a` that `b` lacks.
pub open spec fn names_exactly(names: Seq<String>, a: Seq<String>, b: Seq<String>) -> bool {
    &&& names_sorted(names)
    &&& forall|n: Seq<char>| #[trigger] has_name(names, n) <==> (has_name(a, n) && !has_name(b, n))
}

/// A list of names written as quoted strings in brackets: `["x", "y"]`.
pub open spec fn name_list(names: Seq<String>) -> Seq<char> {
    "["@ + quoted_items(names, names.len()) + "]"@
}

/// Names read off the keys hold the same names as the keys.
proof fn lemma_key_names<T>(names: Seq<String>, pairs: Seq<(String, T)>)
    requires
        names.len() == pairs.len(),
        forall|k: int| 0 <= k < pairs.len() ==> #[trigger] names[k]@ == pairs[k].0@,
    ensures
        forall|n: Seq<char>| #[trigger] has_name(names, n) <==> has_name(key_names(pairs), n),
{
    assert forall|n: Seq<char>| #[trigger] has_name(names, n) <==> has_name(key_names(pairs), n) by {
        if has_name(names, n) {
            let j = choose|j: int| 0 <= j < names.len() && (#[trigger] names[j])@ == n;
            assert(key_names(pairs)[j]@ == n);
        }
        if has_name(key_names(pairs), n) {
            let j = choose|j: int| 0 <= j < key_names(pairs).len() && (#[trigger] key_names(pairs)[j])@ == n;
            assert(names[j]@ == n);
        }
    }
}

/// The names in `a` that `b` lacks, sorted, written as a list of quoted
/// strings: `["x", "y"]`.
#[verifier::loop_isolation(false)]
fn missing_from(a: &Vec<String>, b: &Vec<String>) -> (s: String)
    ensures
        exists|names: Seq<String>| names_sorted(names)
            && (forall|n: Seq<char>| #[trigger] has_name(names, n) <==> (has_name(a@, n) && !has_name(b@, n)))
            && s@ == "["@ + quoted_items(names, names.len()) + "]"@,
{
    let mut names: Vec<String> = Vec::new();
    let mut i: usize = 0;
    while i < a.len()
        invariant
            i <= a.len(),
            names_sorted(names@),
            forall|n: Seq<char>| #[trigger] has_name(names@, n)
                <==> ((exists|k: int| 0 <= k < i && (#[trigger] a@[k])@ == n) && !has_name(b@, n)),
        decreases a.len() - i,
    {
        let mut found = false;
        let mut j: usize = 0;
        while j < b.len()
            invariant
                j <= b.len(),
                found == exists|k: int| 0 <= k < j && (#[trigger] b@[k])@ == a@[i as int]@,
            decreases b.len() - j,
        {
            if str_eq(a[i].as_str(), b[j].as_str()) {
                found = true;
            }
            j = j + 1;
        }
        let ghost before = names@;
        if !found {
            insert_name_sorted(&mut names, &a[i]);
        }
        proof {
            assert forall|n: Seq<char>| #[trigger] has_name(names@, n)
                <==> ((exists|k: int| 0 <= k < i + 1 && (#[trigger] a@[k])@ == n) && !has_name(b@, n)) by {
                if exists|k: int| 0 <= k < i + 1 && (#[trigger] a@[k])@ == n {
                    let k = choose|k: int| 0 <= k < i + 1 && (#[trigger] a@[k])@ == n;
                    if k < i {
                        assert(exists|k2: int| 0 <= k2 < i && (#[trigger] a@[k2])@ == n);
                    }
                }
                if n == a@[i as int]@ {
                    assert(found == has_name(b@, n));
                }
            }
        }
        i = i + 1;
    }
    proof {
        assert forall|n: Seq<char>| #[trigger] has_name(names@, n) <==> (has_name(a@, n) && !has_name(b@, n)) by {
            if has_name(a@, n) {
                let k = choose|k: int| 0 <= k < a@.len() && (#[trigger] a@[k])@ == n;
                assert(exists|k2: int| 0 <= k2 < i && (#[trigger] a@[k2])@ == n);
            }
        }
    }
    let mut s = text("[");
    let mut k: usize = 0;
    while k < names.len()
        invariant
            k <= names.len(),
            s@ == "["@ + quoted_items(names@, k as nat),
        decreases names.len() - k,
    {
        let ghost prefix = s@;
        if k > 0 {
            append(&mut s, ", ");
        }
        append(&mut s, "\"");
        append(&mut s, names[k].as_str());
        append(&mut s, "\"");
        proof {
            if k == 0 {
                assert(s@ =~= "["@ + quoted_items(names@, (k + 1) as nat));
            } else {
                assert(s@ =~= "["@ + quoted_items(names@, (k + 1) as nat));
            }
        }
        k = k + 1;
    }
    append(&mut s, "]");
    s
}

fn insert_name_sorted(names: &mut Vec<String>, name: &String)
    ensures
        forall|n: Seq<char>| #[trigger] has_name(final(names)@, n) <==> (has_name(old(names)@, n) || n == name@),
        names_sorted(old(names)@) ==> names_sorted(final(names)@),
{
    let ghost before = names@;
    let ghost ok = names_sorted(before);
    let mut at: usize = 0;
    while at < names.len()
        invariant
            names@ == before,
            ok == names_sorted(before),
            at <= names.len(),
            ok ==> forall|k: int| 0 <= k < at ==> chars_order(#[trigger] before[k]@, name@) < 0,
        ensures
            names@ == before,
            at <= names.len(),
            ok ==> forall|k: int| 0 <= k < at ==> chars_order(#[trigger] before[k]@, name@) < 0,
            ok ==> forall|k: int| at <= k < before.len() ==> chars_order(#[trigger] before[k]@, name@) > 0,
        decreases names.len() - at,
    {
        match compare_text(&names[at], name) {
            Rel::Less => at = at + 1,
            Rel::Equal => {
                proof {
                    lemma_chars_order_zero(before[at as int]@, name@);
                    assert forall|n: Seq<char>| #[trigger] has_name(names@, n) <==> (has_name(before, n) || n == name@) by {
                        if n == name@ {
                            assert(names@[at as int]@ == n);
                        }
                    }
                }
                return;
            },
            Rel::Greater => {
                proof {
                    if ok {
                        assert forall|k: int| at <= k < before.len() implies chars_order(#[trigger] before[k]@, name@) > 0 by {
                            lemma_chars_order_antisym(before[at as int]@, name@);
                            if k > at {
                                lemma_chars_order_trans(name@, before[at as int]@, before[k]@);
                            }
                            lemma_chars_order_antisym(name@, before[k]@);
                        }
                    }
                }
                break;
            },
        }
    }
    let ghost lo = at as int;
    names.insert(at, name.clone());
    proof {
        assert(names@[lo] == *name);
        assert forall|n: Seq<char>| #[trigger] has_name(names@, n) <==> (has_name(before, n) || n == name@) by {
            if has_name(before, n) {
                let k = choose|k: int| 0 <= k < before.len() && (#[trigger] before[k])@ == n;
                if k < lo {
                    assert(names@[k] == before[k]);
                } else {
                    assert(names@[k + 1] == before[k]);
                }
            }
            if n == name@ {
                assert(names@[lo]@ == n);
            }
            if has_name(names@, n) {
                let k = choose|k: int| 0 <= k < names@.len() && (#[trigger] names@[k])@ == n;
                if k < lo {
                    assert(names@[k] == before[k]);
                } else if k > lo {
                    assert(names@[k] == before[k - 1]);
                }
            }
        }
        if ok {
            assert forall|i: int, j: int| 0 <= i < j < names@.len() implies
                chars_order(#[trigger] names@[i]@, #[trigger] names@[j]@) < 0 by {
                if j < lo {
                    assert(names@[i] == before[i] && names@[j] == before[j]);
                } else if j == lo {
                    assert(names@[i] == before[i]);
                } else if i == lo {
                    assert(names@[j] == before[j - 1]);
                    lemma_chars_order_antisym(before[j - 1]@, name@);
                } else if i < lo {
                    assert(names@[i] == before[i] && names@[j] == before[j - 1]);
                } else {
                    assert(names@[i] == before[i - 1] && names@[j] == before[j - 1]);
                }
            }
        }
    }
}

/// Is `name` among the names?
pub open spec fn has_name(names: Seq<String>, name: Seq<char>) -> bool {
    exists|j: int| 0 <= j < names.len() && (#[trigger] names[j])@ == name
}

/// Do the two lists hold the same names, ignoring order and repeats?
pub open spec fn same_name_sets(a: Seq<String>, b: Seq<String>) -> bool {
    &&& forall|i: int| 0 <= i < a.len() ==> has_name(b, (#[trigger] a[i])@)
    &&& forall|j: int| 0 <= j < b.len() ==> has_name(a, (#[trigger] b[j])@)
}

fn contains_name(names: &Vec<String>, name: &String) -> (r: bool)
    ensures
        r == has_name(names@, name@),
{
    let mut i: usize = 0;
    while i < names.len()
        invariant
            i <= names.len(),
            forall|k: int| 0 <= k < i ==> (#[trigger] names@[k])@ != name@,
        decreases names.len() - i,
    {
        if str_eq(names[i].as_str(), name.as_str()) {
            return true;
        }
        i = i + 1;
    }
    false
}

/// Do the two lists hold the same names, ignoring order?
fn same_names(a: &Vec<String>, b: &Vec<String>) -> (r: bool)
    ensures
        r == same_name_sets(a@, b@),
{
    let mut i: usize = 0;
    while i < a.len()
        invariant
            i <= a.len(),
            forall|k: int| 0 <= k < i ==> has_name(b@, (#[trigger] a@[k])@),
        decreases a.len() - i,
    {
        if !contains_name(b, &a[i]) {
            return false;
        }
        i = i + 1;
    }
    let mut j: usize = 0;
    while j < b.len()
        invariant
            j <= b.len(),
            forall|k: int| 0 <= k < a.len() ==> has_name(b@, (#[trigger] a@[k])@),
            forall|k: int| 0 <= k < j ==> has_name(a@, (#[trigger] b@[k])@),
        decreases b.len() - j,
    {
        if !contains_name(a, &b[j]) {
            return false;
        }
        j = j + 1;
    }
    true
}

fn keys_of<T>(pairs: &Vec<(String, T)>) -> (r: Vec<String>)
    ensures
        r.len() == pairs.len(),
        forall|k: int| 0 <= k < pairs.len() ==> #[trigger] r@[k]@ == pairs@[k].0@,
{
    let mut out: Vec<String> = Vec::new();
    let mut i: usize = 0;
    while i < pairs.len()
        invariant
            i <= pairs.len(),
            out.len() == i,
            forall|k: int| 0 <= k < i ==> #[trigger] out@[k]@ == pairs@[k].0@,
        decreases pairs.len() - i,
    {
        out.push(pairs[i].0.clone());
        i = i + 1;
    }
    out
}

/// No two elements are equal.
pub open spec fn distinct_values(vs: Seq<VV>) -> bool {
    forall|i: int, j: int| #![trigger vs[i], vs[j]] 0 <= i < j < vs.len() ==> vs[i] != vs[j]
}

/// Element `i` of `vs` is the first that repeats an earlier one.
pub open spec fn first_repeat(vs: Seq<VV>, i: int) -> bool {
    &&& 0 <= i < vs.len()
    &&& vs.take(i).contains(vs[i])
    &&& distinct_values(vs.take(i))
}

/// Read as a set, the array's element `i` is the first to repeat an earlier
/// one, every element before it reading well.
pub open spec fn duplicate_at(json: Json, schema: Schema, i: int) -> bool {
    match (schema, json) {
        (Schema::SetOf { of }, Json::Array(items)) => match decoded_list(items@, *of) {
            Some(vs) => first_repeat(vs, i) && i <= i64::MAX,
            None => false,
        },
        _ => false,
    }
}

/// What a set says of its first repeated element.
pub open spec fn duplicate_message(i: int) -> Seq<char> {
    "element "@ + int_digits(i) + " is a duplicate; a set has no repeats"@
}

/// Does some member have the key?
pub open spec fn member_has(members: Seq<(String, Json)>, name: Seq<char>) -> bool {
    exists|j: int| 0 <= j < members.len() && (#[trigger] members[j]).0@ == name
}

/// Does some field of the schema have the name?
pub open spec fn field_has(fields: Seq<(String, Schema)>, name: Seq<char>) -> bool {
    exists|i: int| 0 <= i < fields.len() && (#[trigger] fields[i]).0@ == name
}

/// The schema's field names and the object's keys are the same names.
pub open spec fn keys_match(fields: Seq<(String, Schema)>, members: Seq<(String, Json)>) -> bool {
    &&& forall|i: int| 0 <= i < fields.len() ==> member_has(members, (#[trigger] fields[i]).0@)
    &&& forall|j: int| 0 <= j < members.len() ==> field_has(fields, (#[trigger] members[j]).0@)
}

/// The value `json` is read as under `schema`; `None` when it does not fit:
/// a JSON value of the wrong kind, a number that is not a 64-bit integer, a
/// repeated set element, an object whose keys are not the record's fields,
/// or a union none of whose alternatives fits.
pub open spec fn decoded(json: Json, schema: Schema) -> Option<VV>
    decreases schema, json,
{
    match schema {
        Schema::Int => match json {
            Json::Number(Some(n)) => Some(VV::Int(n as int)),
            _ => None,
        },
        Schema::Bool => match json {
            Json::Bool(b) => Some(VV::Bool(b)),
            _ => None,
        },
        Schema::Str => match json {
            Json::Text(t) => Some(VV::Str(t@)),
            _ => None,
        },
        Schema::SetOf { of } => match json {
            Json::Array(items) => match decoded_list(items@, *of) {
                Some(vs) => if distinct_values(vs) { Some(VV::FiniteSet(set_from(vs))) } else { None },
                None => None,
            },
            _ => None,
        },
        Schema::SeqOf { of } => match json {
            Json::Array(items) => match decoded_list(items@, *of) {
                Some(vs) => Some(VV::Sequence(vs)),
                None => None,
            },
            _ => None,
        },
        Schema::MapOf { of } => match json {
            Json::Object(members) => match decoded_members(members@, *of) {
                Some(fs) => Some(VV::Record(record_from(fs))),
                None => None,
            },
            _ => None,
        },
        Schema::Rec { fields } => match json {
            Json::Object(members) => if keys_match(fields@, members@) {
                match decoded_fields(fields@, members@) {
                    Some(fs) => Some(VV::Record(record_from(fs))),
                    None => None,
                }
            } else {
                None
            },
            _ => None,
        },
        Schema::Union { of } => first_decoded(json, of@),
    }
}

/// Each element read under the same schema.
pub open spec fn decoded_list(items: Seq<Json>, schema: Schema) -> Option<Seq<VV>>
    decreases schema, items,
{
    if items.len() == 0 {
        Some(Seq::empty())
    } else {
        match (decoded_list(items.drop_last(), schema), decoded(items.last(), schema)) {
            (Some(vs), Some(v)) => Some(vs.push(v)),
            _ => None,
        }
    }
}

/// Each member's value read under the same schema, keyed by its name.
pub open spec fn decoded_members(members: Seq<(String, Json)>, schema: Schema) -> Option<Seq<(Seq<char>, VV)>>
    decreases schema, members,
{
    if members.len() == 0 {
        Some(Seq::empty())
    } else {
        match (decoded_members(members.drop_last(), schema), decoded(members.last().1, schema)) {
            (Some(fs), Some(v)) => Some(fs.push((members.last().0@, v))),
            _ => None,
        }
    }
}

/// Each field of a record schema read from the first member with its name.
pub open spec fn decoded_fields(fields: Seq<(String, Schema)>, members: Seq<(String, Json)>)
    -> Option<Seq<(Seq<char>, VV)>>
    decreases fields, members,
{
    if fields.len() == 0 {
        Some(Seq::empty())
    } else {
        match decoded_fields(fields.drop_last(), members) {
            None => None,
            Some(fs) => match first_member(members, fields.last().0@) {
                None => Some(fs),
                Some(j) => match decoded(j, fields.last().1) {
                    Some(v) => Some(fs.push((fields.last().0@, v))),
                    None => None,
                },
            },
        }
    }
}

/// The value read by the first alternative that fits.
pub open spec fn first_decoded(json: Json, alternatives: Seq<Schema>) -> Option<VV>
    decreases alternatives, json,
{
    if alternatives.len() == 0 {
        None
    } else {
        match decoded(json, alternatives[0]) {
            Some(v) => Some(v),
            None => first_decoded(json, alternatives.drop_first()),
        }
    }
}

/// A prefix of a list that reads reads as the prefix of what it reads as.
proof fn lemma_decoded_list_prefix(items: Seq<Json>, schema: Schema, i: int)
    requires
        0 <= i <= items.len(),
        decoded_list(items, schema) is Some,
    ensures
        decoded_list(items.take(i), schema) is Some,
        decoded_list(items.take(i), schema)->Some_0 == decoded_list(items, schema)->Some_0.take(i),
        decoded_list(items, schema)->Some_0.len() == items.len(),
    decreases items.len(),
{
    if items.len() > 0 {
        lemma_decoded_list_prefix(items.drop_last(), schema, if i < items.len() { i } else { items.len() - 1 });
        if i == items.len() {
            assert(items.take(i) =~= items);
            assert(decoded_list(items, schema)->Some_0.take(i) =~= decoded_list(items, schema)->Some_0);
        } else {
            assert(items.drop_last().take(i) =~= items.take(i));
            assert(decoded_list(items.drop_last(), schema)->Some_0.take(i)
                =~= decoded_list(items, schema)->Some_0.take(i));
        }
    } else {
        assert(items.take(i) =~= items);
    }
}

/// Comparing the key lists as sets of names is comparing the schema's
/// fields with the object's keys.
proof fn lemma_keys_match(fields: Seq<(String, Schema)>, members: Seq<(String, Json)>, e: Seq<String>, a: Seq<String>)
    requires
        e.len() == fields.len(),
        forall|k: int| 0 <= k < fields.len() ==> #[trigger] e[k]@ == fields[k].0@,
        a.len() == members.len(),
        forall|k: int| 0 <= k < members.len() ==> #[trigger] a[k]@ == members[k].0@,
    ensures
        same_name_sets(e, a) == keys_match(fields, members),
{
    assert forall|name: Seq<char>| has_name(a, name) == member_has(members, name) by {
        if has_name(a, name) {
            let j = choose|j: int| 0 <= j < a.len() && (#[trigger] a[j])@ == name;
            assert(members[j].0@ == name);
        }
        if member_has(members, name) {
            let j = choose|j: int| 0 <= j < members.len() && (#[trigger] members[j]).0@ == name;
            assert(a[j]@ == name);
        }
    }
    assert forall|name: Seq<char>| has_name(e, name) == field_has(fields, name) by {
        if has_name(e, name) {
            let i = choose|i: int| 0 <= i < e.len() && (#[trigger] e[i])@ == name;
            assert(fields[i].0@ == name);
        }
        if field_has(fields, name) {
            let i = choose|i: int| 0 <= i < fields.len() && (#[trigger] fields[i]).0@ == name;
            assert(e[i]@ == name);
        }
    }
    if same_name_sets(e, a) {
        assert forall|i: int| 0 <= i < fields.len() implies member_has(members, (#[trigger] fields[i]).0@) by {
            assert(has_name(a, e[i]@));
        }
        assert forall|j: int| 0 <= j < members.len() implies field_has(fields, (#[trigger] members[j]).0@) by {
            assert(has_name(e, a[j]@));
        }
    }
    if keys_match(fields, members) {
        assert forall|i: int| 0 <= i < e.len() implies has_name(a, (#[trigger] e[i])@) by {
            assert(member_has(members, fields[i].0@));
        }
        assert forall|j: int| 0 <= j < a.len() implies has_name(e, (#[trigger] a[j])@) by {
            assert(field_has(fields, members[j].0@));
        }
    }
}

/// Whole lists of members that read have prefixes that read.
proof fn lemma_decoded_members_prefix(members: Seq<(String, Json)>, schema: Schema, i: int)
    requires
        0 <= i <= members.len(),
        decoded_members(members, schema) is Some,
    ensures
        decoded_members(members.take(i), schema) is Some,
    decreases members.len(),
{
    if i == members.len() {
        assert(members.take(i) =~= members);
    } else {
        assert(members.drop_last().take(i) =~= members.take(i));
        lemma_decoded_members_prefix(members.drop_last(), schema, i);
    }
}

/// Record schemas that read have prefixes that read.
proof fn lemma_decoded_fields_prefix(fields: Seq<(String, Schema)>, members: Seq<(String, Json)>, i: int)
    requires
        0 <= i <= fields.len(),
        decoded_fields(fields, members) is Some,
    ensures
        decoded_fields(fields.take(i), members) is Some,
    decreases fields.len(),
{
    if i == fields.len() {
        assert(fields.take(i) =~= fields);
    } else {
        assert(fields.drop_last().take(i) =~= fields.take(i));
        lemma_decoded_fields_prefix(fields.drop_last(), members, i);
    }
}

/// Read `json` as a TLA+ value of the shape `schema` describes. `path` names
/// the place being read, for the error.
pub fn decode(json: &Json, schema: &Schema, path: &str) -> (r: Result<Value, DecodeError>)
    ensures
        r is Ok <==> decoded(*json, *schema) is Some,
        r matches Ok(v) ==> decoded(*json, *schema) == Some(v@),
        forall|i: int| #[trigger] duplicate_at(*json, *schema, i) ==> (r matches Err(e) && e.path@ == path@
            && e.message@ == duplicate_message(i)),
        *schema == Schema::Int && !(*json matches Json::Number(Some(_))) ==> (r matches Err(e)
            && e.path@ == path@ && e.message@ == "expected "@ + "an integer"@ + ", got "@ + spec_kind_of(*json)),
        *schema == Schema::Bool && !(*json is Bool) ==> (r matches Err(e)
            && e.path@ == path@ && e.message@ == "expected "@ + "a boolean"@ + ", got "@ + spec_kind_of(*json)),
        *schema == Schema::Str && !(*json is Text) ==> (r matches Err(e)
            && e.path@ == path@ && e.message@ == "expected "@ + "a string"@ + ", got "@ + spec_kind_of(*json)),
    decreases schema, 2nat,
{
    match schema {
        Schema::Int => match json {
            Json::Number(Some(n)) => Ok(Value::Int(*n)),
            _ => Err(fail(path, expected("an integer", json))),
        },
        Schema::Bool => match json {
            Json::Bool(b) => Ok(Value::Bool(*b)),
            _ => Err(fail(path, expected("a boolean", json))),
        },
        Schema::Str => match json {
            Json::Text(t) => Ok(Value::Str(t.clone())),
            _ => Err(fail(path, expected("a string", json))),
        },
        Schema::SetOf { .. } => decode_set(json, schema, path),
        Schema::SeqOf { .. } => decode_seq(json, schema, path),
        Schema::MapOf { .. } => decode_map(json, schema, path),
        Schema::Rec { .. } => decode_record(json, schema, path),
        Schema::Union { .. } => decode_union(json, schema, path),
    }
}

/// A set: every element read, none repeated.
#[verifier::loop_isolation(false)]
fn decode_set(json: &Json, schema: &Schema, path: &str) -> (r: Result<Value, DecodeError>)
    requires
        schema is SetOf,
    ensures
        r is Ok <==> decoded(*json, *schema) is Some,
        r matches Ok(v) ==> decoded(*json, *schema) == Some(v@),
        forall|i: int| #[trigger] duplicate_at(*json, *schema, i) ==> (r matches Err(e) && e.path@ == path@
            && e.message@ == duplicate_message(i)),
    decreases schema, 1nat,
{
    let of = match schema {
        Schema::SetOf { of } => of,
        _ => return Err(fail(path, text(""))),
    };
    let items = match json {
        Json::Array(items) => items,
        _ => return Err(fail(path, expected("an array", json))),
    };
    let mut out: Vec<Value> = Vec::new();
    let mut i: usize = 0;
    proof {
        assert(items@.take(0) =~= Seq::<Json>::empty());
        assert forall|y: VV| #[trigger] holds(out@, y) implies false by {}
    }
    while i < items.len()
        invariant
            i <= items.len(),
            sorted(out@),
            decoded_list(items@.take(i as int), **of) is Some,
            distinct_values(decoded_list(items@.take(i as int), **of)->Some_0),
            forall|y: VV| #[trigger] holds(out@, y)
                <==> decoded_list(items@.take(i as int), **of)->Some_0.contains(y),
            forall|i0: int| #[trigger] duplicate_at(*json, *schema, i0) ==> i0 >= i,
            *json == Json::Array(*items),
            *schema == (Schema::SetOf { of: *of }),
        decreases items.len() - i,
    {
        let ghost vs = decoded_list(items@.take(i as int), **of)->Some_0;
        proof {
            assert(items@.take(i + 1).drop_last() =~= items@.take(i as int));
            assert(items@.take(i + 1).last() == items@[i as int]);
        }
        let value = match decode_at(&items[i], of, path, i) {
            Ok(v) => v,
            Err(e) => {
                proof {
                    if decoded_list(items@, **of) is Some {
                        lemma_decoded_list_prefix(items@, **of, i + 1);
                    }
                    assert forall|i0: int| #[trigger] duplicate_at(*json, *schema, i0) implies false by {
                        lemma_decoded_list_prefix(items@, **of, i + 1);
                    }
                }
                return Err(e);
            },
        };
        let ghost ws = vs.push(value@);
        proof { assert(decoded_list(items@.take(i + 1), **of) == Some(ws)); }
        let (at, found) = search(&out, &value);
        if found {
            proof {
                lemma_vorder_zero(out@[at as int]@, value@);
                assert(view_of(out@[at as int]) == value@);
                assert(holds(out@, value@));
                let k = choose|k: int| 0 <= k < vs.len() && vs[k] == value@;
                assert(ws[k] == ws[ws.len() - 1]);
                if decoded_list(items@, **of) is Some {
                    lemma_decoded_list_prefix(items@, **of, i + 1);
                    let whole = decoded_list(items@, **of)->Some_0;
                    assert(whole[k] == ws[k] && whole[i as int] == ws[i as int]);
                }
            }
            let mut m = text("element ");
            if (i as u64) <= (i64::MAX as u64) {
                push_int(&mut m, i as i64);
            }
            append(&mut m, " is a duplicate; a set has no repeats");
            proof {
                assert forall|i0: int| #[trigger] duplicate_at(*json, *schema, i0) implies i0 == i && m@ == duplicate_message(i0) by {
                    lemma_decoded_list_prefix(items@, **of, i + 1);
                    let whole = decoded_list(items@, **of)->Some_0;
                    let k = choose|k: int| 0 <= k < vs.len() && vs[k] == value@;
                    if i0 > i {
                        assert(whole.take(i0)[k] == whole[k] && whole.take(i0)[i as int] == whole[i as int]);
                        assert(whole[k] == ws[k] && whole[i as int] == ws[i as int]);
                    }
                }
            }
            return Err(fail(path, m));
        }
        proof {
            assert forall|k: int| 0 <= k < out@.len() implies (#[trigger] out@[k])@ != value@ by {
                lemma_vorder_zero(value@, value@);
            }
            if vs.contains(value@) {
                assert(holds(out@, value@));
                let k = choose|k: int| 0 <= k < out@.len() && #[trigger] view_of(out@[k]) == value@;
                assert(out@[k]@ == value@);
            }
            assert forall|x: int, y: int| #![trigger ws[x], ws[y]] 0 <= x < y < ws.len() implies ws[x] != ws[y] by {
                if y == ws.len() - 1 {
                    assert(vs.contains(ws[x]));
                } else {
                    assert(vs[x] != vs[y]);
                }
            }
        }
        proof {
            assert forall|i0: int| #[trigger] duplicate_at(*json, *schema, i0) implies i0 >= i + 1 by {
                if i0 == i {
                    lemma_decoded_list_prefix(items@, **of, i + 1);
                    lemma_decoded_list_prefix(items@, **of, i as int);
                    let whole = decoded_list(items@, **of)->Some_0;
                    assert(whole.take(i + 1) == ws);
                    assert(whole.take(i + 1)[i as int] == whole[i as int]);
                    assert(whole.take(i as int) == vs);
                    assert(whole[i as int] == value@);
                    assert(vs.contains(value@));
                }
            }
        }
        insert_sorted(&mut out, value);
        proof {
            assert forall|y: VV| #[trigger] holds(out@, y) <==> ws.contains(y) by {
                if ws.contains(y) && y != ws[ws.len() - 1] {
                    let k = choose|k: int| 0 <= k < ws.len() && ws[k] == y;
                    assert(vs[k] == y);
                }
                if vs.contains(y) {
                    let k = choose|k: int| 0 <= k < vs.len() && vs[k] == y;
                    assert(ws[k] == y);
                }
                assert(ws[ws.len() - 1] == value@);
            }
        }
        i = i + 1;
    }
    proof {
        assert(items@.take(items.len() as int) =~= items@);
        lemma_set_from(out@, decoded_list(items@, **of)->Some_0);
    }
    Ok(Value::FiniteSet(out))
}

/// A sequence: every element read, in order.
#[verifier::loop_isolation(false)]
fn decode_seq(json: &Json, schema: &Schema, path: &str) -> (r: Result<Value, DecodeError>)
    requires
        schema is SeqOf,
    ensures
        r is Ok <==> decoded(*json, *schema) is Some,
        r matches Ok(v) ==> decoded(*json, *schema) == Some(v@),
    decreases schema, 1nat,
{
    let of = match schema {
        Schema::SeqOf { of } => of,
        _ => return Err(fail(path, text(""))),
    };
    let items = match json {
        Json::Array(items) => items,
        _ => return Err(fail(path, expected("an array", json))),
    };
    let mut out: Vec<Value> = Vec::new();
    let mut i: usize = 0;
    proof {
        assert(items@.take(0) =~= Seq::<Json>::empty());
        assert(view_list(out@) =~= Seq::<VV>::empty());
    }
    while i < items.len()
        invariant
            i <= items.len(),
            decoded_list(items@.take(i as int), **of) == Some(view_list(out@)),
        decreases items.len() - i,
    {
        proof {
            assert(items@.take(i + 1).drop_last() =~= items@.take(i as int));
            assert(items@.take(i + 1).last() == items@[i as int]);
        }
        let value = match decode_at(&items[i], of, path, i) {
            Ok(v) => v,
            Err(e) => {
                proof {
                    if decoded_list(items@, **of) is Some {
                        lemma_decoded_list_prefix(items@, **of, i + 1);
                    }
                }
                return Err(e);
            },
        };
        let ghost before = out@;
        out.push(value);
        proof { crate::eval::value::lemma_view_list_push(before, value); }
        i = i + 1;
    }
    proof { assert(items@.take(items.len() as int) =~= items@); }
    Ok(Value::Sequence(out))
}

/// An object with arbitrary keys, read as a record.
#[verifier::loop_isolation(false)]
fn decode_map(json: &Json, schema: &Schema, path: &str) -> (r: Result<Value, DecodeError>)
    requires
        schema is MapOf,
    ensures
        r is Ok <==> decoded(*json, *schema) is Some,
        r matches Ok(v) ==> decoded(*json, *schema) == Some(v@),
    decreases schema, 1nat,
{
    let of = match schema {
        Schema::MapOf { of } => of,
        _ => return Err(fail(path, text(""))),
    };
    let members = match json {
        Json::Object(m) => m,
        _ => return Err(fail(path, expected("an object", json))),
    };
    let mut out: Vec<(String, Value)> = Vec::new();
    let mut i: usize = 0;
    proof {
        assert(members@.take(0) =~= Seq::<(String, Json)>::empty());
        assert(view_fields(out@) =~= Seq::<(Seq<char>, VV)>::empty());
    }
    while i < members.len()
        invariant
            i <= members.len(),
            decoded_members(members@.take(i as int), **of) == Some(view_fields(out@)),
        decreases members.len() - i,
    {
        proof {
            assert(members@.take(i + 1).drop_last() =~= members@.take(i as int));
            assert(members@.take(i + 1).last() == members@[i as int]);
        }
        let p = field_path(path, members[i].0.as_str());
        let v = match decode(&members[i].1, of, p.as_str()) {
            Ok(v) => v,
            Err(e) => {
                proof {
                    if decoded_members(members@, **of) is Some {
                        lemma_decoded_members_prefix(members@, **of, i + 1);
                    }
                }
                return Err(e);
            },
        };
        let name = members[i].0.clone();
        let ghost before = out@;
        out.push((name, v));
        proof { assert(out@.drop_last() =~= before); }
        i = i + 1;
    }
    proof { assert(members@.take(members.len() as int) =~= members@); }
    let r = Value::record(out);
    proof {
        lemma_record_from(view_fields(r->Record_0@), decoded_members(members@, **of)->Some_0);
    }
    Ok(r)
}

/// An object whose keys are the schema's fields, read as a record.
#[verifier::loop_isolation(false)]
fn decode_record(json: &Json, schema: &Schema, path: &str) -> (r: Result<Value, DecodeError>)
    requires
        schema is Rec,
    ensures
        r is Ok <==> decoded(*json, *schema) is Some,
        r matches Ok(v) ==> decoded(*json, *schema) == Some(v@),
    decreases schema, 1nat,
{
    let fields = match schema {
        Schema::Rec { fields } => fields,
        _ => return Err(fail(path, text(""))),
    };
    let members = match json {
        Json::Object(m) => m,
        _ => return Err(fail(path, expected("an object", json))),
    };
    let expected_names = keys_of(fields);
    let actual_names = keys_of(members);
    let same = same_names(&expected_names, &actual_names);
    proof { lemma_keys_match(fields@, members@, expected_names@, actual_names@); }
    if !same {
        let mut m = text("field mismatch (missing=");
        append(&mut m, missing_from(&expected_names, &actual_names).as_str());
        append(&mut m, ", unexpected=");
        append(&mut m, missing_from(&actual_names, &expected_names).as_str());
        append(&mut m, ")");
        return Err(fail(path, m));
    }
    let mut out: Vec<(String, Value)> = Vec::new();
    let mut i: usize = 0;
    proof {
        assert(fields@.take(0) =~= Seq::<(String, Schema)>::empty());
        assert(view_fields(out@) =~= Seq::<(Seq<char>, VV)>::empty());
    }
    while i < fields.len()
        invariant
            i <= fields.len(),
            keys_match(fields@, members@),
            decoded_fields(fields@.take(i as int), members@) == Some(view_fields(out@)),
        decreases fields.len() - i,
    {
        proof {
            assert(fields@.take(i + 1).drop_last() =~= fields@.take(i as int));
            assert(fields@.take(i + 1).last() == fields@[i as int]);
        }
        let name = fields[i].0.as_str();
        match member_named(members, name) {
            Some(given) => {
                let p = field_path(path, name);
                let v = match decode(given, &fields[i].1, p.as_str()) {
                    Ok(v) => v,
                    Err(e) => {
                        proof {
                            if decoded_fields(fields@, members@) is Some {
                                lemma_decoded_fields_prefix(fields@, members@, i + 1);
                            }
                        }
                        return Err(e);
                    },
                };
                let ghost before = out@;
                out.push((fields[i].0.clone(), v));
                proof { assert(out@.drop_last() =~= before); }
            },
            None => {},
        }
        i = i + 1;
    }
    proof { assert(fields@.take(fields.len() as int) =~= fields@); }
    let r = Value::record(out);
    proof {
        lemma_record_from(view_fields(r->Record_0@), decoded_fields(fields@, members@)->Some_0);
    }
    Ok(r)
}

/// The first alternative that fits.
#[verifier::loop_isolation(false)]
fn decode_union(json: &Json, schema: &Schema, path: &str) -> (r: Result<Value, DecodeError>)
    requires
        schema is Union,
    ensures
        r is Ok <==> decoded(*json, *schema) is Some,
        r matches Ok(v) ==> decoded(*json, *schema) == Some(v@),
    decreases schema, 1nat,
{
    let of = match schema {
        Schema::Union { of } => of,
        _ => return Err(fail(path, text(""))),
    };
    let mut reasons = text("");
    let mut i: usize = 0;
    proof { assert(of@.skip(0) =~= of@); }
    while i < of.len()
        invariant
            i <= of.len(),
            first_decoded(*json, of@) == first_decoded(*json, of@.skip(i as int)),
        decreases of.len() - i,
    {
        proof {
            assert(of@.skip(i as int)[0] == of@[i as int]);
            assert(of@.skip(i as int).drop_first() =~= of@.skip(i + 1));
        }
        match decode(json, &of[i], path) {
            Ok(v) => return Ok(v),
            Err(e) => {
                if i > 0 {
                    append(&mut reasons, "; ");
                }
                append(&mut reasons, e.message.as_str());
            },
        }
        i = i + 1;
    }
    let mut m = text("matches no alternative (");
    append(&mut m, reasons.as_str());
    append(&mut m, ")");
    Err(fail(path, m))
}

/// Decode the element at position `i` of the array at `path`.
fn decode_at(json: &Json, schema: &Schema, path: &str, i: usize) -> (r: Result<Value, DecodeError>)
    ensures
        r is Ok <==> decoded(*json, *schema) is Some,
        r matches Ok(v) ==> decoded(*json, *schema) == Some(v@),
    decreases schema, 3nat,
{
    let p = index_path(path, i);
    decode(json, schema, p.as_str())
}

/// The specification's variables, each read from the first member with its
/// name; `None` when one is missing or does not read.
pub open spec fn decoded_vars(schema: Seq<(String, Schema)>, members: Seq<(String, Json)>)
    -> Option<Seq<(Seq<char>, VV)>>
    decreases schema.len(),
{
    if schema.len() == 0 {
        Some(Seq::empty())
    } else {
        match decoded_vars(schema.drop_last(), members) {
            None => None,
            Some(fs) => match first_member(members, schema.last().0@) {
                None => None,
                Some(j) => match decoded(j, schema.last().1) {
                    Some(v) => Some(fs.push((schema.last().0@, v))),
                    None => None,
                },
            },
        }
    }
}

/// The state `json` is read as: an object whose keys are exactly the
/// specification's variables.
pub open spec fn decoded_state(json: Json, schema: Seq<(String, Schema)>) -> Option<Seq<(Seq<char>, VV)>> {
    match json {
        Json::Object(members) => if keys_match(schema, members@) { decoded_vars(schema, members@) } else { None },
        _ => None,
    }
}

/// Schemas whose variables all read have prefixes whose variables read.
proof fn lemma_decoded_vars_prefix(schema: Seq<(String, Schema)>, members: Seq<(String, Json)>, i: int)
    requires
        0 <= i <= schema.len(),
        decoded_vars(schema, members) is Some,
    ensures
        decoded_vars(schema.take(i), members) is Some,
    decreases schema.len(),
{
    if i == schema.len() {
        assert(schema.take(i) =~= schema);
    } else {
        assert(schema.drop_last().take(i) =~= schema.take(i));
        lemma_decoded_vars_prefix(schema.drop_last(), members, i);
    }
}

/// Read a whole state: exactly the specification's variables, nothing else.
#[verifier::loop_isolation(false)]
pub fn decode_state(json: &Json, schema: &Vec<(String, Schema)>, path: &str) -> (r: Result<State, DecodeError>)
    ensures
        !(*json is Object) ==> (r matches Err(e)
            && e.path@ == path@ && e.message@ == "expected "@ + "an object"@ + ", got "@ + spec_kind_of(*json)),
        r is Ok <==> decoded_state(*json, schema@) is Some,
        r matches Ok(s) ==> decoded_state(*json, schema@) == Some(view_fields(s@)),
        r matches Ok(s) ==> s.len() == schema.len()
            && forall|k: int| 0 <= k < schema.len() ==> (#[trigger] s@[k]).0@ == schema@[k].0@,
        *json is Object && !keys_match(schema@, json->Object_0@) ==> (r matches Err(e) && e.path@ == path@
            && exists|missing: Seq<String>, unexpected: Seq<String>|
                #[trigger] names_exactly(missing, key_names(schema@), key_names(json->Object_0@))
                && #[trigger] names_exactly(unexpected, key_names(json->Object_0@), key_names(schema@))
                && e.message@ == "state keys must be exactly the specification's variables (missing="@ + name_list(missing)
                    + ", unexpected="@ + name_list(unexpected) + ")"@),
{
    let members = match json {
        Json::Object(m) => m,
        _ => return Err(fail(path, expected("an object", json))),
    };
    let expected_names = keys_of(schema);
    let actual_names = keys_of(members);
    let same = same_names(&expected_names, &actual_names);
    proof { lemma_keys_match(schema@, members@, expected_names@, actual_names@); }
    if !same {
        let mut m = text("state keys must be exactly the specification's variables (missing=");
        let missing = missing_from(&expected_names, &actual_names);
        append(&mut m, missing.as_str());
        append(&mut m, ", unexpected=");
        let unexpected = missing_from(&actual_names, &expected_names);
        append(&mut m, unexpected.as_str());
        append(&mut m, ")");
        proof {
            lemma_key_names(expected_names@, schema@);
            lemma_key_names(actual_names@, members@);
            let a = choose|names: Seq<String>| names_sorted(names)
                && (forall|n: Seq<char>| #[trigger] has_name(names, n) <==> (has_name(expected_names@, n) && !has_name(actual_names@, n)))
                && missing@ == "["@ + quoted_items(names, names.len()) + "]"@;
            let b = choose|names: Seq<String>| names_sorted(names)
                && (forall|n: Seq<char>| #[trigger] has_name(names, n) <==> (has_name(actual_names@, n) && !has_name(expected_names@, n)))
                && unexpected@ == "["@ + quoted_items(names, names.len()) + "]"@;
            assert(names_exactly(a, key_names(schema@), key_names(members@)));
            assert(names_exactly(b, key_names(members@), key_names(schema@)));
            assert(m@ =~= "state keys must be exactly the specification's variables (missing="@ + name_list(a)
                + ", unexpected="@ + name_list(b) + ")"@);
        }
        return Err(fail(path, m));
    }
    let mut state: State = Vec::new();
    let mut i: usize = 0;
    proof {
        assert(schema@.take(0) =~= Seq::<(String, Schema)>::empty());
        assert(view_fields(state@) =~= Seq::<(Seq<char>, VV)>::empty());
    }
    while i < schema.len()
        invariant
            i <= schema.len(),
            state.len() == i,
            forall|k: int| 0 <= k < i ==> (#[trigger] state@[k]).0@ == schema@[k].0@,
            decoded_vars(schema@.take(i as int), members@) == Some(view_fields(state@)),
        decreases schema.len() - i,
    {
        proof {
            assert(schema@.take(i + 1).drop_last() =~= schema@.take(i as int));
            assert(schema@.take(i + 1).last() == schema@[i as int]);
        }
        let name = schema[i].0.as_str();
        let given = match member_named(members, name) {
            Some(g) => g,
            None => {
                proof {
                    if decoded_vars(schema@, members@) is Some {
                        lemma_decoded_vars_prefix(schema@, members@, i + 1);
                    }
                }
                let mut m = text("missing variable `");
                append(&mut m, name);
                append(&mut m, "`");
                return Err(fail(path, m));
            },
        };
        let p = field_path(path, name);
        let v = match decode(given, &schema[i].1, p.as_str()) {
            Ok(v) => v,
            Err(e) => {
                proof {
                    if decoded_vars(schema@, members@) is Some {
                        lemma_decoded_vars_prefix(schema@, members@, i + 1);
                    }
                }
                return Err(e);
            },
        };
        let ghost before = state@;
        state.push((schema[i].0.clone(), v));
        proof { assert(state@.drop_last() =~= before); }
        i = i + 1;
    }
    proof { assert(schema@.take(schema.len() as int) =~= schema@); }
    Ok(state)
}

} // verus!
