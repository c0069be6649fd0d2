//! The mathematical model of a JSON value, and what it means to look a key up,
//! to write a member, and for two values to be equal.

use crate::grammar::is_float_text;
use crate::rendering::decimal;
use vstd::prelude::*;

verus! {

/// A JSON value as a finite tree.
///
/// A float is held as the decimal text that denotes it. The members of an
/// object are held in the order in which they were written; that order is
/// what a rendering follows, and it plays no part in equality.
pub enum Json {
    Null,
    Bool(bool),
    Number(usize),
    Float(Seq<char>),
    String(Seq<char>),
    Array(Seq<Json>),
    Object(Seq<(Seq<char>, Json)>),
}

/// The first index at or after `from` whose member is named `key`.
pub open spec fn index_from(members: Seq<(Seq<char>, Json)>, key: Seq<char>, from: int) -> Option<int>
    decreases members.len() - from,
{
    if from < 0 || from >= members.len() {
        None
    } else if members[from].0 == key {
        Some(from)
    } else {
        index_from(members, key, from + 1)
    }
}

/// The index of the first member named `key`.
pub open spec fn index_of(members: Seq<(Seq<char>, Json)>, key: Seq<char>) -> Option<int> {
    index_from(members, key, 0)
}

/// The child of an object under `key`; nothing for a missing key or a value
/// that is no object.
pub open spec fn lookup(v: Json, key: Seq<char>) -> Option<Json> {
    match v {
        Json::Object(members) => match index_of(members, key) {
            Some(i) => Some(members[i].1),
            None => None,
        },
        _ => None,
    }
}

/// The string under `key`: nothing where the value is no object, the key is
/// missing, or its value is no string.
pub open spec fn string_at(v: Json, key: Seq<char>) -> Option<Seq<char>> {
    match lookup(v, key) {
        Some(Json::String(s)) => Some(s),
        _ => None,
    }
}

/// The integer under `key`, on the same terms.
pub open spec fn number_at(v: Json, key: Seq<char>) -> Option<usize> {
    match lookup(v, key) {
        Some(Json::Number(n)) => Some(n),
        _ => None,
    }
}

/// The boolean under `key`, on the same terms.
pub open spec fn bool_at(v: Json, key: Seq<char>) -> Option<bool> {
    match lookup(v, key) {
        Some(Json::Bool(b)) => Some(b),
        _ => None,
    }
}

/// The float under `key`, as its decimal text: that of a float as it
/// stands, that of an integer as its decimal digits, and nothing for any
/// other value, a string that looks like a number among them.
pub open spec fn float_at(v: Json, key: Seq<char>) -> Option<Seq<char>> {
    match lookup(v, key) {
        Some(Json::Float(t)) => Some(t),
        Some(Json::Number(n)) => Some(decimal(n as nat)),
        _ => None,
    }
}

/// The string under `key`, or the empty string where there is none.
pub open spec fn string_or_default(v: Json, key: Seq<char>) -> Seq<char> {
    match string_at(v, key) {
        Some(s) => s,
        None => Seq::empty(),
    }
}

/// The integer under `key`, or zero where there is none.
pub open spec fn number_or_default(v: Json, key: Seq<char>) -> usize {
    match number_at(v, key) {
        Some(n) => n,
        None => 0,
    }
}

/// The boolean under `key`, or `false` where there is none.
pub open spec fn bool_or_default(v: Json, key: Seq<char>) -> bool {
    match bool_at(v, key) {
        Some(b) => b,
        None => false,
    }
}

/// The float under `key` as its decimal text, or `0` where there is none.
pub open spec fn float_or_default(v: Json, key: Seq<char>) -> Seq<char> {
    match float_at(v, key) {
        Some(t) => t,
        None => seq!['0'],
    }
}

/// The members after `key` has been written: an existing member of that name
/// has its value replaced where it stands, a new name goes to the end.
pub open spec fn put(members: Seq<(Seq<char>, Json)>, key: Seq<char>, value: Json) -> Seq<(Seq<char>, Json)> {
    match index_of(members, key) {
        Some(i) => members.update(i, (key, value)),
        None => members.push((key, value)),
    }
}

/// No two members have the same name.
pub open spec fn distinct_keys(members: Seq<(Seq<char>, Json)>) -> bool {
    forall|i: int, j: int|
        0 <= i < j < members.len() ==> (#[trigger] members[i]).0 != (#[trigger] members[j]).0
}

/// Every float in the tree holds the text of a float, and every object names
/// each of its members once.
pub open spec fn well_formed(v: Json) -> bool
    decreases v,
{
    match v {
        Json::Float(t) => is_float_text(t),
        Json::Array(items) => forall|i: int| 0 <= i < items.len() ==> well_formed(#[trigger] items[i]),
        Json::Object(members) => distinct_keys(members) && forall|i: int|
            0 <= i < members.len() ==> well_formed((#[trigger] members[i]).1),
        _ => true,
    }
}

/// Equality of JSON values: arrays item by item, objects as maps from names to
/// values, whatever the order of their members. Where a name occurs twice in
/// an object, its first member counts, as it does for `lookup`.
pub open spec fn same(a: Json, b: Json) -> bool
    decreases a,
{
    match (a, b) {
        (Json::Null, Json::Null) => true,
        (Json::Bool(x), Json::Bool(y)) => x == y,
        (Json::Number(x), Json::Number(y)) => x == y,
        (Json::Float(x), Json::Float(y)) => x == y,
        (Json::String(x), Json::String(y)) => x == y,
        (Json::Array(xs), Json::Array(ys)) => xs.len() == ys.len() && forall|i: int|
            0 <= i < xs.len() ==> same(#[trigger] xs[i], ys[i]),
        (Json::Object(xs), Json::Object(ys)) => {
            &&& forall|i: int|
                0 <= i < xs.len() && index_of(xs, (#[trigger] xs[i]).0) == Some(i) ==> match index_of(
                    ys,
                    xs[i].0,
                ) {
                    Some(j) => same(xs[i].1, ys[j].1),
                    None => false,
                }
            &&& forall|j: int| 0 <= j < ys.len() ==> index_of(xs, (#[trigger] ys[j]).0) is Some
        },
        _ => false,
    }
}

/// `index_from` finds the first member of that name at or after `from`, and
/// nothing if there is none.
pub proof fn lemma_index_from(members: Seq<(Seq<char>, Json)>, key: Seq<char>, from: int)
    requires
        0 <= from,
    ensures
        match index_from(members, key, from) {
            Some(i) => from <= i < members.len() && members[i].0 == key && forall|j: int|
                from <= j < i ==> (#[trigger] members[j]).0 != key,
            None => forall|j: int| from <= j < members.len() ==> (#[trigger] members[j]).0 != key,
        },
    decreases members.len() - from,
{
    if from < members.len() && members[from].0 != key {
        lemma_index_from(members, key, from + 1);
    }
}

/// A name that no member has is not found.
pub proof fn lemma_index_of_absent(members: Seq<(Seq<char>, Json)>, key: Seq<char>)
    requires
        forall|j: int| 0 <= j < members.len() ==> (#[trigger] members[j]).0 != key,
    ensures
        index_of(members, key) is None,
{
    lemma_index_from(members, key, 0);
}

/// Every value equals itself.
pub proof fn lemma_same_reflexive(v: Json)
    ensures
        same(v, v),
    decreases v,
{
    match v {
        Json::Array(items) => {
            assert forall|i: int| 0 <= i < items.len() implies same(#[trigger] items[i], items[i]) by {
                lemma_same_reflexive(items[i]);
            }
        },
        Json::Object(members) => {
            assert forall|i: int|
                0 <= i < members.len() && index_of(members, (#[trigger] members[i]).0) == Some(
                    i,
                ) implies match index_of(members, members[i].0) {
                Some(j) => same(members[i].1, members[j].1),
                None => false,
            } by {
                lemma_same_reflexive(members[i].1);
            }
            assert forall|j: int| 0 <= j < members.len() implies index_of(
                members,
                (#[trigger] members[j]).0,
            ) is Some by {
                lemma_index_from(members, members[j].0, 0);
            }
        },
        _ => {},
    }
}

/// Equality does not depend on the side a value stands on.
pub proof fn lemma_same_symmetric(a: Json, b: Json)
    requires
        same(a, b),
    ensures
        same(b, a),
    decreases a,
{
    match (a, b) {
        (Json::Array(xs), Json::Array(ys)) => {
            assert forall|i: int| 0 <= i < ys.len() implies same(#[trigger] ys[i], xs[i]) by {
                assert(same(xs[i], ys[i]));
                lemma_same_symmetric(xs[i], ys[i]);
            }
        },
        (Json::Object(xs), Json::Object(ys)) => {
            assert forall|j: int|
                0 <= j < ys.len() && index_of(ys, (#[trigger] ys[j]).0) == Some(j) implies match index_of(
                xs,
                ys[j].0,
            ) {
                Some(i) => same(ys[j].1, xs[i].1),
                None => false,
            } by {
                let key = ys[j].0;
                lemma_index_from(xs, key, 0);
                let i = index_of(xs, key)->0;
                assert(xs[i].0 == key);
                lemma_same_symmetric(xs[i].1, ys[j].1);
            }
            assert forall|i: int| 0 <= i < xs.len() implies index_of(ys, (#[trigger] xs[i]).0) is Some by {
                let key = xs[i].0;
                lemma_index_from(xs, key, 0);
                let first = index_of(xs, key)->0;
                assert(xs[first].0 == key);
            }
        },
        _ => {},
    }
}

/// Two values that equal a third equal each other.
pub proof fn lemma_same_transitive(a: Json, b: Json, c: Json)
    requires
        same(a, b),
        same(b, c),
    ensures
        same(a, c),
    decreases a,
{
    match (a, b, c) {
        (Json::Array(xs), Json::Array(ys), Json::Array(zs)) => {
            assert forall|i: int| 0 <= i < xs.len() implies same(#[trigger] xs[i], zs[i]) by {
                assert(same(xs[i], ys[i]));
                assert(same(ys[i], zs[i]));
                lemma_same_transitive(xs[i], ys[i], zs[i]);
            }
        },
        (Json::Object(xs), Json::Object(ys), Json::Object(zs)) => {
            assert forall|i: int|
                0 <= i < xs.len() && index_of(xs, (#[trigger] xs[i]).0) == Some(i) implies match index_of(
                zs,
                xs[i].0,
            ) {
                Some(l) => same(xs[i].1, zs[l].1),
                None => false,
            } by {
                let key = xs[i].0;
                lemma_index_from(ys, key, 0);
                let j = index_of(ys, key)->0;
                assert(ys[j].0 == key);
                lemma_index_from(zs, key, 0);
                let l = index_of(zs, key)->0;
                lemma_same_transitive(xs[i].1, ys[j].1, zs[l].1);
            }
            assert forall|l: int| 0 <= l < zs.len() implies index_of(xs, (#[trigger] zs[l]).0) is Some by {
                let key = zs[l].0;
                lemma_index_from(ys, key, 0);
                let j = index_of(ys, key)->0;
                assert(ys[j].0 == key);
            }
        },
        _ => {},
    }
}

} // verus!
