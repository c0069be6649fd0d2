//! JSON values: the type, its text, and the reading of members by name.

use crate::model::{
    bool_at, bool_or_default, float_at, float_or_default, index_from, index_of, lookup, number_at,
    number_or_default, put, same, string_at, string_or_default, Json,
};
use crate::rendering::{escaped, items_text, lemma_escaped_push, members_text, quoted, text};
use crate::strings::push_decimal;
use vstd::prelude::*;

verus! {

/// A JSON value.
///
/// A float holds the decimal text that denotes it, as it was read or as the
/// caller wrote it. An object holds its members in the order in which they
/// were written; `get` and `==` go by the first member of a name.
#[derive(Debug)]
pub enum JsonVal {
    Null,
    Bool(bool),
    Number(usize),
    Float(String),
    String(String),
    Array(Vec<JsonVal>),
    Object(Vec<(String, JsonVal)>),
}

/// The model of a value.
pub open spec fn model_of(v: JsonVal) -> Json
    decreases v,
{
    match v {
        JsonVal::Null => Json::Null,
        JsonVal::Bool(b) => Json::Bool(b),
        JsonVal::Number(n) => Json::Number(n),
        JsonVal::Float(t) => Json::Float(t@),
        JsonVal::String(s) => Json::String(s@),
        JsonVal::Array(items) => Json::Array(models_of(items@)),
        JsonVal::Object(members) => Json::Object(members_of(members@)),
    }
}

/// The models of the items of an array, in their order.
pub open spec fn models_of(items: Seq<JsonVal>) -> Seq<Json>
    decreases items,
{
    if items.len() == 0 {
        Seq::empty()
    } else {
        models_of(items.drop_last()).push(model_of(items.last()))
    }
}

/// The models of the members of an object, in their order.
pub open spec fn members_of(members: Seq<(String, JsonVal)>) -> Seq<(Seq<char>, Json)>
    decreases members,
{
    if members.len() == 0 {
        Seq::empty()
    } else {
        members_of(members.drop_last()).push((members.last().0@, model_of(members.last().1)))
    }
}

impl View for JsonVal {
    type V = Json;

    open spec fn view(&self) -> Json {
        model_of(*self)
    }
}

/// The models of the items are as many as the items, each the model of the
/// item in its place.
pub proof fn lemma_models_of(items: Seq<JsonVal>)
    ensures
        models_of(items).len() == items.len(),
        forall|i: int| 0 <= i < items.len() ==> (#[trigger] models_of(items)[i]) == items[i]@,
    decreases items.len(),
{
    if items.len() > 0 {
        lemma_models_of(items.drop_last());
    }
}

/// The models of the members are as many as the members, each the name and
/// the model of the member in its place.
pub proof fn lemma_members_of(members: Seq<(String, JsonVal)>)
    ensures
        members_of(members).len() == members.len(),
        forall|i: int|
            0 <= i < members.len() ==> (#[trigger] members_of(members)[i]) == (members[i].0@, members[i].1@),
    decreases members.len(),
{
    if members.len() > 0 {
        lemma_members_of(members.drop_last());
    }
}

/// Appends a string between quotes, with each quote in it escaped.
pub fn push_quoted(out: &mut String, s: &str)
    ensures
        final(out)@ == old(out)@ + quoted(s@),
{
    out.push('"');
    let ghost start = out@;
    for c in it: s.chars()
        invariant
            start == old(out)@.push('"'),
            out@ == start + escaped(it.seq().take(it.index())),
    {
        proof {
            let done = it.seq().take(it.index());
            assert(it.seq().take(it.index() + 1) =~= done.push(c));
            lemma_escaped_push(done, c);
        }
        if c == '"' {
            out.push('\\');
            out.push('"');
        } else {
            out.push(c);
        }
        assert(out@ =~= start + escaped(it.seq().take(it.index() + 1)));
    }
    assert(s@.take(s@.len() as int) =~= s@);
    out.push('"');
    assert(out@ =~= old(out)@ + quoted(s@));
}

impl JsonVal {
    /// Appends the text of the value.
    pub fn write_to(&self, out: &mut String)
        ensures
            final(out)@ == old(out)@ + text(self@),
        decreases self,
    {
        match self {
            JsonVal::Null => {
                out.append("null");
                proof {
                    reveal_strlit("null");
                }
                assert(out@ =~= old(out)@ + text(self@));
            },
            JsonVal::Bool(b) => {
                if *b {
                    out.append("true");
                } else {
                    out.append("false");
                }
                proof {
                    reveal_strlit("true");
                    reveal_strlit("false");
                }
                assert(out@ =~= old(out)@ + text(self@));
            },
            JsonVal::Number(n) => {
                push_decimal(out, *n);
            },
            JsonVal::Float(t) => {
                out.append(t.as_str());
            },
            JsonVal::String(s) => {
                push_quoted(out, s.as_str());
            },
            JsonVal::Array(items) => {
                out.push('[');
                assert(items@.take(0) =~= Seq::<JsonVal>::empty());
                let mut i: usize = 0;
                while i < items.len()
                    invariant
                        i <= items@.len(),
                        *self == JsonVal::Array(*items),
                        out@ == old(out)@.push('[') + items_text(models_of(items@.take(i as int))),
                    decreases items@.len() - i,
                {
                    if i > 0 {
                        out.push(',');
                    }
                    proof {
                        assert(decreases_to!(*self => self->Array_0));
                        assert(decreases_to!(*items => items[i as int]));
                    }
                    items[i].write_to(out);
                    proof {
                        assert(items@.take(i + 1).drop_last() =~= items@.take(i as int));
                        assert(models_of(items@.take(i + 1)).drop_last() =~= models_of(
                            items@.take(i as int),
                        ));
                        assert(out@ =~= old(out)@.push('[') + items_text(models_of(items@.take(i + 1))));
                    }
                    i = i + 1;
                }
                out.push(']');
                proof {
                    assert(items@.take(items@.len() as int) =~= items@);
                    assert(out@ =~= old(out)@ + text(self@));
                }
            },
            JsonVal::Object(members) => {
                out.push('{');
                assert(members@.take(0) =~= Seq::<(String, JsonVal)>::empty());
                let mut i: usize = 0;
                while i < members.len()
                    invariant
                        i <= members@.len(),
                        *self == JsonVal::Object(*members),
                        out@ == old(out)@.push('{') + members_text(members_of(members@.take(i as int))),
                    decreases members@.len() - i,
                {
                    if i > 0 {
                        out.push(',');
                    }
                    push_quoted(out, members[i].0.as_str());
                    out.push(':');
                    proof {
                        assert(decreases_to!(*self => self->Object_0));
                        assert(decreases_to!(*members => members[i as int]));
                        assert(decreases_to!(members[i as int] => members[i as int].1));
                    }
                    members[i].1.write_to(out);
                    proof {
                        assert(members@.take(i + 1).drop_last() =~= members@.take(i as int));
                        assert(members_of(members@.take(i + 1)).drop_last() =~= members_of(
                            members@.take(i as int),
                        ));
                        assert(out@ =~= old(out)@.push('{') + members_text(members_of(members@.take(i + 1))));
                    }
                    i = i + 1;
                }
                out.push('}');
                proof {
                    assert(members@.take(members@.len() as int) =~= members@);
                    assert(out@ =~= old(out)@ + text(self@));
                }
            },
        }
    }

    /// The text of the value: compact, and the same for the same value
    /// whenever it is asked for.
    pub fn to_string(&self) -> (r: String)
        ensures
            r@ == text(self@),
    {
        let mut out = String::new();
        self.write_to(&mut out);
        assert(out@ =~= text(self@));
        out
    }
}

/// The place of the first member named `key`.
pub fn position_of(members: &Vec<(String, JsonVal)>, key: &String) -> (r: Option<usize>)
    ensures
        match r {
            Some(i) => index_of(members_of(members@), key@) == Some(i as int) && i < members@.len(),
            None => index_of(members_of(members@), key@) is None,
        },
{
    proof {
        lemma_members_of(members@);
    }
    let mut i: usize = 0;
    while i < members.len()
        invariant
            i <= members@.len(),
            members_of(members@).len() == members@.len(),
            forall|k: int|
                0 <= k < members@.len() ==> (#[trigger] members_of(members@)[k]) == (
                    members@[k].0@,
                    members@[k].1@,
                ),
            index_of(members_of(members@), key@) == index_from(members_of(members@), key@, i as int),
        decreases members@.len() - i,
    {
        if members[i].0 == *key {
            return Some(i);
        }
        i = i + 1;
    }
    None
}

impl JsonVal {
    /// The child under `key`: nothing where the value is no object or has no
    /// member of that name.
    pub fn get(&self, key: &str) -> (r: Option<&JsonVal>)
        ensures
            match r {
                Some(child) => lookup(self@, key@) == Some(child@),
                None => lookup(self@, key@) is None,
            },
    {
        match self {
            JsonVal::Object(members) => {
                let name = key.to_owned();
                proof {
                    lemma_members_of(members@);
                }
                match position_of(members, &name) {
                    Some(i) => Some(&members[i].1),
                    None => None,
                }
            },
            _ => None,
        }
    }

    /// The string under `key`: nothing where the value is no object, the key
    /// is missing, or its value is no string.
    pub fn get_string(&self, key: &str) -> (r: Option<String>)
        ensures
            match r {
                Some(s) => string_at(self@, key@) == Some(s@),
                None => string_at(self@, key@) is None,
            },
    {
        match self.get(key) {
            Some(JsonVal::String(s)) => Some(s.clone()),
            _ => None,
        }
    }

    /// The integer under `key`, on the same terms.
    pub fn get_number(&self, key: &str) -> (r: Option<usize>)
        ensures
            r == number_at(self@, key@),
    {
        match self.get(key) {
            Some(JsonVal::Number(n)) => Some(*n),
            _ => None,
        }
    }

    /// The float under `key`, as its decimal text: that of a float as it
    /// stands, that of an integer as its decimal digits. A string is never
    /// taken for a number.
    pub fn get_float(&self, key: &str) -> (r: Option<String>)
        ensures
            match r {
                Some(t) => float_at(self@, key@) == Some(t@),
                None => float_at(self@, key@) is None,
            },
    {
        match self.get(key) {
            Some(JsonVal::Float(t)) => Some(t.clone()),
            Some(JsonVal::Number(n)) => {
                let mut t = String::new();
                push_decimal(&mut t, *n);
                assert(t@ =~= crate::rendering::decimal(*n as nat));
                Some(t)
            },
            _ => None,
        }
    }

    /// The boolean under `key`, on the same terms.
    pub fn get_bool(&self, key: &str) -> (r: Option<bool>)
        ensures
            r == bool_at(self@, key@),
    {
        match self.get(key) {
            Some(JsonVal::Bool(b)) => Some(*b),
            _ => None,
        }
    }

    /// Whether two values are equal: arrays item by item, objects as maps
    /// from names to values.
    pub fn equals(&self, other: &JsonVal) -> (r: bool)
        ensures
            r == same(self@, other@),
        decreases self,
    {
        match self {
            JsonVal::Null => match other {
                JsonVal::Null => true,
                _ => false,
            },
            JsonVal::Bool(a) => match other {
                JsonVal::Bool(b) => *a == *b,
                _ => false,
            },
            JsonVal::Number(a) => match other {
                JsonVal::Number(b) => *a == *b,
                _ => false,
            },
            JsonVal::Float(a) => match other {
                JsonVal::Float(b) => *a == *b,
                _ => false,
            },
            JsonVal::String(a) => match other {
                JsonVal::String(b) => *a == *b,
                _ => false,
            },
            JsonVal::Array(xs) => match other {
                JsonVal::Array(ys) => {
                    proof {
                        lemma_models_of(xs@);
                        lemma_models_of(ys@);
                    }
                    if xs.len() != ys.len() {
                        return false;
                    }
                    let mut i: usize = 0;
                    while i < xs.len()
                        invariant
                            i <= xs@.len(),
                            xs@.len() == ys@.len(),
                            *self == JsonVal::Array(*xs),
                            *other == JsonVal::Array(*ys),
                            models_of(xs@).len() == xs@.len(),
                            models_of(ys@).len() == ys@.len(),
                            forall|k: int| 0 <= k < xs@.len() ==> (#[trigger] models_of(xs@)[k]) == xs@[k]@,
                            forall|k: int| 0 <= k < ys@.len() ==> (#[trigger] models_of(ys@)[k]) == ys@[k]@,
                            forall|k: int|
                                0 <= k < i ==> same(#[trigger] models_of(xs@)[k], models_of(ys@)[k]),
                        decreases xs@.len() - i,
                    {
                        proof {
                            assert(decreases_to!(*self => self->Array_0));
                            assert(decreases_to!(*xs => xs[i as int]));
                        }
                        if !xs[i].equals(&ys[i]) {
                            assert(!same(models_of(xs@)[i as int], models_of(ys@)[i as int]));
                            return false;
                        }
                        i = i + 1;
                    }
                    true
                },
                _ => false,
            },
            JsonVal::Object(xs) => match other {
                JsonVal::Object(ys) => {
                    proof {
                        lemma_members_of(xs@);
                        lemma_members_of(ys@);
                    }
                    let mut i: usize = 0;
                    while i < xs.len()
                        invariant
                            i <= xs@.len(),
                            *self == JsonVal::Object(*xs),
                            *other == JsonVal::Object(*ys),
                            members_of(xs@).len() == xs@.len(),
                            members_of(ys@).len() == ys@.len(),
                            forall|k: int|
                                0 <= k < xs@.len() ==> (#[trigger] members_of(xs@)[k]) == (
                                    xs@[k].0@,
                                    xs@[k].1@,
                                ),
                            forall|k: int|
                                0 <= k < ys@.len() ==> (#[trigger] members_of(ys@)[k]) == (
                                    ys@[k].0@,
                                    ys@[k].1@,
                                ),
                            forall|k: int|
                                0 <= k < i && index_of(
                                    members_of(xs@),
                                    (#[trigger] members_of(xs@)[k]).0,
                                ) == Some(k) ==> match index_of(members_of(ys@), members_of(xs@)[k].0) {
                                    Some(j) => same(members_of(xs@)[k].1, members_of(ys@)[j].1),
                                    None => false,
                                },
                        decreases xs@.len() - i,
                    {
                        let first = position_of(xs, &xs[i].0);
                        if first == Some(i) {
                            match position_of(ys, &xs[i].0) {
                                None => {
                                    assert(index_of(members_of(ys@), members_of(xs@)[i as int].0) is None);
                                    return false;
                                },
                                Some(j) => {
                                    proof {
                                        assert(decreases_to!(*self => self->Object_0));
                                        assert(decreases_to!(*xs => xs[i as int]));
                                        assert(decreases_to!(xs[i as int] => xs[i as int].1));
                                    }
                                    if !xs[i].1.equals(&ys[j].1) {
                                        assert(!same(
                                            members_of(xs@)[i as int].1,
                                            members_of(ys@)[j as int].1,
                                        ));
                                        return false;
                                    }
                                },
                            }
                        }
                        i = i + 1;
                    }
                    let mut j: usize = 0;
                    while j < ys.len()
                        invariant
                            j <= ys@.len(),
                            *self == JsonVal::Object(*xs),
                            *other == JsonVal::Object(*ys),
                            members_of(xs@).len() == xs@.len(),
                            members_of(ys@).len() == ys@.len(),
                            forall|k: int|
                                0 <= k < xs@.len() && index_of(
                                    members_of(xs@),
                                    (#[trigger] members_of(xs@)[k]).0,
                                ) == Some(k) ==> match index_of(members_of(ys@), members_of(xs@)[k].0) {
                                    Some(j) => same(members_of(xs@)[k].1, members_of(ys@)[j].1),
                                    None => false,
                                },
                            forall|k: int|
                                0 <= k < ys@.len() ==> (#[trigger] members_of(ys@)[k]) == (
                                    ys@[k].0@,
                                    ys@[k].1@,
                                ),
                            forall|k: int|
                                0 <= k < j ==> index_of(
                                    members_of(xs@),
                                    (#[trigger] members_of(ys@)[k]).0,
                                ) is Some,
                        decreases ys@.len() - j,
                    {
                        if position_of(xs, &ys[j].0).is_none() {
                            assert(index_of(members_of(xs@), members_of(ys@)[j as int].0) is None);
                            return false;
                        }
                        j = j + 1;
                    }
                    true
                },
                _ => false,
            },
        }
    }
}

/// Writes a member: a member of that name has its value replaced where it
/// stands, a new name goes to the end.
pub fn put_member(members: &mut Vec<(String, JsonVal)>, key: String, value: JsonVal)
    ensures
        members_of(final(members)@) == put(members_of(old(members)@), key@, value@),
{
    proof {
        lemma_members_of(members@);
    }
    match position_of(members, &key) {
        Some(i) => {
            members.set(i, (key, value));
            proof {
                lemma_members_of(members@);
                assert(members_of(members@) =~= put(members_of(old(members)@), key@, value@));
            }
        },
        None => {
            members.push((key, value));
            proof {
                assert(members@.drop_last() =~= old(members)@);
            }
        },
    }
}

impl PartialEq for JsonVal {
    fn eq(&self, other: &JsonVal) -> (r: bool) {
        self.equals(other)
    }
}

impl vstd::std_specs::cmp::PartialEqSpecImpl for JsonVal {
    open spec fn obeys_eq_spec() -> bool {
        true
    }

    open spec fn eq_spec(&self, other: &JsonVal) -> bool {
        same(self@, other@)
    }
}

/// A type that is built from a JSON object, field by field.
///
/// Each field reads the member of its source name. A member that is missing
/// or holds a value of another kind leaves the field at its default; it is
/// no failure. The only failure is a value that is no object.
pub trait FromJsonVal: Sized {
    /// Whether `self` is what the object `val` gives. A type says here what
    /// its fields read; a type that says nothing promises nothing.
    open spec fn built_from(&self, val: Json) -> bool {
        true
    }

    fn from_json(val: &JsonVal) -> (r: Result<Self, String>)
        ensures
            r is Ok <==> val@ is Object,
            r matches Ok(built) ==> built.built_from(val@),
            r matches Err(message) ==> message@ == not_an_object(),
    ;
}

/// What `from_json` says of a value that is no object.
pub open spec fn not_an_object() -> Seq<char> {
    "expected a JSON object"@
}

/// The failure of `from_json` on a value that is no object.
pub fn not_an_object_error() -> (message: String)
    ensures
        message@ == not_an_object(),
{
    "expected a JSON object".to_owned()
}

/// A field of kind string: the string under `key`, or the empty string.
pub fn string_field(val: &JsonVal, key: &str) -> (r: String)
    ensures
        r@ == string_or_default(val@, key@),
{
    match val.get_string(key) {
        Some(s) => s,
        None => String::new(),
    }
}

/// A field of kind integer: the integer under `key`, or zero.
pub fn number_field(val: &JsonVal, key: &str) -> (r: usize)
    ensures
        r == number_or_default(val@, key@),
{
    match val.get_number(key) {
        Some(n) => n,
        None => 0,
    }
}

/// A field of kind float: the decimal text of the float or integer under
/// `key`, or `0`.
pub fn float_field(val: &JsonVal, key: &str) -> (r: String)
    ensures
        r@ == float_or_default(val@, key@),
{
    match val.get_float(key) {
        Some(t) => t,
        None => {
            let mut t = String::new();
            t.push('0');
            assert(t@ =~= seq!['0']);
            t
        },
    }
}

/// A field of kind boolean: the boolean under `key`, or `false`.
pub fn bool_field(val: &JsonVal, key: &str) -> (r: bool)
    ensures
        r == bool_or_default(val@, key@),
{
    match val.get_bool(key) {
        Some(b) => b,
        None => false,
    }
}

/// A field of kind nested object: what the object under `key` gives, or the
/// default of the field's type where `key` is missing or holds no object.
pub fn nested_field<T: FromJsonVal + Default>(val: &JsonVal, key: &str) -> (r: T)
    ensures
        match lookup(val@, key@) {
            Some(child) => if child is Object {
                r.built_from(child)
            } else {
                call_ensures(T::default, (), r)
            },
            None => call_ensures(T::default, (), r),
        },
{
    match val.get(key) {
        Some(child) => match T::from_json(child) {
            Ok(built) => built,
            Err(_) => T::default(),
        },
        None => T::default(),
    }
}

/// A repository, as an event names it.
#[derive(Debug)]
pub struct Repo {
    pub id: usize,
    pub name: String,
    pub url: String,
}

impl Repo {
    /// Every field is at its default.
    pub open spec fn is_default(&self) -> bool {
        self.id == 0 && self.name@ == Seq::<char>::empty() && self.url@ == Seq::<char>::empty()
    }
}

impl Default for Repo {
    fn default() -> (r: Repo)
        ensures
            r.is_default(),
    {
        Repo { id: 0, name: String::new(), url: String::new() }
    }
}

impl FromJsonVal for Repo {
    open spec fn built_from(&self, val: Json) -> bool {
        &&& self.id == number_or_default(val, "id"@)
        &&& self.name@ == string_or_default(val, "name"@)
        &&& self.url@ == string_or_default(val, "url"@)
    }

    fn from_json(val: &JsonVal) -> (r: Result<Repo, String>) {
        match val {
            JsonVal::Object(_) => Ok(
                Repo {
                    id: number_field(val, "id"),
                    name: string_field(val, "name"),
                    url: string_field(val, "url"),
                },
            ),
            _ => Err(not_an_object_error()),
        }
    }
}

/// An event of a repository's history. The field `action` reads the member
/// named `type`.
#[derive(Debug)]
pub struct GitBlob {
    pub id: String,
    pub action: String,
    pub merge_commit_sha: String,
    pub repo: Repo,
}

impl FromJsonVal for GitBlob {
    open spec fn built_from(&self, val: Json) -> bool {
        &&& self.id@ == string_or_default(val, "id"@)
        &&& self.action@ == string_or_default(val, "type"@)
        &&& self.merge_commit_sha@ == string_or_default(val, "merge_commit_sha"@)
        &&& match lookup(val, "repo"@) {
            Some(child) => if child is Object {
                self.repo.built_from(child)
            } else {
                self.repo.is_default()
            },
            None => self.repo.is_default(),
        }
    }

    fn from_json(val: &JsonVal) -> (r: Result<GitBlob, String>) {
        match val {
            JsonVal::Object(_) => Ok(
                GitBlob {
                    id: string_field(val, "id"),
                    action: string_field(val, "type"),
                    merge_commit_sha: string_field(val, "merge_commit_sha"),
                    repo: nested_field::<Repo>(val, "repo"),
                },
            ),
            _ => Err(not_an_object_error()),
        }
    }
}

/// The items of an array that are objects, in their order.
pub open spec fn objects_among(items: Seq<Json>) -> Seq<Json>
    decreases items.len(),
{
    if items.len() == 0 {
        Seq::empty()
    } else if items.last() is Object {
        objects_among(items.drop_last()).push(items.last())
    } else {
        objects_among(items.drop_last())
    }
}

/// One `T` for each object among the items of an array, in their order.
/// Items that are no objects are passed over, and a value that is no array
/// gives nothing.
pub fn parse_blobs<T: FromJsonVal>(val: &JsonVal) -> (r: Vec<T>)
    ensures
        match val@ {
            Json::Array(items) => r@.len() == objects_among(items).len() && forall|i: int|
                0 <= i < r@.len() ==> (#[trigger] r@[i]).built_from(objects_among(items)[i]),
            _ => r@.len() == 0,
        },
{
    let mut blobs: Vec<T> = Vec::new();
    match val {
        JsonVal::Array(items) => {
            let mut i: usize = 0;
            assert(items@.take(0) =~= Seq::<JsonVal>::empty());
            while i < items.len()
                invariant
                    i <= items@.len(),
                    blobs@.len() == objects_among(models_of(items@.take(i as int))).len(),
                    forall|k: int|
                        0 <= k < blobs@.len() ==> (#[trigger] blobs@[k]).built_from(
                            objects_among(models_of(items@.take(i as int)))[k],
                        ),
                decreases items@.len() - i,
            {
                proof {
                    assert(items@.take(i + 1).drop_last() =~= items@.take(i as int));
                    assert(models_of(items@.take(i + 1)).drop_last() =~= models_of(items@.take(i as int)));
                }
                match T::from_json(&items[i]) {
                    Ok(blob) => {
                        blobs.push(blob);
                    },
                    Err(_) => {},
                }
                i = i + 1;
            }
            assert(items@.take(items@.len() as int) =~= items@);
        },
        _ => {},
    }
    blobs
}

} // verus!
