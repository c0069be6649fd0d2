//! Reading back what was written: the text of a value, parsed, is the value.

use crate::grammar::{
    array_items, digits_end, digits_value, element, false_word, has_at, is_digit, is_float_text,
    is_space, lemma_digits_end, lemma_digits_end_in_part, null_word, number, number_shape,
    object_members, string_body, true_word, value, Fault,
};
use crate::deserializer::{reading_of, SyntaxError};
use crate::model::{distinct_keys, lemma_index_of_absent, lemma_same_reflexive, put, same, Json};
use crate::rendering::{
    decimal, digit_char, escaped, escaped_char, items_text, members_text, quoted, separator, text,
};
use crate::serializer::JsonVal;
use vstd::prelude::*;

verus! {

/// The string holds no backslash.
pub open spec fn plain_string(s: Seq<char>) -> bool {
    forall|i: int| 0 <= i < s.len() ==> #[trigger] s[i] != '\\'
}

/// The value is one that is read back from its text: every float in it holds
/// the text of a float, no string or name in it holds a backslash, and no
/// object in it has two members of one name.
pub open spec fn plain(v: Json) -> bool
    decreases v,
{
    match v {
        Json::Float(t) => is_float_text(t),
        Json::String(s) => plain_string(s),
        Json::Array(items) => forall|i: int| 0 <= i < items.len() ==> plain(#[trigger] items[i]),
        Json::Object(members) => distinct_keys(members) && forall|i: int|
            0 <= i < members.len() ==> plain_string((#[trigger] members[i]).0) && plain(members[i].1),
        _ => true,
    }
}

/// No number goes on at `pos`: the text ends there, or holds a character
/// there that is no digit, point or exponent mark.
pub open spec fn number_ends(s: Seq<char>, pos: int) -> bool {
    pos >= s.len() || !(is_digit(s[pos]) || s[pos] == '.' || s[pos] == 'e' || s[pos] == 'E')
}

/// A character that the text of a value may start with.
pub open spec fn starts_value(c: char) -> bool {
    c == 'n' || c == 't' || c == 'f' || c == '"' || c == '[' || c == '{' || c == '-' || is_digit(c)
}

/// A text that holds `a` and then `b` holds each of them in its place.
pub proof fn lemma_has_at_split(s: Seq<char>, pos: int, a: Seq<char>, b: Seq<char>)
    requires
        has_at(s, pos, a + b),
    ensures
        has_at(s, pos, a),
        has_at(s, pos + a.len(), b),
{
    let whole = s.subrange(pos, pos + (a + b).len());
    assert forall|i: int| 0 <= i < a.len() implies s.subrange(pos, pos + a.len())[i] == a[i] by {
        assert(whole[i] == (a + b)[i]);
    }
    assert(s.subrange(pos, pos + a.len()) =~= a);
    assert forall|i: int| 0 <= i < b.len() implies s.subrange(pos + a.len(), pos + a.len() + b.len())[i]
        == b[i] by {
        assert(whole[a.len() + i] == (a + b)[a.len() + i]);
    }
    assert(s.subrange(pos + a.len(), pos + a.len() + b.len()) =~= b);
}

/// A text that holds a word holds each of its characters.
pub proof fn lemma_has_at_index(s: Seq<char>, pos: int, word: Seq<char>, i: int)
    requires
        has_at(s, pos, word),
        0 <= i < word.len(),
    ensures
        s[pos + i] == word[i],
{
    assert(s.subrange(pos, pos + word.len())[i] == word[i]);
}

/// The decimal digits of a number are digits, at least one.
pub proof fn lemma_decimal_digits(n: nat)
    ensures
        decimal(n).len() >= 1,
        forall|i: int| 0 <= i < decimal(n).len() ==> is_digit(#[trigger] decimal(n)[i]),
    decreases n,
{
    if n >= 10 {
        lemma_decimal_digits(n / 10);
    }
}

/// A run of digits that is followed by no digit ends where it is followed.
pub proof fn lemma_digits_end_of_run(s: Seq<char>, pos: int, count: nat)
    requires
        0 <= pos,
        pos + count <= s.len(),
        forall|i: int| pos <= i < pos + count ==> is_digit(#[trigger] s[i]),
        pos + count == s.len() || !is_digit(s[pos + count]),
    ensures
        digits_end(s, pos) == pos + count,
    decreases count,
{
    if count > 0 {
        lemma_digits_end_of_run(s, pos + 1, (count - 1) as nat);
    }
}

/// The decimal digits of a number denote it.
pub proof fn lemma_digits_value_of_decimal(s: Seq<char>, pos: int, n: nat)
    requires
        has_at(s, pos, decimal(n)),
    ensures
        digits_value(s, pos, pos + decimal(n).len()) == n,
    decreases n,
{
    let len = decimal(n).len() as int;
    lemma_has_at_index(s, pos, decimal(n), len - 1);
    if n < 10 {
        assert(digits_value(s, pos, pos) == 0);
    } else {
        let head = decimal(n / 10);
        let last = seq![digit_char((n % 10) as int)];
        assert(decimal(n) =~= head + last);
        lemma_has_at_split(s, pos, head, last);
        lemma_digits_value_of_decimal(s, pos, n / 10);
    }
}

/// Escaping a string in two parts.
pub proof fn lemma_escaped_concat(a: Seq<char>, b: Seq<char>)
    ensures
        escaped(a + b) == escaped(a) + escaped(b),
    decreases b.len(),
{
    if b.len() == 0 {
        assert(a + b =~= a);
        assert(escaped(a) + escaped(b) =~= escaped(a));
    } else {
        lemma_escaped_concat(a, b.drop_last());
        assert((a + b).drop_last() =~= a + b.drop_last());
        assert(escaped(a + b) =~= escaped(a) + escaped(b));
    }
}

/// What was escaped is read back: where the text holds the escaped rest of a
/// string and its closing quote, the string is what was read so far and that
/// rest.
pub proof fn lemma_string_reads_back(s: Seq<char>, pos: int, read: Seq<char>, rest: Seq<char>)
    requires
        plain_string(rest),
        has_at(s, pos, escaped(rest) + seq!['"']),
    ensures
        string_body(s, pos, read) == Ok::<(Seq<char>, int), (Fault, int)>(
            (read + rest, pos + escaped(rest).len() + 1),
        ),
    decreases rest.len(),
{
    if rest.len() == 0 {
        lemma_has_at_index(s, pos, escaped(rest) + seq!['"'], 0);
        assert(read + rest =~= read);
    } else {
        let c = rest[0];
        let tail = rest.drop_first();
        assert(rest =~= seq![c] + tail);
        lemma_escaped_concat(seq![c], tail);
        assert(seq![c].drop_last() =~= Seq::<char>::empty());
        assert(escaped(Seq::<char>::empty()) =~= Seq::<char>::empty());
        assert(seq![c].last() == c);
        assert(escaped(seq![c]) =~= escaped_char(c));
        assert(escaped(rest) + seq!['"'] =~= escaped_char(c) + (escaped(tail) + seq!['"']));
        lemma_has_at_split(s, pos, escaped_char(c), escaped(tail) + seq!['"']);
        lemma_has_at_index(s, pos, escaped_char(c), 0);
        assert(rest[0] != '\\');
        assert(plain_string(tail)) by {
            assert forall|i: int| 0 <= i < tail.len() implies #[trigger] tail[i] != '\\' by {
                assert(tail[i] == rest[i + 1]);
            }
        }
        if c == '"' {
            lemma_has_at_index(s, pos, escaped_char(c), 1);
            lemma_string_reads_back(s, pos + 2, read.push(c), tail);
        } else {
            lemma_string_reads_back(s, pos + 1, read.push(c), tail);
        }
        assert(read.push(c) + tail =~= read + rest);
    }
}

/// The decimal digits of a number are read back as the number.
pub proof fn lemma_number_reads_back(s: Seq<char>, pos: int, n: usize)
    requires
        has_at(s, pos, decimal(n as nat)),
        number_ends(s, pos + decimal(n as nat).len()),
    ensures
        number(s, pos) == Ok::<(Json, int), (Fault, int)>((Json::Number(n), pos + decimal(n as nat).len())),
        is_digit(s[pos]),
{
    let digits = decimal(n as nat);
    let end = pos + digits.len();
    lemma_decimal_digits(n as nat);
    assert forall|i: int| pos <= i < end implies is_digit(#[trigger] s[i]) by {
        lemma_has_at_index(s, pos, digits, i - pos);
    }
    lemma_digits_end_of_run(s, pos, digits.len());
    lemma_digits_value_of_decimal(s, pos, n as nat);
    assert(is_digit(s[pos]));
    let shape = number_shape(s, pos);
    assert(shape.digits_from == pos);
    assert(shape.digits_to == end);
    assert(!shape.has_fraction);
    assert(!shape.has_exponent);
}

/// The text of a float is read back as the float.
pub proof fn lemma_float_reads_back(s: Seq<char>, pos: int, t: Seq<char>)
    requires
        is_float_text(t),
        has_at(s, pos, t),
        number_ends(s, pos + t.len()),
    ensures
        number(s, pos) == Ok::<(Json, int), (Fault, int)>((Json::Float(t), pos + t.len())),
        is_digit(s[pos]) || s[pos] == '-',
{
    let end = pos + t.len();
    let inner = number_shape(t, 0);
    let shape = number_shape(s, pos);
    assert(t == s.subrange(pos, end));
    assert forall|i: int| 0 <= i < t.len() implies t[i] == s[pos + i] by {
        lemma_has_at_index(s, pos, t, i);
    }
    assert(t[0] == s[pos]);
    lemma_digits_end(t, inner.digits_from);
    lemma_digits_end_in_part(s, pos, end, pos + inner.digits_from);
    assert(shape.digits_from == inner.digits_from + pos);
    assert(shape.digits_to == inner.digits_to + pos);
    if inner.has_fraction {
        assert(t[inner.digits_to] == s[pos + inner.digits_to]);
        lemma_digits_end(t, inner.digits_to + 1);
        lemma_digits_end_in_part(s, pos, end, pos + inner.digits_to + 1);
    } else if inner.digits_to < t.len() {
        assert(t[inner.digits_to] == s[pos + inner.digits_to]);
    }
    assert(shape.has_fraction == inner.has_fraction);
    assert(shape.fraction_to == inner.fraction_to + pos);
    if inner.has_exponent {
        assert(t[inner.fraction_to] == s[pos + inner.fraction_to]);
        lemma_digits_end(t, inner.exponent_from);
        if inner.fraction_to + 1 < t.len() {
            assert(t[inner.fraction_to + 1] == s[pos + inner.fraction_to + 1]);
        }
        lemma_digits_end_in_part(s, pos, end, pos + inner.exponent_from);
    } else if inner.fraction_to < t.len() {
        assert(t[inner.fraction_to] == s[pos + inner.fraction_to]);
    }
    assert(shape.has_exponent == inner.has_exponent);
    assert(shape.exponent_from == inner.exponent_from + pos);
    assert(shape.end == inner.end + pos);
    assert(t.subrange(0, t.len() as int) =~= t);
}

/// The text of a value starts with a character that starts a value.
pub proof fn lemma_text_starts(v: Json)
    requires
        v matches Json::Float(t) ==> is_float_text(t),
    ensures
        text(v).len() >= 1,
        starts_value(text(v)[0]),
{
    match v {
        Json::Number(n) => {
            lemma_decimal_digits(n as nat);
        },
        _ => {},
    }
}

/// The text of the items of an array, from its first item on.
pub proof fn lemma_items_text_front(items: Seq<Json>)
    requires
        items.len() >= 1,
    ensures
        items_text(items) == text(items[0]) + separator(items.len() - 1) + items_text(items.drop_first()),
    decreases items.len(),
{
    let front = items.drop_last();
    let back = items.drop_first();
    if items.len() == 1 {
        assert(items_text(front) =~= Seq::<char>::empty());
        assert(items_text(back) =~= Seq::<char>::empty());
        assert(items_text(items) =~= text(items[0]) + separator(0) + items_text(back));
    } else {
        lemma_items_text_front(front);
        assert(front[0] == items[0]);
        assert(front.drop_first() =~= back.drop_last());
        assert(back.last() == items.last());
        assert(items_text(items) =~= text(items[0]) + separator(items.len() - 1) + items_text(back));
    }
}

/// The text of the members of an object, from its first member on.
pub proof fn lemma_members_text_front(members: Seq<(Seq<char>, Json)>)
    requires
        members.len() >= 1,
    ensures
        members_text(members) == quoted(members[0].0) + seq![':'] + text(members[0].1) + separator(
            members.len() - 1,
        ) + members_text(members.drop_first()),
    decreases members.len(),
{
    let front = members.drop_last();
    let back = members.drop_first();
    if members.len() == 1 {
        assert(members_text(front) =~= Seq::<char>::empty());
        assert(members_text(back) =~= Seq::<char>::empty());
        assert(members_text(members) =~= quoted(members[0].0) + seq![':'] + text(members[0].1)
            + separator(0) + members_text(back));
    } else {
        lemma_members_text_front(front);
        assert(front[0] == members[0]);
        assert(front.drop_first() =~= back.drop_last());
        assert(back.last() == members.last());
        assert(members_text(members) =~= quoted(members[0].0) + seq![':'] + text(members[0].1)
            + separator(members.len() - 1) + members_text(back));
    }
}

/// A value is read back from its text, wherever the text stands: where a
/// text holds the text of a plain value, and no number goes on after it,
/// the value is read there and the reading ends where its text ends.
pub proof fn lemma_reads_back(s: Seq<char>, pos: int, v: Json)
    requires
        plain(v),
        has_at(s, pos, text(v)),
        number_ends(s, pos + text(v).len()),
    ensures
        element(s, pos) == Ok::<(Json, int), (Fault, int)>((v, pos + text(v).len())),
    decreases v, 0int,
{
    lemma_text_starts(v);
    lemma_has_at_index(s, pos, text(v), 0);
    match v {
        Json::Null => {
            assert(text(v) =~= null_word());
        },
        Json::Bool(b) => {
            if b {
                assert(text(v) =~= true_word());
            } else {
                assert(text(v) =~= false_word());
                if has_at(s, pos, true_word()) {
                    lemma_has_at_index(s, pos, true_word(), 0);
                }
            }
        },
        Json::Number(n) => {
            lemma_number_reads_back(s, pos, n);
        },
        Json::Float(t) => {
            lemma_float_reads_back(s, pos, t);
        },
        Json::String(t) => {
            assert(text(v) =~= seq!['"'] + (escaped(t) + seq!['"']));
            lemma_has_at_split(s, pos, seq!['"'], escaped(t) + seq!['"']);
            lemma_string_reads_back(s, pos + 1, Seq::empty(), t);
            assert(Seq::<char>::empty() + t =~= t);
        },
        Json::Array(items) => {
            assert(text(v) =~= seq!['['] + (items_text(items) + seq![']']));
            lemma_has_at_split(s, pos, seq!['['], items_text(items) + seq![']']);
            lemma_items_read_back(s, pos + 1, Seq::empty(), items, false);
            assert(Seq::<Json>::empty() + items =~= items);
        },
        Json::Object(members) => {
            assert(text(v) =~= seq!['{'] + (members_text(members) + seq!['}']));
            lemma_has_at_split(s, pos, seq!['{'], members_text(members) + seq!['}']);
            assert(Seq::<(Seq<char>, Json)>::empty() + members =~= members);
            lemma_members_read_back(s, pos + 1, Seq::empty(), members, false);
        },
    }
}

/// What closes an array or an object: the bracket, with or without a comma
/// before it.
pub open spec fn closing(bracket: char, trailing_comma: bool) -> Seq<char> {
    if trailing_comma {
        seq![',', bracket]
    } else {
        seq![bracket]
    }
}

/// The rest of an array is read back: where a text holds the texts of the
/// items that are left and the closing bracket, the array is the items read
/// so far and those. A comma between the last item and the bracket changes
/// nothing.
pub proof fn lemma_items_read_back(
    s: Seq<char>,
    pos: int,
    read: Seq<Json>,
    rest: Seq<Json>,
    trailing_comma: bool,
)
    requires
        forall|i: int| 0 <= i < rest.len() ==> plain(#[trigger] rest[i]),
        trailing_comma ==> rest.len() >= 1,
        has_at(s, pos, items_text(rest) + closing(']', trailing_comma)),
    ensures
        array_items(s, pos, read) == Ok::<(Json, int), (Fault, int)>(
            (Json::Array(read + rest), pos + items_text(rest).len() + closing(']', trailing_comma).len()),
        ),
    decreases rest, 0int,
{
    let end = closing(']', trailing_comma);
    if rest.len() == 0 {
        lemma_has_at_index(s, pos, items_text(rest) + end, 0);
        assert(read + rest =~= read);
    } else {
        let first = rest[0];
        let tail = rest.drop_first();
        let after = separator(rest.len() - 1) + (items_text(tail) + end);
        lemma_items_text_front(rest);
        assert(items_text(rest) + end =~= text(first) + after);
        lemma_has_at_split(s, pos, text(first), after);
        lemma_text_starts(first);
        lemma_has_at_index(s, pos, text(first), 0);
        let next = pos + text(first).len();
        lemma_has_at_index(s, next, after, 0);
        lemma_reads_back(s, pos, first);
        assert forall|i: int| 0 <= i < tail.len() implies plain(#[trigger] tail[i]) by {
            assert(tail[i] == rest[i + 1]);
        }
        if rest.len() > 1 {
            lemma_has_at_split(s, next, separator(rest.len() - 1), items_text(tail) + end);
            lemma_items_read_back(s, next + 1, read.push(first), tail, trailing_comma);
        } else {
            assert(items_text(tail) =~= Seq::<char>::empty());
            if trailing_comma {
                assert(after =~= seq![','] + (items_text(tail) + seq![']']));
                lemma_has_at_split(s, next, seq![','], items_text(tail) + seq![']']);
                lemma_items_read_back(s, next + 1, read.push(first), tail, false);
            } else {
                assert(after =~= items_text(tail) + seq![']']);
                lemma_items_read_back(s, next, read.push(first), tail, false);
            }
        }
        assert(read.push(first) + tail =~= read + rest);
    }
}

/// A member is read back: where a text holds the name of a member between
/// quotes, a colon, the text of its value, and then a comma or a closing
/// brace, the name and the value are read, one after the other.
pub proof fn lemma_member_reads_back(s: Seq<char>, pos: int, key: Seq<char>, child: Json, after: Seq<char>)
    requires
        plain_string(key),
        plain(child),
        has_at(s, pos, quoted(key) + (seq![':'] + (text(child) + after))),
        after.len() >= 1,
        after[0] == ',' || after[0] == '}',
    ensures
        0 <= pos < s.len(),
        s[pos] == '"',
        string_body(s, pos + 1, Seq::empty()) == Ok::<(Seq<char>, int), (Fault, int)>(
            (key, pos + quoted(key).len()),
        ),
        pos + quoted(key).len() + 1 + text(child).len() < s.len(),
        s[pos + quoted(key).len()] == ':',
        !is_space(s[pos + quoted(key).len() + 1]),
        element(s, pos + quoted(key).len() + 1) == Ok::<(Json, int), (Fault, int)>(
            (child, pos + quoted(key).len() + 1 + text(child).len()),
        ),
        text(child).len() >= 1,
        has_at(s, pos + quoted(key).len() + 1 + text(child).len(), after),
    decreases child, 1int,
{
    let rest = seq![':'] + (text(child) + after);
    assert(quoted(key) + rest =~= seq!['"'] + ((escaped(key) + seq!['"']) + rest));
    lemma_has_at_split(s, pos, seq!['"'], (escaped(key) + seq!['"']) + rest);
    lemma_has_at_index(s, pos, seq!['"'], 0);
    lemma_has_at_split(s, pos + 1, escaped(key) + seq!['"'], rest);
    lemma_string_reads_back(s, pos + 1, Seq::empty(), key);
    assert(Seq::<char>::empty() + key =~= key);
    let colon = pos + quoted(key).len();
    lemma_has_at_split(s, colon, seq![':'], text(child) + after);
    lemma_has_at_index(s, colon, seq![':'], 0);
    let start = colon + 1;
    lemma_has_at_split(s, start, text(child), after);
    lemma_text_starts(child);
    lemma_has_at_index(s, start, text(child), 0);
    let next = start + text(child).len();
    lemma_has_at_index(s, next, after, 0);
    lemma_reads_back(s, start, child);
}

/// The rest of an object is read back: where a text holds the texts of the
/// members that are left and the closing brace, the object is the members
/// read so far and those. A comma between the last member and the brace
/// changes nothing.
pub proof fn lemma_members_read_back(
    s: Seq<char>,
    pos: int,
    read: Seq<(Seq<char>, Json)>,
    rest: Seq<(Seq<char>, Json)>,
    trailing_comma: bool,
)
    requires
        forall|i: int| 0 <= i < rest.len() ==> plain_string((#[trigger] rest[i]).0) && plain(rest[i].1),
        distinct_keys(read + rest),
        trailing_comma ==> rest.len() >= 1,
        has_at(s, pos, members_text(rest) + closing('}', trailing_comma)),
    ensures
        object_members(s, pos, read) == Ok::<(Json, int), (Fault, int)>(
            (Json::Object(read + rest), pos + members_text(rest).len() + closing('}', trailing_comma).len()),
        ),
    decreases rest, 0int,
{
    let end = closing('}', trailing_comma);
    if rest.len() == 0 {
        lemma_has_at_index(s, pos, members_text(rest) + end, 0);
        assert(read + rest =~= read);
    } else {
        let key = rest[0].0;
        let child = rest[0].1;
        let tail = rest.drop_first();
        let after = separator(rest.len() - 1) + (members_text(tail) + end);
        lemma_members_text_front(rest);
        assert(members_text(rest) + end =~= quoted(key) + (seq![':'] + (text(child) + after)));
        if rest.len() == 1 {
            assert(members_text(tail) =~= Seq::<char>::empty());
        }
        assert(after[0] == ',' || after[0] == '}');
        lemma_member_reads_back(s, pos, key, child, after);
        let next = pos + quoted(key).len() + 1 + text(child).len();
        lemma_has_at_index(s, next, after, 0);
        assert forall|i: int| 0 <= i < tail.len() implies plain_string((#[trigger] tail[i]).0) && plain(
            tail[i].1,
        ) by {
            assert(tail[i] == rest[i + 1]);
        }
        assert forall|j: int| 0 <= j < read.len() implies (#[trigger] read[j]).0 != key by {
            assert((read + rest)[j] == read[j]);
            assert((read + rest)[read.len() as int] == rest[0]);
        }
        lemma_index_of_absent(read, key);
        assert(put(read, key, child) == read.push(rest[0]));
        assert(read.push(rest[0]) + tail =~= read + rest);
        if rest.len() > 1 {
            lemma_has_at_split(s, next, separator(rest.len() - 1), members_text(tail) + end);
            lemma_members_read_back(s, next + 1, read.push(rest[0]), tail, trailing_comma);
        } else if trailing_comma {
            assert(after =~= seq![','] + (members_text(tail) + seq!['}']));
            lemma_has_at_split(s, next, seq![','], members_text(tail) + seq!['}']);
            lemma_members_read_back(s, next + 1, read.push(rest[0]), tail, false);
        } else {
            assert(after =~= members_text(tail) + seq!['}']);
            lemma_members_read_back(s, next, read.push(rest[0]), tail, false);
        }
    }
}

/// Parsing the text of a value gives the value back: for every value in
/// which each float holds the text of a float, no string or name holds a
/// backslash, and no object has a name twice, the parser reads the whole
/// text, and what it reads is the value, member for member and in the same
/// order.
pub proof fn lemma_round_trip(v: Json)
    requires
        plain(v),
    ensures
        value(text(v), 0) == Ok::<(Json, int), (Fault, int)>((v, text(v).len() as int)),
        same(v, v),
{
    let s = text(v);
    lemma_text_starts(v);
    assert(s.subrange(0, s.len() as int) =~= s);
    lemma_reads_back(s, 0, v);
    lemma_same_reflexive(v);
}

/// The same of the parser and the values that it gives: whatever the parser
/// returns for the text of a plain value, with the cursor at the start, is a
/// value with the model of the one that was written, and `==` holds between
/// the two; the cursor is left at the end of the text.
pub proof fn lemma_parsed_text_equals(v: JsonVal, r: Result<JsonVal, SyntaxError>, end: int)
    requires
        plain(v@),
        reading_of(r, end) == value(text(v@), 0),
    ensures
        r matches Ok(read) && read@ == v@ && same(read@, v@),
        end == text(v@).len(),
{
    lemma_round_trip(v@);
}

/// Writing what was read back gives the same text again.
pub proof fn lemma_text_is_stable(v: Json)
    requires
        plain(v),
    ensures
        match value(text(v), 0) {
            Ok((read, _)) => text(read) == text(v),
            Err(_) => false,
        },
{
    lemma_round_trip(v);
}

/// A comma after the last item of an array changes nothing: the text of an
/// array with a comma before its closing bracket is read as the array.
pub proof fn lemma_trailing_comma_in_array(items: Seq<Json>)
    requires
        items.len() >= 1,
        forall|i: int| 0 <= i < items.len() ==> plain(#[trigger] items[i]),
    ensures
        value(seq!['['] + items_text(items) + seq![',', ']'], 0) == Ok::<(Json, int), (Fault, int)>(
            (Json::Array(items), (items_text(items).len() + 3) as int),
        ),
{
    let s = seq!['['] + items_text(items) + seq![',', ']'];
    assert(s =~= seq!['['] + (items_text(items) + closing(']', true)));
    assert(s.subrange(0, s.len() as int) =~= s);
    lemma_has_at_split(s, 0, seq!['['], items_text(items) + closing(']', true));
    lemma_has_at_index(s, 0, seq!['['], 0);
    lemma_items_read_back(s, 1, Seq::empty(), items, true);
    assert(Seq::<Json>::empty() + items =~= items);
}

/// A comma after the last member of an object changes nothing: the text of
/// an object with a comma before its closing brace is read as the object.
pub proof fn lemma_trailing_comma_in_object(members: Seq<(Seq<char>, Json)>)
    requires
        members.len() >= 1,
        distinct_keys(members),
        forall|i: int|
            0 <= i < members.len() ==> plain_string((#[trigger] members[i]).0) && plain(members[i].1),
    ensures
        value(seq!['{'] + members_text(members) + seq![',', '}'], 0) == Ok::<(Json, int), (Fault, int)>(
            (Json::Object(members), (members_text(members).len() + 3) as int),
        ),
{
    let s = seq!['{'] + members_text(members) + seq![',', '}'];
    assert(s =~= seq!['{'] + (members_text(members) + closing('}', true)));
    assert(s.subrange(0, s.len() as int) =~= s);
    lemma_has_at_split(s, 0, seq!['{'], members_text(members) + closing('}', true));
    lemma_has_at_index(s, 0, seq!['{'], 0);
    assert(Seq::<(Seq<char>, Json)>::empty() + members =~= members);
    lemma_members_read_back(s, 1, Seq::empty(), members, true);
}

} // verus!
