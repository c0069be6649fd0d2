//! The text of a JSON value: compact, with no whitespace between its parts.

use crate::model::Json;
use vstd::prelude::*;

verus! {

/// The character of a decimal digit.
pub open spec fn digit_char(d: int) -> char {
    (d + 48) as char
}

/// The decimal digits of a number, without sign or leading zeros.
pub open spec fn decimal(n: nat) -> Seq<char>
    decreases n,
{
    if n < 10 {
        seq![digit_char(n as int)]
    } else {
        decimal(n / 10).push(digit_char((n % 10) as int))
    }
}

/// A character as it stands inside quotes: a quote gets a backslash before
/// it, every other character stands for itself.
pub open spec fn escaped_char(c: char) -> Seq<char> {
    if c == '"' {
        seq!['\\', '"']
    } else {
        seq![c]
    }
}

/// The characters of a string as they stand inside quotes.
pub open spec fn escaped(s: Seq<char>) -> Seq<char>
    decreases s.len(),
{
    if s.len() == 0 {
        Seq::empty()
    } else {
        escaped(s.drop_last()) + escaped_char(s.last())
    }
}

/// A string between quotes.
pub open spec fn quoted(s: Seq<char>) -> Seq<char> {
    seq!['"'] + escaped(s) + seq!['"']
}

/// What stands before an item that has `before` items in front of it: a
/// comma, or nothing before the first.
pub open spec fn separator(before: int) -> Seq<char> {
    if before <= 0 {
        Seq::empty()
    } else {
        seq![',']
    }
}

/// The text of a value.
///
/// A float is written as the decimal text that it holds. In a string only
/// the quote is escaped, so a string with a backslash is not read back as it
/// was. The members of an object come in the order in which the object
/// holds them.
pub open spec fn text(v: Json) -> Seq<char>
    decreases v,
{
    match v {
        Json::Null => seq!['n', 'u', 'l', 'l'],
        Json::Bool(b) => if b {
            seq!['t', 'r', 'u', 'e']
        } else {
            seq!['f', 'a', 'l', 's', 'e']
        },
        Json::Number(n) => decimal(n as nat),
        Json::Float(t) => t,
        Json::String(s) => quoted(s),
        Json::Array(items) => seq!['['] + items_text(items) + seq![']'],
        Json::Object(members) => seq!['{'] + members_text(members) + seq!['}'],
    }
}

/// The texts of the items of an array, with a comma between each two.
pub open spec fn items_text(items: Seq<Json>) -> Seq<char>
    decreases items,
{
    if items.len() == 0 {
        Seq::empty()
    } else {
        items_text(items.drop_last()) + separator(items.len() - 1) + text(items.last())
    }
}

/// The texts of the members of an object, with a comma between each two. A
/// member is its name between quotes, a colon, and its value.
pub open spec fn members_text(members: Seq<(Seq<char>, Json)>) -> Seq<char>
    decreases members,
{
    if members.len() == 0 {
        Seq::empty()
    } else {
        members_text(members.drop_last()) + separator(members.len() - 1) + quoted(members.last().0)
            + seq![':'] + text(members.last().1)
    }
}

/// Escaping one character more.
pub proof fn lemma_escaped_push(s: Seq<char>, c: char)
    ensures
        escaped(s.push(c)) == escaped(s) + escaped_char(c),
{
    assert(s.push(c).drop_last() =~= s);
}

} // verus!
