//! The grammar that the parser accepts, as functions from a text and a
//! position to what is read there.
//!
//! The grammar is lenient where strict JSON is not: a comma after the last
//! item of an array or object is allowed, and so is a missing comma between
//! two items.

use crate::model::{distinct_keys, index_of, lemma_index_from, put, well_formed, Json};
use crate::rendering::{decimal, quoted};
use vstd::prelude::*;

verus! {

/// Why a text is not read as a value.
pub enum Fault {
    /// A value was expected, and the text ended or held a character that
    /// starts none.
    UnexpectedCharacter,
    /// An `n` that does not start `null`.
    InvalidNull,
    /// A `t` or `f` that does not start `true` or `false`.
    InvalidBoolean,
    /// The text ended inside a string.
    UnterminatedString,
    /// The text ended right after a backslash.
    UnterminatedEscape,
    /// A backslash before a character that names no escape.
    InvalidEscape(char),
    /// Fewer than four characters after `\u`.
    IncompleteUnicodeEscape,
    /// The four characters after `\u` are not all hexadecimal digits.
    InvalidUnicodeEscape,
    /// The four digits after `\u` give a surrogate, which is no character.
    InvalidCodePoint,
    /// A number without digits, a negative or too large integer.
    InvalidNumber,
    /// No `:` after the name of a member; the name is given.
    MissingColon(Seq<char>),
    /// A member does not start with a quote.
    ExpectedStringKey,
}

/// What a fault is called in a message.
pub open spec fn fault_text(fault: Fault) -> Seq<char> {
    match fault {
        Fault::UnexpectedCharacter => "Unexpected character"@,
        Fault::InvalidNull => "Invalid null"@,
        Fault::InvalidBoolean => "Invalid boolean"@,
        Fault::UnterminatedString => "Unterminated string"@,
        Fault::UnterminatedEscape => "Unterminated escape sequence"@,
        Fault::InvalidEscape(c) => "Invalid escape sequence: \\"@.push(c),
        Fault::IncompleteUnicodeEscape => "Incomplete unicode escape"@,
        Fault::InvalidUnicodeEscape => "Invalid unicode escape"@,
        Fault::InvalidCodePoint => "Invalid unicode code point"@,
        Fault::InvalidNumber => "Invalid number"@,
        Fault::MissingColon(key) => "Expected ':' after key "@ + quoted(key),
        Fault::ExpectedStringKey => "Expected string key"@,
    }
}

/// The message of a fault at a position: what the fault is called, and the
/// position in decimal digits.
pub open spec fn message_text(fault: Fault, at: nat) -> Seq<char> {
    fault_text(fault) + " at position "@ + decimal(at)
}

/// What is read at a position: the value with the position after it, or the
/// fault with the position of the character that caused it (the length of the
/// text where the text ended too soon).
pub type Reading<T> = Result<(T, int), (Fault, int)>;

/// Whitespace between the parts of a text: space, tab, newline, carriage
/// return.
pub open spec fn is_space(c: char) -> bool {
    c == ' ' || c == '\t' || c == '\n' || c == '\r'
}

/// A decimal digit.
pub open spec fn is_digit(c: char) -> bool {
    '0' <= c && c <= '9'
}

/// A hexadecimal digit, in either case.
pub open spec fn is_hex_digit(c: char) -> bool {
    is_digit(c) || ('a' <= c && c <= 'f') || ('A' <= c && c <= 'F')
}

/// The number that a decimal digit denotes.
pub open spec fn digit_value(c: char) -> int {
    c as int - 48
}

/// The number that a hexadecimal digit denotes.
pub open spec fn hex_value(c: char) -> int {
    if is_digit(c) {
        c as int - 48
    } else if 'a' <= c && c <= 'f' {
        c as int - 87
    } else {
        c as int - 55
    }
}

/// The first position at or after `pos` that holds no whitespace.
pub open spec fn skip_spaces(s: Seq<char>, pos: int) -> int
    decreases s.len() - pos,
{
    if 0 <= pos < s.len() && is_space(s[pos]) {
        skip_spaces(s, pos + 1)
    } else {
        pos
    }
}

/// The first position at or after `pos` that holds no decimal digit.
pub open spec fn digits_end(s: Seq<char>, pos: int) -> int
    decreases s.len() - pos,
{
    if 0 <= pos < s.len() && is_digit(s[pos]) {
        digits_end(s, pos + 1)
    } else {
        pos
    }
}

/// The number that the decimal digits from `from` up to `to` denote.
pub open spec fn digits_value(s: Seq<char>, from: int, to: int) -> nat
    decreases to - from,
{
    if to <= from {
        0
    } else {
        (digits_value(s, from, to - 1) * 10 + digit_value(s[to - 1])) as nat
    }
}

/// The text holds `word` at `pos`.
pub open spec fn has_at(s: Seq<char>, pos: int, word: Seq<char>) -> bool {
    0 <= pos && pos + word.len() <= s.len() && s.subrange(pos, pos + word.len()) == word
}

/// The word `null`.
pub open spec fn null_word() -> Seq<char> {
    seq!['n', 'u', 'l', 'l']
}

/// The word `true`.
pub open spec fn true_word() -> Seq<char> {
    seq!['t', 'r', 'u', 'e']
}

/// The word `false`.
pub open spec fn false_word() -> Seq<char> {
    seq!['f', 'a', 'l', 's', 'e']
}

/// The number that four hexadecimal digits at `pos` denote.
pub open spec fn hex4_value(s: Seq<char>, pos: int) -> int {
    hex_value(s[pos]) * 4096 + hex_value(s[pos + 1]) * 256 + hex_value(s[pos + 2]) * 16 + hex_value(
        s[pos + 3],
    )
}

/// The character that the escape at `pos` stands for, `pos` being the place
/// of the character after the backslash.
///
/// `\uXXXX` takes exactly four hexadecimal digits and gives the character of
/// that number; two escapes that form a surrogate pair are not joined, each
/// is a fault.
pub open spec fn escape(s: Seq<char>, pos: int) -> Reading<char> {
    let c = s[pos];
    if c == '"' {
        Ok(('"', pos + 1))
    } else if c == '\\' {
        Ok(('\\', pos + 1))
    } else if c == '/' {
        Ok(('/', pos + 1))
    } else if c == 'b' {
        Ok(('\u{8}', pos + 1))
    } else if c == 'f' {
        Ok(('\u{c}', pos + 1))
    } else if c == 'n' {
        Ok(('\n', pos + 1))
    } else if c == 'r' {
        Ok(('\r', pos + 1))
    } else if c == 't' {
        Ok(('\t', pos + 1))
    } else if c == 'u' {
        if pos + 5 > s.len() {
            Err((Fault::IncompleteUnicodeEscape, s.len() as int))
        } else if !(is_hex_digit(s[pos + 1]) && is_hex_digit(s[pos + 2]) && is_hex_digit(s[pos + 3])
            && is_hex_digit(s[pos + 4])) {
            Err((Fault::InvalidUnicodeEscape, pos + 1))
        } else if 0xD800 <= hex4_value(s, pos + 1) <= 0xDFFF {
            Err((Fault::InvalidCodePoint, pos + 1))
        } else {
            Ok((hex4_value(s, pos + 1) as char, pos + 5))
        }
    } else {
        Err((Fault::InvalidEscape(c), pos))
    }
}

/// The rest of a string from `pos`, a place after its opening quote, with
/// `read` being the characters that the string has given so far.
pub open spec fn string_body(s: Seq<char>, pos: int, read: Seq<char>) -> Reading<Seq<char>>
    decreases s.len() - pos,
{
    if pos < 0 || pos >= s.len() {
        Err((Fault::UnterminatedString, s.len() as int))
    } else if s[pos] == '"' {
        Ok((read, pos + 1))
    } else if s[pos] == '\\' {
        if pos + 1 >= s.len() {
            Err((Fault::UnterminatedEscape, s.len() as int))
        } else {
            match escape(s, pos + 1) {
                Ok((c, next)) => string_body(s, next, read.push(c)),
                Err(e) => Err(e),
            }
        }
    } else {
        string_body(s, pos + 1, read.push(s[pos]))
    }
}

/// Where the parts of a number at `pos` end: the sign, the integer digits,
/// the fraction, the exponent's mark and sign, the exponent's digits.
pub struct NumberShape {
    pub digits_from: int,
    pub digits_to: int,
    pub has_fraction: bool,
    pub fraction_to: int,
    pub has_exponent: bool,
    pub exponent_from: int,
    pub end: int,
}

/// The longest text at `pos` of the form: an optional `-`, digits, an
/// optional `.` with digits, an optional `e` or `E` with an optional sign and
/// digits. Any of the runs of digits may be empty.
pub open spec fn number_shape(s: Seq<char>, pos: int) -> NumberShape {
    let digits_from = if 0 <= pos < s.len() && s[pos] == '-' {
        pos + 1
    } else {
        pos
    };
    let digits_to = digits_end(s, digits_from);
    let has_fraction = 0 <= digits_to < s.len() && s[digits_to] == '.';
    let fraction_to = if has_fraction {
        digits_end(s, digits_to + 1)
    } else {
        digits_to
    };
    let has_exponent = 0 <= fraction_to < s.len() && (s[fraction_to] == 'e' || s[fraction_to] == 'E');
    let exponent_from = if has_exponent {
        if fraction_to + 1 < s.len() && (s[fraction_to + 1] == '+' || s[fraction_to + 1] == '-') {
            fraction_to + 2
        } else {
            fraction_to + 1
        }
    } else {
        fraction_to
    };
    let end = if has_exponent {
        digits_end(s, exponent_from)
    } else {
        fraction_to
    };
    NumberShape { digits_from, digits_to, has_fraction, fraction_to, has_exponent, exponent_from, end }
}

/// The number at `pos`.
///
/// With a fraction or an exponent it is a float, held as its text; it needs
/// a digit before or after the point, and a digit in the exponent if there
/// is one. Without them it is an integer, which must have a digit, no sign,
/// and fit the machine's word.
pub open spec fn number(s: Seq<char>, pos: int) -> Reading<Json> {
    let shape = number_shape(s, pos);
    if shape.has_fraction || shape.has_exponent {
        if (shape.digits_to > shape.digits_from || shape.fraction_to > shape.digits_to + 1) && (
        shape.has_exponent ==> shape.end > shape.exponent_from) {
            Ok((Json::Float(s.subrange(pos, shape.end)), shape.end))
        } else {
            Err((Fault::InvalidNumber, pos))
        }
    } else {
        if shape.digits_from == pos && shape.digits_to > shape.digits_from && digits_value(
            s,
            shape.digits_from,
            shape.digits_to,
        ) <= usize::MAX {
            Ok((Json::Number(digits_value(s, shape.digits_from, shape.digits_to) as usize), shape.end))
        } else {
            Err((Fault::InvalidNumber, pos))
        }
    }
}

/// The text is that of a float: it starts with a digit or a `-`, and read
/// alone it is a float, the whole of it.
pub open spec fn is_float_text(t: Seq<char>) -> bool {
    &&& t.len() > 0
    &&& is_digit(t[0]) || t[0] == '-'
    &&& number(t, 0) == Ok::<(Json, int), (Fault, int)>((Json::Float(t), t.len() as int))
}

/// The position after a comma at `pos`, or `pos` where there is none.
pub open spec fn after_comma(s: Seq<char>, pos: int) -> int {
    if 0 <= pos < s.len() && s[pos] == ',' {
        pos + 1
    } else {
        pos
    }
}

/// The value that starts at `pos`, a position that holds no whitespace.
pub open spec fn element(s: Seq<char>, pos: int) -> Reading<Json>
    decreases s.len() - pos, 0int,
{
    if pos < 0 || pos >= s.len() {
        Err((Fault::UnexpectedCharacter, pos))
    } else if s[pos] == 'n' {
        if has_at(s, pos, null_word()) {
            Ok((Json::Null, pos + 4))
        } else {
            Err((Fault::InvalidNull, pos))
        }
    } else if s[pos] == 't' || s[pos] == 'f' {
        if has_at(s, pos, true_word()) {
            Ok((Json::Bool(true), pos + 4))
        } else if has_at(s, pos, false_word()) {
            Ok((Json::Bool(false), pos + 5))
        } else {
            Err((Fault::InvalidBoolean, pos))
        }
    } else if s[pos] == '"' {
        match string_body(s, pos + 1, Seq::empty()) {
            Ok((t, next)) => Ok((Json::String(t), next)),
            Err(e) => Err(e),
        }
    } else if is_digit(s[pos]) || s[pos] == '-' {
        number(s, pos)
    } else if s[pos] == '[' {
        array_items(s, pos + 1, Seq::empty())
    } else if s[pos] == '{' {
        object_members(s, pos + 1, Seq::empty())
    } else {
        Err((Fault::UnexpectedCharacter, pos))
    }
}

/// The rest of an array from `pos`, a place after its `[`, with `read` being
/// the items that the array has given so far.
///
/// An item takes at least one character and ends within the text
/// (`lemma_element_advances`), so the branch for one that does not is never
/// reached.
pub open spec fn array_items(s: Seq<char>, pos: int, read: Seq<Json>) -> Reading<Json>
    decreases s.len() - pos, 1int,
{
    if pos < 0 || pos > s.len() {
        Err((Fault::UnexpectedCharacter, pos))
    } else {
        let at = skip_spaces(s, pos);
        proof {
            lemma_skip_spaces(s, pos);
        }
        if at < s.len() && s[at] == ']' {
            Ok((Json::Array(read), at + 1))
        } else {
            match element(s, at) {
                Ok((item, next)) => if at < next <= s.len() {
                    proof {
                        lemma_skip_spaces(s, next);
                    }
                    array_items(s, after_comma(s, skip_spaces(s, next)), read.push(item))
                } else {
                    Err((Fault::UnexpectedCharacter, at))
                },
                Err(e) => Err(e),
            }
        }
    }
}

/// The rest of an object from `pos`, a place after its `{`, with `read`
/// being the members that the object has given so far. A name that comes
/// again replaces the value that it had.
///
/// As in `array_items`, the branch for a value that takes no character is
/// never reached.
pub open spec fn object_members(s: Seq<char>, pos: int, read: Seq<(Seq<char>, Json)>) -> Reading<Json>
    decreases s.len() - pos, 1int,
{
    if pos < 0 || pos > s.len() {
        Err((Fault::UnexpectedCharacter, pos))
    } else {
        let at = skip_spaces(s, pos);
        proof {
            lemma_skip_spaces(s, pos);
        }
        if at < s.len() && s[at] == '}' {
            Ok((Json::Object(read), at + 1))
        } else if !(at < s.len() && s[at] == '"') {
            Err((Fault::ExpectedStringKey, at))
        } else {
            match string_body(s, at + 1, Seq::empty()) {
                Err(e) => Err(e),
                Ok((key, key_end)) => {
                    let colon = skip_spaces(s, key_end);
                    if !(at < key_end <= colon < s.len() && s[colon] == ':') {
                        Err((Fault::MissingColon(key), colon))
                    } else {
                        let start = skip_spaces(s, colon + 1);
                        proof {
                            lemma_skip_spaces(s, colon + 1);
                        }
                        match element(s, start) {
                            Ok((child, next)) => if start < next <= s.len() {
                                proof {
                                    lemma_skip_spaces(s, next);
                                }
                                object_members(
                                    s,
                                    after_comma(s, skip_spaces(s, next)),
                                    put(read, key, child),
                                )
                            } else {
                                Err((Fault::UnexpectedCharacter, start))
                            },
                            Err(e) => Err(e),
                        }
                    }
                },
            }
        }
    }
}

/// The value at `pos`, after any whitespace there.
pub open spec fn value(s: Seq<char>, pos: int) -> Reading<Json> {
    element(s, skip_spaces(s, pos))
}

/// Skipping whitespace moves forward over whitespace only, and stops at the
/// first character that is none.
pub proof fn lemma_skip_spaces(s: Seq<char>, pos: int)
    requires
        0 <= pos <= s.len(),
    ensures
        pos <= skip_spaces(s, pos) <= s.len(),
        forall|i: int| pos <= i < skip_spaces(s, pos) ==> is_space(#[trigger] s[i]),
        skip_spaces(s, pos) < s.len() ==> !is_space(s[skip_spaces(s, pos)]),
        skip_spaces(s, skip_spaces(s, pos)) == skip_spaces(s, pos),
    decreases s.len() - pos,
{
    if pos < s.len() && is_space(s[pos]) {
        lemma_skip_spaces(s, pos + 1);
    }
}

/// A run of digits ends within the text, at the first character that is no
/// digit.
pub proof fn lemma_digits_end(s: Seq<char>, pos: int)
    requires
        0 <= pos <= s.len(),
    ensures
        pos <= digits_end(s, pos) <= s.len(),
        forall|i: int| pos <= i < digits_end(s, pos) ==> is_digit(#[trigger] s[i]),
        digits_end(s, pos) < s.len() ==> !is_digit(s[digits_end(s, pos)]),
    decreases s.len() - pos,
{
    if pos < s.len() && is_digit(s[pos]) {
        lemma_digits_end(s, pos + 1);
    }
}

/// More digits never denote a smaller number.
pub proof fn lemma_digits_value_grows(s: Seq<char>, from: int, mid: int, to: int)
    requires
        from <= mid <= to,
        forall|i: int| from <= i < to ==> is_digit(#[trigger] s[i]),
    ensures
        digits_value(s, from, mid) <= digits_value(s, from, to),
    decreases to - mid,
{
    if mid < to {
        lemma_digits_value_grows(s, from, mid, to - 1);
    }
}

/// Writing a member keeps the names distinct.
pub proof fn lemma_put_keeps_distinct(members: Seq<(Seq<char>, Json)>, key: Seq<char>, child: Json)
    requires
        distinct_keys(members),
    ensures
        distinct_keys(put(members, key, child)),
        put(members, key, child).len() >= 1,
        forall|i: int|
            0 <= i < put(members, key, child).len() ==> (#[trigger] put(members, key, child)[i]) == (
                key,
                child,
            ) || (i < members.len() && put(members, key, child)[i] == members[i]),
{
    lemma_index_from(members, key, 0);
    let after = put(members, key, child);
    assert forall|i: int, j: int| 0 <= i < j < after.len() implies (#[trigger] after[i]).0 != (
    #[trigger] after[j]).0 by {
        match index_of(members, key) {
            Some(k) => {
                assert(after[i].0 == members[i].0);
                assert(after[j].0 == members[j].0);
            },
            None => {
                if j < members.len() {
                    assert(after[i] == members[i]);
                    assert(after[j] == members[j]);
                } else {
                    assert(after[i] == members[i]);
                }
            },
        }
    }
}

/// A string that is read ends after its start and within the text; a fault
/// in it lies within the text too.
pub proof fn lemma_string_body_advances(s: Seq<char>, pos: int, read: Seq<char>)
    requires
        0 <= pos <= s.len(),
    ensures
        match string_body(s, pos, read) {
            Ok((_, next)) => pos < next <= s.len(),
            Err((_, at)) => pos <= at <= s.len(),
        },
    decreases s.len() - pos,
{
    if pos < s.len() && s[pos] != '"' {
        if s[pos] == '\\' {
            if pos + 1 < s.len() {
                match escape(s, pos + 1) {
                    Ok((c, next)) => {
                        lemma_string_body_advances(s, next, read.push(c));
                    },
                    Err(_) => {},
                }
            }
        } else {
            lemma_string_body_advances(s, pos + 1, read.push(s[pos]));
        }
    }
}

/// A run of digits is the same in a part of the text as in the whole: it
/// ends at the same character where it ends within the part, and where the
/// part is followed by no digit.
pub proof fn lemma_digits_end_in_part(s: Seq<char>, from: int, to: int, pos: int)
    requires
        0 <= from <= pos <= to <= s.len(),
    ensures
        digits_end(s, pos) <= to ==> digits_end(s.subrange(from, to), pos - from) == digits_end(s, pos)
            - from,
        (to == s.len() || !is_digit(s[to])) ==> digits_end(s, pos) == digits_end(
            s.subrange(from, to),
            pos - from,
        ) + from,
    decreases to - pos,
{
    let part = s.subrange(from, to);
    lemma_digits_end(s, pos);
    if pos < to {
        assert(part[pos - from] == s[pos]);
        if is_digit(s[pos]) {
            lemma_digits_end(s, pos + 1);
            lemma_digits_end_in_part(s, from, to, pos + 1);
        }
    }
}

/// The text of a float that is read is the text of a float.
pub proof fn lemma_float_text_of_number(s: Seq<char>, pos: int)
    requires
        0 <= pos < s.len(),
        is_digit(s[pos]) || s[pos] == '-',
    ensures
        number(s, pos) matches Ok((Json::Float(t), _)) ==> is_float_text(t),
{
    let shape = number_shape(s, pos);
    lemma_digits_end(s, shape.digits_from);
    if shape.has_fraction {
        lemma_digits_end(s, shape.digits_to + 1);
    }
    if shape.has_exponent {
        lemma_digits_end(s, shape.exponent_from);
    }
    if number(s, pos) matches Ok((Json::Float(_), _)) {
        let end = shape.end;
        let part = s.subrange(pos, end);
        assert(part[0] == s[pos]);
        let inner = number_shape(part, 0);
        assert forall|i: int| 0 <= i < part.len() implies part[i] == s[pos + i] by {}
        lemma_digits_end_in_part(s, pos, end, shape.digits_from);
        assert(inner.digits_from == shape.digits_from - pos);
        assert(inner.digits_to == shape.digits_to - pos);
        if shape.has_fraction {
            assert(part[shape.digits_to - pos] == s[shape.digits_to]);
            lemma_digits_end_in_part(s, pos, end, shape.digits_to + 1);
        } else if shape.digits_to < end {
            assert(part[shape.digits_to - pos] == s[shape.digits_to]);
        }
        assert(inner.has_fraction == shape.has_fraction);
        assert(inner.fraction_to == shape.fraction_to - pos);
        if shape.has_exponent {
            assert(part[shape.fraction_to - pos] == s[shape.fraction_to]);
            if shape.fraction_to + 1 < end {
                assert(part[shape.fraction_to + 1 - pos] == s[shape.fraction_to + 1]);
            }
            lemma_digits_end_in_part(s, pos, end, shape.exponent_from);
        } else if shape.fraction_to < end {
            assert(part[shape.fraction_to - pos] == s[shape.fraction_to]);
        }
        assert(inner.has_exponent == shape.has_exponent);
        assert(inner.exponent_from == shape.exponent_from - pos);
        assert(inner.end == end - pos);
        assert(part.subrange(0, part.len() as int) =~= part);
    }
}

/// A number that is read ends after its start and within the text.
pub proof fn lemma_number_advances(s: Seq<char>, pos: int)
    requires
        0 <= pos < s.len(),
        is_digit(s[pos]) || s[pos] == '-',
    ensures
        match number(s, pos) {
            Ok((v, next)) => pos < next <= s.len() && well_formed(v),
            Err((_, at)) => at == pos,
        },
{
    let shape = number_shape(s, pos);
    if is_digit(s[pos]) || s[pos] == '-' {
        lemma_float_text_of_number(s, pos);
    }
    lemma_digits_end(s, shape.digits_from);
    if shape.has_fraction {
        lemma_digits_end(s, shape.digits_to + 1);
    }
    if shape.has_exponent {
        lemma_digits_end(s, shape.exponent_from);
    }
}

/// A value that is read takes at least one character and ends within the
/// text, and it is well formed: every float in it holds the text of a float,
/// and every object names each of its members once. A fault lies at or
/// after the start, within the text.
pub proof fn lemma_element_advances(s: Seq<char>, pos: int)
    requires
        0 <= pos <= s.len(),
    ensures
        match element(s, pos) {
            Ok((v, next)) => pos < next <= s.len() && well_formed(v),
            Err((_, at)) => pos <= at <= s.len(),
        },
    decreases s.len() - pos, 0int,
{
    if pos < s.len() {
        if s[pos] == 'n' || s[pos] == 't' || s[pos] == 'f' {
        } else if s[pos] == '"' {
            lemma_string_body_advances(s, pos + 1, Seq::empty());
        } else if is_digit(s[pos]) || s[pos] == '-' {
            lemma_number_advances(s, pos);
        } else if s[pos] == '[' {
            lemma_array_items_advance(s, pos + 1, Seq::empty());
        } else if s[pos] == '{' {
            lemma_object_members_advance(s, pos + 1, Seq::empty());
        }
    }
}

/// The same for the rest of an array.
pub proof fn lemma_array_items_advance(s: Seq<char>, pos: int, read: Seq<Json>)
    requires
        0 <= pos <= s.len(),
        forall|i: int| 0 <= i < read.len() ==> well_formed(#[trigger] read[i]),
    ensures
        match array_items(s, pos, read) {
            Ok((v, next)) => pos < next <= s.len() && well_formed(v),
            Err((_, at)) => pos <= at <= s.len(),
        },
    decreases s.len() - pos, 1int,
{
    let at = skip_spaces(s, pos);
    lemma_skip_spaces(s, pos);
    if !(at < s.len() && s[at] == ']') {
        lemma_element_advances(s, at);
        match element(s, at) {
            Ok((item, next)) => {
                lemma_skip_spaces(s, next);
                let more = read.push(item);
                assert forall|i: int| 0 <= i < more.len() implies well_formed(#[trigger] more[i]) by {
                    if i < read.len() {
                        assert(more[i] == read[i]);
                    }
                }
                lemma_array_items_advance(s, after_comma(s, skip_spaces(s, next)), more);
            },
            Err(_) => {},
        }
    }
}

/// The same for the rest of an object.
pub proof fn lemma_object_members_advance(s: Seq<char>, pos: int, read: Seq<(Seq<char>, Json)>)
    requires
        0 <= pos <= s.len(),
        distinct_keys(read),
        forall|i: int| 0 <= i < read.len() ==> well_formed((#[trigger] read[i]).1),
    ensures
        match object_members(s, pos, read) {
            Ok((v, next)) => pos < next <= s.len() && well_formed(v),
            Err((_, at)) => pos <= at <= s.len(),
        },
    decreases s.len() - pos, 1int,
{
    let at = skip_spaces(s, pos);
    lemma_skip_spaces(s, pos);
    if !(at < s.len() && s[at] == '}') && at < s.len() && s[at] == '"' {
        lemma_string_body_advances(s, at + 1, Seq::empty());
        match string_body(s, at + 1, Seq::empty()) {
            Err(_) => {},
            Ok((key, key_end)) => {
                let colon = skip_spaces(s, key_end);
                lemma_skip_spaces(s, key_end);
                if colon < s.len() && s[colon] == ':' {
                    let start = skip_spaces(s, colon + 1);
                    lemma_skip_spaces(s, colon + 1);
                    lemma_element_advances(s, start);
                    match element(s, start) {
                        Ok((child, next)) => {
                            lemma_skip_spaces(s, next);
                            let more = put(read, key, child);
                            lemma_put_keeps_distinct(read, key, child);
                            assert forall|i: int| 0 <= i < more.len() implies well_formed(
                                (#[trigger] more[i]).1,
                            ) by {
                                if !(more[i] == (key, child)) {
                                    assert(more[i] == read[i]);
                                }
                            }
                            lemma_object_members_advance(s, after_comma(s, skip_spaces(s, next)), more);
                        },
                        Err(_) => {},
                    }
                }
            },
        }
    }
}

/// What `value` reads: it ends after the whitespace that it started on, and
/// within the text, and it is well formed.
pub proof fn lemma_value_advances(s: Seq<char>, pos: int)
    requires
        0 <= pos <= s.len(),
    ensures
        match value(s, pos) {
            Ok((v, next)) => pos <= skip_spaces(s, pos) < next <= s.len() && well_formed(v),
            Err((_, at)) => pos <= at <= s.len(),
        },
{
    lemma_skip_spaces(s, pos);
    lemma_element_advances(s, skip_spaces(s, pos));
}

} // verus!
