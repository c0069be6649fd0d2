//! The parser: a cursor over the characters of a text, and the reading of
//! one JSON value at the cursor.

use crate::grammar::{
    array_items, digits_end, digits_value, element, escape, false_word, has_at, hex4_value,
    is_digit, is_float_text, is_hex_digit, lemma_digits_end, lemma_digits_value_grows, lemma_skip_spaces,
    lemma_value_advances, message_text, null_word, number, number_shape, object_members, skip_spaces,
    string_body, true_word, value, Fault, Reading,
};
use crate::model::{well_formed, Json};
use crate::serializer::{members_of, models_of, push_quoted, put_member, JsonVal};
use crate::strings::{chars_of, push_decimal, string_from};
use vstd::prelude::*;

verus! {

/// Why a text could not be parsed.
#[derive(Debug)]
pub enum SyntaxErrorKind {
    /// A value was expected, and the text ended or held a character that
    /// starts none.
    UnexpectedCharacter,
    /// An `n` that does not start `null`.
    InvalidNull,
    /// A `t` or `f` that does not start `true` or `false`.
    InvalidBoolean,
    /// The text ended inside a string.
    UnterminatedString,
    /// The text ended right after a backslash.
    UnterminatedEscape,
    /// A backslash before a character that names no escape.
    InvalidEscape(char),
    /// Fewer than four characters after `\u`.
    IncompleteUnicodeEscape,
    /// The four characters after `\u` are not all hexadecimal digits.
    InvalidUnicodeEscape,
    /// The four digits after `\u` give a surrogate, which is no character.
    InvalidCodePoint,
    /// A number without digits, a negative or too large integer.
    InvalidNumber,
    /// No `:` after the name of a member; the name is given.
    MissingColon(String),
    /// A member does not start with a quote.
    ExpectedStringKey,
}

impl View for SyntaxErrorKind {
    type V = Fault;

    open spec fn view(&self) -> Fault {
        match self {
            SyntaxErrorKind::UnexpectedCharacter => Fault::UnexpectedCharacter,
            SyntaxErrorKind::InvalidNull => Fault::InvalidNull,
            SyntaxErrorKind::InvalidBoolean => Fault::InvalidBoolean,
            SyntaxErrorKind::UnterminatedString => Fault::UnterminatedString,
            SyntaxErrorKind::UnterminatedEscape => Fault::UnterminatedEscape,
            SyntaxErrorKind::InvalidEscape(c) => Fault::InvalidEscape(*c),
            SyntaxErrorKind::IncompleteUnicodeEscape => Fault::IncompleteUnicodeEscape,
            SyntaxErrorKind::InvalidUnicodeEscape => Fault::InvalidUnicodeEscape,
            SyntaxErrorKind::InvalidCodePoint => Fault::InvalidCodePoint,
            SyntaxErrorKind::InvalidNumber => Fault::InvalidNumber,
            SyntaxErrorKind::MissingColon(key) => Fault::MissingColon(key@),
            SyntaxErrorKind::ExpectedStringKey => Fault::ExpectedStringKey,
        }
    }
}

/// A failure to parse: what was wrong, and the position, counted in
/// characters from the start of the text, of the character that was wrong
/// (the length of the text where the text ended too soon).
#[derive(Debug)]
pub struct SyntaxError {
    pub kind: SyntaxErrorKind,
    pub position: usize,
}

impl SyntaxError {
    /// The failure in words: what was wrong, and where.
    pub fn message(&self) -> (r: String)
        ensures
            r@ == message_text(self.kind@, self.position as nat),
    {
        let mut r = match &self.kind {
            SyntaxErrorKind::UnexpectedCharacter => "Unexpected character".to_owned(),
            SyntaxErrorKind::InvalidNull => "Invalid null".to_owned(),
            SyntaxErrorKind::InvalidBoolean => "Invalid boolean".to_owned(),
            SyntaxErrorKind::UnterminatedString => "Unterminated string".to_owned(),
            SyntaxErrorKind::UnterminatedEscape => "Unterminated escape sequence".to_owned(),
            SyntaxErrorKind::InvalidEscape(c) => {
                let mut r = "Invalid escape sequence: \\".to_owned();
                r.push(*c);
                r
            },
            SyntaxErrorKind::IncompleteUnicodeEscape => "Incomplete unicode escape".to_owned(),
            SyntaxErrorKind::InvalidUnicodeEscape => "Invalid unicode escape".to_owned(),
            SyntaxErrorKind::InvalidCodePoint => "Invalid unicode code point".to_owned(),
            SyntaxErrorKind::InvalidNumber => "Invalid number".to_owned(),
            SyntaxErrorKind::MissingColon(key) => {
                let mut r = "Expected ':' after key ".to_owned();
                push_quoted(&mut r, key.as_str());
                r
            },
            SyntaxErrorKind::ExpectedStringKey => "Expected string key".to_owned(),
        };
        r.append(" at position ");
        push_decimal(&mut r, self.position);
        r
    }
}

/// What a result of the parser says in the terms of the grammar, `end` being
/// the cursor after the call.
pub open spec fn reading_of(r: Result<JsonVal, SyntaxError>, end: int) -> Reading<Json> {
    match r {
        Ok(v) => Ok((v@, end)),
        Err(e) => Err((e.kind@, e.position as int)),
    }
}

/// The same for the reading of a string.
pub open spec fn string_reading_of(r: Result<String, SyntaxError>, end: int) -> Reading<Seq<char>> {
    match r {
        Ok(s) => Ok((s@, end)),
        Err(e) => Err((e.kind@, e.position as int)),
    }
}

/// The number that a hexadecimal digit denotes.
fn hex_digit(c: char) -> (r: Option<u32>)
    ensures
        r is Some <==> is_hex_digit(c),
        r matches Some(v) ==> v == crate::grammar::hex_value(c) && v < 16,
{
    if c >= '0' && c <= '9' {
        Some(c as u32 - 48)
    } else if c >= 'a' && c <= 'f' {
        Some(c as u32 - 87)
    } else if c >= 'A' && c <= 'F' {
        Some(c as u32 - 55)
    } else {
        None
    }
}

/// A parser over a text. The cursor counts characters, not bytes.
pub struct Parser {
    chars: Vec<char>,
    pos: usize,
}

impl Parser {
    #[verifier::type_invariant]
    spec fn cursor_in_text(self) -> bool {
        self.pos <= self.chars@.len()
    }

    /// The characters of the text.
    pub closed spec fn input(&self) -> Seq<char> {
        self.chars@
    }

    /// The cursor: the number of characters before it.
    pub closed spec fn position(&self) -> int {
        self.pos as int
    }

    /// A parser at the start of `input`.
    pub fn new(input: &str) -> (p: Parser)
        ensures
            p.input() == input@,
            p.position() == 0,
    {
        Parser { chars: chars_of(input), pos: 0 }
    }

    /// The character at the cursor, if the text has not ended.
    pub fn peek(&self) -> (r: Option<char>)
        ensures
            0 <= self.position() <= self.input().len(),
            r == if self.position() < self.input().len() {
                Some(self.input()[self.position()])
            } else {
                None::<char>
            },
    {
        proof {
            use_type_invariant(self);
        }
        if self.pos < self.chars.len() {
            Some(self.chars[self.pos])
        } else {
            None
        }
    }

    /// Takes the character at the cursor, if the text has not ended.
    pub fn next(&mut self) -> (r: Option<char>)
        ensures
            final(self).input() == old(self).input(),
            0 <= old(self).position() <= old(self).input().len(),
            r == if old(self).position() < old(self).input().len() {
                Some(old(self).input()[old(self).position()])
            } else {
                None::<char>
            },
            final(self).position() == if r is Some {
                old(self).position() + 1
            } else {
                old(self).position()
            },
    {
        proof {
            use_type_invariant(&*self);
        }
        if self.pos < self.chars.len() {
            let c = self.chars[self.pos];
            self.pos = self.pos + 1;
            Some(c)
        } else {
            None
        }
    }

    /// Moves the cursor over spaces, tabs, newlines and carriage returns.
    pub fn skip_whitespace(&mut self)
        ensures
            final(self).input() == old(self).input(),
            final(self).position() == skip_spaces(old(self).input(), old(self).position()),
            old(self).position() <= final(self).position() <= old(self).input().len(),
    {
        proof {
            use_type_invariant(&*self);
            lemma_skip_spaces(self.chars@, self.pos as int);
        }
        while self.pos < self.chars.len() && (self.chars[self.pos] == ' ' || self.chars[self.pos] == '\t'
            || self.chars[self.pos] == '\n' || self.chars[self.pos] == '\r')
            invariant
                self.chars@ == old(self).chars@,
                old(self).pos <= self.pos <= self.chars@.len(),
                skip_spaces(self.chars@, self.pos as int) == skip_spaces(
                    old(self).chars@,
                    old(self).pos as int,
                ),
            decreases self.chars@.len() - self.pos,
        {
            self.pos = self.pos + 1;
        }
    }

    /// The failure of `kind` at `at`, with the cursor left there.
    fn fail(&mut self, kind: SyntaxErrorKind, at: usize) -> (e: SyntaxError)
        requires
            at <= old(self).input().len(),
        ensures
            final(self).input() == old(self).input(),
            final(self).position() == at,
            e.kind == kind,
            e.position == at,
    {
        self.pos = at;
        SyntaxError { kind, position: at }
    }

    /// The end of the digits that start at `from`.
    fn scan_digits(&self, from: usize) -> (r: usize)
        requires
            from <= self.input().len(),
        ensures
            r == digits_end(self.input(), from as int),
            from <= r <= self.input().len(),
    {
        proof {
            lemma_digits_end(self.chars@, from as int);
        }
        let mut p = from;
        while p < self.chars.len() && self.chars[p] >= '0' && self.chars[p] <= '9'
            invariant
                from <= p <= self.chars@.len(),
                digits_end(self.chars@, p as int) == digits_end(self.chars@, from as int),
            decreases self.chars@.len() - p,
        {
            p = p + 1;
        }
        p
    }

    /// The number that the digits from `from` up to `to` denote, if the
    /// machine's word holds it.
    fn digits_number(&self, from: usize, to: usize) -> (r: Option<usize>)
        requires
            from <= to <= self.input().len(),
            forall|i: int| from <= i < to ==> is_digit(#[trigger] self.input()[i]),
        ensures
            match r {
                Some(n) => digits_value(self.input(), from as int, to as int) == n,
                None => digits_value(self.input(), from as int, to as int) > usize::MAX,
            },
    {
        let mut n: usize = 0;
        let mut i = from;
        while i < to
            invariant
                from <= i <= to <= self.chars@.len(),
                forall|k: int| from <= k < to ==> is_digit(#[trigger] self.chars@[k]),
                n == digits_value(self.chars@, from as int, i as int),
            decreases to - i,
        {
            let d = (self.chars[i] as u32 - 48) as usize;
            proof {
                lemma_digits_value_grows(self.chars@, from as int, i + 1, to as int);
            }
            let next = match n.checked_mul(10) {
                Some(m) => m.checked_add(d),
                None => None,
            };
            match next {
                Some(m) => {
                    n = m;
                },
                None => {
                    return None;
                },
            }
            i = i + 1;
        }
        Some(n)
    }

    /// Reads `null` at the cursor, which holds an `n`.
    fn parse_null(&mut self) -> (r: Result<JsonVal, SyntaxError>)
        requires
            old(self).position() < old(self).input().len(),
            old(self).input()[old(self).position()] == 'n',
        ensures
            final(self).input() == old(self).input(),
            reading_of(r, final(self).position()) == element(old(self).input(), old(self).position()),
            r matches Err(e) ==> final(self).position() == e.position,
            r is Ok ==> final(self).position() > old(self).position(),
    {
        let p = self.pos;
        if self.chars.len() - p >= 4 && self.chars[p + 1] == 'u' && self.chars[p + 2] == 'l' && self.chars[p
            + 3] == 'l' {
            assert(self.chars@.subrange(p as int, p + 4) =~= null_word());
            self.pos = p + 4;
            Ok(JsonVal::Null)
        } else {
            assert(!has_at(self.chars@, p as int, null_word())) by {
                if has_at(self.chars@, p as int, null_word()) {
                    let w = self.chars@.subrange(p as int, p + 4);
                    assert(w[1] == 'u' && w[2] == 'l' && w[3] == 'l');
                }
            }
            Err(self.fail(SyntaxErrorKind::InvalidNull, p))
        }
    }

    /// Reads `true` or `false` at the cursor, which holds a `t` or an `f`.
    fn parse_bool(&mut self) -> (r: Result<JsonVal, SyntaxError>)
        requires
            old(self).position() < old(self).input().len(),
            old(self).input()[old(self).position()] == 't' || old(self).input()[old(self).position()] == 'f',
        ensures
            final(self).input() == old(self).input(),
            reading_of(r, final(self).position()) == element(old(self).input(), old(self).position()),
            r matches Err(e) ==> final(self).position() == e.position,
            r is Ok ==> final(self).position() > old(self).position(),
    {
        let p = self.pos;
        let left = self.chars.len() - p;
        if left >= 4 && self.chars[p] == 't' && self.chars[p + 1] == 'r' && self.chars[p + 2] == 'u'
            && self.chars[p + 3] == 'e' {
            assert(self.chars@.subrange(p as int, p + 4) =~= true_word());
            self.pos = p + 4;
            Ok(JsonVal::Bool(true))
        } else if left >= 5 && self.chars[p] == 'f' && self.chars[p + 1] == 'a' && self.chars[p + 2] == 'l'
            && self.chars[p + 3] == 's' && self.chars[p + 4] == 'e' {
            assert(self.chars@.subrange(p as int, p + 5) =~= false_word());
            assert(!has_at(self.chars@, p as int, true_word())) by {
                if has_at(self.chars@, p as int, true_word()) {
                    assert(self.chars@.subrange(p as int, p + 4)[0] == 't');
                }
            }
            self.pos = p + 5;
            Ok(JsonVal::Bool(false))
        } else {
            assert(!has_at(self.chars@, p as int, true_word())) by {
                if has_at(self.chars@, p as int, true_word()) {
                    let w = self.chars@.subrange(p as int, p + 4);
                    assert(w[0] == 't' && w[1] == 'r' && w[2] == 'u' && w[3] == 'e');
                }
            }
            assert(!has_at(self.chars@, p as int, false_word())) by {
                if has_at(self.chars@, p as int, false_word()) {
                    let w = self.chars@.subrange(p as int, p + 5);
                    assert(w[0] == 'f' && w[1] == 'a' && w[2] == 'l' && w[3] == 's' && w[4] == 'e');
                }
            }
            Err(self.fail(SyntaxErrorKind::InvalidBoolean, p))
        }
    }

    /// Reads the escape at the cursor, which stands after a backslash.
    fn parse_escape(&mut self) -> (r: Result<char, SyntaxError>)
        requires
            old(self).position() < old(self).input().len(),
        ensures
            final(self).input() == old(self).input(),
            match r {
                Ok(c) => escape(old(self).input(), old(self).position()) == Ok::<(char, int), (Fault, int)>(
                    (c, final(self).position()),
                ),
                Err(e) => escape(old(self).input(), old(self).position()) == Err::<(char, int), (Fault, int)>(
                    (e.kind@, e.position as int),
                ) && final(self).position() == e.position,
            },
            r is Ok ==> final(self).position() > old(self).position(),
    {
        let p = self.pos;
        let len = self.chars.len();
        let c = self.chars[p];
        if c == '"' || c == '\\' || c == '/' {
            self.pos = p + 1;
            Ok(c)
        } else if c == 'b' {
            self.pos = p + 1;
            Ok('\u{8}')
        } else if c == 'f' {
            self.pos = p + 1;
            Ok('\u{c}')
        } else if c == 'n' {
            self.pos = p + 1;
            Ok('\n')
        } else if c == 'r' {
            self.pos = p + 1;
            Ok('\r')
        } else if c == 't' {
            self.pos = p + 1;
            Ok('\t')
        } else if c == 'u' {
            if len - p < 5 {
                Err(self.fail(SyntaxErrorKind::IncompleteUnicodeEscape, len))
            } else {
                let a = hex_digit(self.chars[p + 1]);
                let b = hex_digit(self.chars[p + 2]);
                let c = hex_digit(self.chars[p + 3]);
                let d = hex_digit(self.chars[p + 4]);
                if a.is_some() && b.is_some() && c.is_some() && d.is_some() {
                    let code = a.unwrap() * 4096 + b.unwrap() * 256 + c.unwrap() * 16 + d.unwrap();
                    assert(code == hex4_value(self.chars@, p + 1));
                    match char::from_u32(code) {
                        Some(ch) => {
                            self.pos = p + 5;
                            Ok(ch)
                        },
                        None => Err(self.fail(SyntaxErrorKind::InvalidCodePoint, p + 1)),
                    }
                } else {
                    Err(self.fail(SyntaxErrorKind::InvalidUnicodeEscape, p + 1))
                }
            }
        } else {
            Err(self.fail(SyntaxErrorKind::InvalidEscape(c), p))
        }
    }

    /// Reads the string at the cursor, which holds its opening quote.
    fn parse_string(&mut self) -> (r: Result<String, SyntaxError>)
        requires
            old(self).position() < old(self).input().len(),
            old(self).input()[old(self).position()] == '"',
        ensures
            final(self).input() == old(self).input(),
            string_reading_of(r, final(self).position()) == string_body(
                old(self).input(),
                old(self).position() + 1,
                Seq::empty(),
            ),
            r matches Err(e) ==> final(self).position() == e.position,
            r is Ok ==> final(self).position() > old(self).position() + 1,
    {
        self.next();
        let mut result = String::new();
        loop
            invariant
                self.chars@ == old(self).chars@,
                old(self).pos < self.pos <= self.chars@.len(),
                string_body(self.chars@, old(self).pos + 1, Seq::empty()) == string_body(
                    self.chars@,
                    self.pos as int,
                    result@,
                ),
            decreases self.chars@.len() - self.pos,
        {
            if self.pos >= self.chars.len() {
                let at = self.chars.len();
                return Err(self.fail(SyntaxErrorKind::UnterminatedString, at));
            }
            let ch = self.chars[self.pos];
            if ch == '"' {
                self.pos = self.pos + 1;
                return Ok(result);
            } else if ch == '\\' {
                if self.chars.len() - self.pos < 2 {
                    let at = self.chars.len();
                    return Err(self.fail(SyntaxErrorKind::UnterminatedEscape, at));
                }
                self.pos = self.pos + 1;
                match self.parse_escape() {
                    Ok(c) => {
                        result.push(c);
                    },
                    Err(e) => {
                        return Err(e);
                    },
                }
            } else {
                result.push(ch);
                self.pos = self.pos + 1;
            }
        }
    }

    /// Reads the number at the cursor.
    fn parse_number(&mut self) -> (r: Result<JsonVal, SyntaxError>)
        requires
            old(self).position() < old(self).input().len(),
            is_digit(old(self).input()[old(self).position()]) || old(self).input()[old(self).position()]
                == '-',
        ensures
            final(self).input() == old(self).input(),
            reading_of(r, final(self).position()) == number(old(self).input(), old(self).position()),
            r matches Err(e) ==> final(self).position() == e.position,
            r is Ok ==> final(self).position() > old(self).position(),
    {
        let start = self.pos;
        let len = self.chars.len();
        let digits_from = if self.chars[start] == '-' {
            start + 1
        } else {
            start
        };
        let digits_to = self.scan_digits(digits_from);
        let has_fraction = digits_to < len && self.chars[digits_to] == '.';
        let fraction_to = if has_fraction {
            self.scan_digits(digits_to + 1)
        } else {
            digits_to
        };
        let has_exponent = fraction_to < len && (self.chars[fraction_to] == 'e' || self.chars[fraction_to]
            == 'E');
        let exponent_from = if has_exponent {
            if len - fraction_to >= 2 && (self.chars[fraction_to + 1] == '+' || self.chars[fraction_to + 1]
                == '-') {
                fraction_to + 2
            } else {
                fraction_to + 1
            }
        } else {
            fraction_to
        };
        let end = if has_exponent {
            self.scan_digits(exponent_from)
        } else {
            fraction_to
        };
        proof {
            let shape = number_shape(self.chars@, start as int);
            assert(shape.digits_from == digits_from);
            assert(shape.digits_to == digits_to);
            assert(shape.has_fraction == has_fraction);
            assert(shape.fraction_to == fraction_to);
            assert(shape.has_exponent == has_exponent);
            assert(shape.exponent_from == exponent_from);
            assert(shape.end == end);
            lemma_digits_end(self.chars@, digits_from as int);
        }
        if has_fraction || has_exponent {
            if (digits_to > digits_from || fraction_to > digits_to + 1) && (!has_exponent || end
                > exponent_from) {
                let text = string_from(&self.chars, start, end);
                self.pos = end;
                Ok(JsonVal::Float(text))
            } else {
                Err(self.fail(SyntaxErrorKind::InvalidNumber, start))
            }
        } else {
            if digits_from == start && digits_to > digits_from {
                match self.digits_number(digits_from, digits_to) {
                    Some(n) => {
                        self.pos = end;
                        Ok(JsonVal::Number(n))
                    },
                    None => Err(self.fail(SyntaxErrorKind::InvalidNumber, start)),
                }
            } else {
                Err(self.fail(SyntaxErrorKind::InvalidNumber, start))
            }
        }
    }

    /// Reads the array at the cursor, which holds its `[`.
    fn parse_array(&mut self) -> (r: Result<JsonVal, SyntaxError>)
        requires
            old(self).position() < old(self).input().len(),
            old(self).input()[old(self).position()] == '[',
        ensures
            final(self).input() == old(self).input(),
            reading_of(r, final(self).position()) == array_items(
                old(self).input(),
                old(self).position() + 1,
                Seq::empty(),
            ),
            r matches Err(e) ==> final(self).position() == e.position,
            r is Ok ==> final(self).position() > old(self).position(),
        decreases old(self).input().len() - old(self).position(), 0int,
    {
        self.next();
        let mut elements: Vec<JsonVal> = Vec::new();
        loop
            invariant
                self.chars@ == old(self).chars@,
                old(self).pos < self.pos <= self.chars@.len(),
                array_items(self.chars@, old(self).pos + 1, Seq::empty()) == array_items(
                    self.chars@,
                    self.pos as int,
                    models_of(elements@),
                ),
            decreases self.chars@.len() - self.pos,
        {
            let ghost from = self.pos as int;
            self.skip_whitespace();
            proof {
                use_type_invariant(&*self);
                lemma_skip_spaces(self.chars@, from);
            }
            let at = self.pos;
            if at < self.chars.len() && self.chars[at] == ']' {
                self.pos = at + 1;
                return Ok(JsonVal::Array(elements));
            }
            match self.parse_value() {
                Ok(item) => {
                    proof {
                        use_type_invariant(&*self);
                        assert(elements@.push(item).drop_last() =~= elements@);
                    }
                    elements.push(item);
                },
                Err(e) => {
                    return Err(e);
                },
            }
            self.skip_whitespace();
            proof {
                use_type_invariant(&*self);
            }
            if self.pos < self.chars.len() && self.chars[self.pos] == ',' {
                self.pos = self.pos + 1;
            }
        }
    }

    /// Reads the object at the cursor, which holds its `{`.
    fn parse_object(&mut self) -> (r: Result<JsonVal, SyntaxError>)
        requires
            old(self).position() < old(self).input().len(),
            old(self).input()[old(self).position()] == '{',
        ensures
            final(self).input() == old(self).input(),
            reading_of(r, final(self).position()) == object_members(
                old(self).input(),
                old(self).position() + 1,
                Seq::empty(),
            ),
            r matches Err(e) ==> final(self).position() == e.position,
            r is Ok ==> final(self).position() > old(self).position(),
        decreases old(self).input().len() - old(self).position(), 0int,
    {
        self.next();
        let mut members: Vec<(String, JsonVal)> = Vec::new();
        loop
            invariant
                self.chars@ == old(self).chars@,
                old(self).pos < self.pos <= self.chars@.len(),
                object_members(self.chars@, old(self).pos + 1, Seq::empty()) == object_members(
                    self.chars@,
                    self.pos as int,
                    members_of(members@),
                ),
            decreases self.chars@.len() - self.pos,
        {
            let ghost from = self.pos as int;
            self.skip_whitespace();
            proof {
                use_type_invariant(&*self);
                lemma_skip_spaces(self.chars@, from);
            }
            let at = self.pos;
            if at < self.chars.len() && self.chars[at] == '}' {
                self.pos = at + 1;
                return Ok(JsonVal::Object(members));
            }
            if !(at < self.chars.len() && self.chars[at] == '"') {
                return Err(self.fail(SyntaxErrorKind::ExpectedStringKey, at));
            }
            let key = match self.parse_string() {
                Ok(key) => key,
                Err(e) => {
                    return Err(e);
                },
            };
            self.skip_whitespace();
            proof {
                use_type_invariant(&*self);
            }
            let colon = self.pos;
            if !(colon < self.chars.len() && self.chars[colon] == ':') {
                return Err(self.fail(SyntaxErrorKind::MissingColon(key), colon));
            }
            self.pos = colon + 1;
            proof {
                lemma_skip_spaces(self.chars@, colon + 1);
            }
            let child = match self.parse_value() {
                Ok(child) => child,
                Err(e) => {
                    return Err(e);
                },
            };
            put_member(&mut members, key, child);
            self.skip_whitespace();
            proof {
                use_type_invariant(&*self);
            }
            if self.pos < self.chars.len() && self.chars[self.pos] == ',' {
                self.pos = self.pos + 1;
            }
        }
    }

    /// Reads one value at the cursor, after any whitespace there, and leaves
    /// the cursor after it; what follows the value is not looked at.
    ///
    /// On a failure the cursor is left at the position that the failure
    /// names. In a value that was read, every object names each of its
    /// members once.
    pub fn parse_value(&mut self) -> (r: Result<JsonVal, SyntaxError>)
        ensures
            final(self).input() == old(self).input(),
            reading_of(r, final(self).position()) == value(old(self).input(), old(self).position()),
            r matches Err(e) ==> final(self).position() == e.position,
            r matches Ok(v) ==> well_formed(v@) && final(self).position() > skip_spaces(
                old(self).input(),
                old(self).position(),
            ),
        decreases old(self).input().len() - old(self).position(), 1int,
    {
        proof {
            use_type_invariant(&*self);
            lemma_value_advances(self.chars@, self.pos as int);
        }
        self.skip_whitespace();
        proof {
            use_type_invariant(&*self);
        }
        let at = self.pos;
        if at >= self.chars.len() {
            return Err(self.fail(SyntaxErrorKind::UnexpectedCharacter, at));
        }
        let c = self.chars[at];
        if c == 'n' {
            self.parse_null()
        } else if c == 't' || c == 'f' {
            self.parse_bool()
        } else if c == '"' {
            match self.parse_string() {
                Ok(s) => Ok(JsonVal::String(s)),
                Err(e) => Err(e),
            }
        } else if (c >= '0' && c <= '9') || c == '-' {
            self.parse_number()
        } else if c == '[' {
            self.parse_array()
        } else if c == '{' {
            self.parse_object()
        } else {
            Err(self.fail(SyntaxErrorKind::UnexpectedCharacter, at))
        }
    }
}

/// The float that holds `text`, if `text` is the text of a float: a digit or
/// a `-` first, then digits with a fraction or an exponent or both, a digit
/// before or after the point, and a digit in the exponent.
pub fn float_from_text(text: &str) -> (r: Option<JsonVal>)
    ensures
        match r {
            Some(v) => is_float_text(text@) && v@ == Json::Float(text@),
            None => !is_float_text(text@),
        },
{
    let mut parser = Parser::new(text);
    match parser.peek() {
        Some(c) => {
            if (c >= '0' && c <= '9') || c == '-' {
                let ghost all = parser.chars@;
                match parser.parse_number() {
                    Ok(JsonVal::Float(held)) => {
                        if parser.pos == parser.chars.len() {
                            assert(all.subrange(0, all.len() as int) =~= all);
                            Some(JsonVal::Float(held))
                        } else {
                            None
                        }
                    },
                    _ => None,
                }
            } else {
                None
            }
        },
        None => None,
    }
}

} // verus!
