//! The record that the service returns for one task, and the texts of the
//! exchange with the service: the request for an address, and the body of a
//! response.

use crate::deserializer::{Parser, SyntaxError};
use crate::grammar::{has_at, value};
use crate::model::{bool_or_default, number_or_default, string_or_default, Json};
use crate::serializer::{bool_field, not_an_object_error, number_field, string_field, FromJsonVal, JsonVal};
use crate::strings::{chars_of, string_from};
use vstd::prelude::*;

verus! {

/// One task of a user. The field `user_id` reads the member named `user_id`.
#[derive(Debug)]
pub struct User {
    pub user_id: usize,
    pub id: usize,
    pub title: String,
    pub completed: bool,
}

impl User {
    /// Every field is at its default.
    pub open spec fn is_default(&self) -> bool {
        self.user_id == 0 && self.id == 0 && self.title@ == Seq::<char>::empty() && !self.completed
    }
}

impl Default for User {
    fn default() -> (r: User)
        ensures
            r.is_default(),
    {
        User { user_id: 0, id: 0, title: String::new(), completed: false }
    }
}

impl FromJsonVal for User {
    open spec fn built_from(&self, val: Json) -> bool {
        &&& self.user_id == number_or_default(val, "user_id"@)
        &&& self.id == number_or_default(val, "id"@)
        &&& self.title@ == string_or_default(val, "title"@)
        &&& self.completed == bool_or_default(val, "completed"@)
    }

    fn from_json(val: &JsonVal) -> (r: Result<User, String>) {
        match val {
            JsonVal::Object(_) => Ok(
                User {
                    user_id: number_field(val, "user_id"),
                    id: number_field(val, "id"),
                    title: string_field(val, "title"),
                    completed: bool_field(val, "completed"),
                },
            ),
            _ => Err(not_an_object_error()),
        }
    }
}

/// The scheme that an address may start with.
pub open spec fn scheme() -> Seq<char> {
    seq!['h', 't', 't', 'p', ':', '/', '/']
}

/// The address without its scheme, if it has one.
pub open spec fn without_scheme(url: Seq<char>) -> Seq<char> {
    if has_at(url, 0, scheme()) {
        url.skip(7)
    } else {
        url
    }
}

/// The first position at or after `from` that holds `c`, or the length of
/// the text where none does.
pub open spec fn index_of_char(s: Seq<char>, c: char, from: int) -> int
    decreases s.len() - from,
{
    if from < 0 || from >= s.len() {
        s.len() as int
    } else if s[from] == c {
        from
    } else {
        index_of_char(s, c, from + 1)
    }
}

/// The host of an address: what stands between the scheme and the first
/// slash after it.
pub open spec fn host_of(url: Seq<char>) -> Seq<char> {
    let rest = without_scheme(url);
    rest.take(index_of_char(rest, '/', 0))
}

/// The path of an address: a slash and what stands after the first slash
/// behind the scheme; a slash alone where there is none.
pub open spec fn path_of(url: Seq<char>) -> Seq<char> {
    let rest = without_scheme(url);
    let slash = index_of_char(rest, '/', 0);
    if slash < rest.len() {
        seq!['/'] + rest.skip(slash + 1)
    } else {
        seq!['/']
    }
}

/// The request for a path on a host.
pub open spec fn request_text(host: Seq<char>, path: Seq<char>) -> Seq<char> {
    "GET "@ + path + " HTTP/1.1\r\nHost: "@ + host + "\r\nConnection: close\r\n\r\n"@
}

/// The empty line that ends the head of a response.
pub open spec fn blank_line() -> Seq<char> {
    seq!['\r', '\n', '\r', '\n']
}

/// The first position at or after `from` at which the text holds `word`.
pub open spec fn find_word(s: Seq<char>, word: Seq<char>, from: int) -> Option<int>
    decreases s.len() - from,
{
    if from < 0 || from >= s.len() || from + word.len() > s.len() {
        None
    } else if has_at(s, from, word) {
        Some(from)
    } else {
        find_word(s, word, from + 1)
    }
}

/// The body of a response: what follows the first empty line.
pub open spec fn body_of(response: Seq<char>) -> Option<Seq<char>> {
    match find_word(response, blank_line(), 0) {
        Some(at) => Some(response.skip(at + 4)),
        None => None,
    }
}

/// The host and the path of an address.
pub fn split_url(url: &str) -> (r: (String, String))
    ensures
        r.0@ == host_of(url@),
        r.1@ == path_of(url@),
{
    let chars = chars_of(url);
    let len = chars.len();
    let start: usize = if len >= 7 && chars[0] == 'h' && chars[1] == 't' && chars[2] == 't' && chars[3]
        == 'p' && chars[4] == ':' && chars[5] == '/' && chars[6] == '/' {
        assert(chars@.subrange(0, 7) =~= scheme());
        7
    } else {
        assert(!has_at(chars@, 0, scheme())) by {
            if has_at(chars@, 0, scheme()) {
                let w = chars@.subrange(0, 7);
                assert(w[0] == 'h' && w[1] == 't' && w[2] == 't' && w[3] == 'p' && w[4] == ':' && w[5] == '/'
                    && w[6] == '/');
            }
        }
        0
    };
    let ghost rest = without_scheme(chars@);
    assert(rest =~= chars@.skip(start as int));
    let mut slash = start;
    while slash < len && chars[slash] != '/'
        invariant
            start <= slash <= len == chars@.len(),
            rest == chars@.skip(start as int),
            index_of_char(rest, '/', 0) == index_of_char(rest, '/', slash - start),
        decreases len - slash,
    {
        slash = slash + 1;
    }
    let host = string_from(&chars, start, slash);
    assert(host@ =~= host_of(url@));
    let mut path = String::new();
    path.push('/');
    if slash < len {
        let tail = string_from(&chars, slash + 1, len);
        path.append(tail.as_str());
    }
    assert(path@ =~= path_of(url@));
    (host, path)
}

/// The request for a path on a host.
pub fn request_for(host: &str, path: &str) -> (r: String)
    ensures
        r@ == request_text(host@, path@),
{
    let mut r = "GET ".to_owned();
    r.append(path);
    r.append(" HTTP/1.1\r\nHost: ");
    r.append(host);
    r.append("\r\nConnection: close\r\n\r\n");
    r
}

/// The body of a response, if the response has an empty line.
pub fn response_body(response: &str) -> (r: Option<String>)
    ensures
        match r {
            Some(body) => body_of(response@) == Some(body@),
            None => body_of(response@) is None,
        },
{
    let chars = chars_of(response);
    let len = chars.len();
    let mut at: usize = 0;
    while len - at >= 4
        invariant
            at <= len == chars@.len(),
            chars@ == response@,
            find_word(chars@, blank_line(), 0) == find_word(chars@, blank_line(), at as int),
        decreases len - at,
    {
        if chars[at] == '\r' && chars[at + 1] == '\n' && chars[at + 2] == '\r' && chars[at + 3] == '\n' {
            assert(chars@.subrange(at as int, at + 4) =~= blank_line());
            let body = string_from(&chars, at + 4, len);
            assert(body@ =~= chars@.skip(at + 4));
            return Some(body);
        }
        assert(!has_at(chars@, at as int, blank_line())) by {
            if has_at(chars@, at as int, blank_line()) {
                let w = chars@.subrange(at as int, at + 4);
                assert(w[0] == '\r' && w[1] == '\n' && w[2] == '\r' && w[3] == '\n');
            }
        }
        at = at + 1;
    }
    None
}

/// Why a response gives no user.
#[derive(Debug)]
pub enum ResponseError {
    /// The response has no empty line, and so no body.
    NoBody,
    /// The body is not read as a value.
    Syntax(SyntaxError),
    /// The body is a value that is no object.
    NotAnObject,
}

/// The user that the body of a response describes.
pub fn user_from_response(response: &str) -> (r: Result<User, ResponseError>)
    ensures
        match body_of(response@) {
            None => r matches Err(ResponseError::NoBody),
            Some(body) => match value(body, 0) {
                Err((fault, at)) => r matches Err(ResponseError::Syntax(e)) && e.kind@ == fault && e.position
                    == at,
                Ok((v, _)) => if v is Object {
                    r matches Ok(user) && user.built_from(v)
                } else {
                    r matches Err(ResponseError::NotAnObject)
                },
            },
        },
{
    match response_body(response) {
        None => Err(ResponseError::NoBody),
        Some(body) => {
            let mut parser = Parser::new(body.as_str());
            match parser.parse_value() {
                Err(e) => Err(ResponseError::Syntax(e)),
                Ok(parsed) => match User::from_json(&parsed) {
                    Ok(user) => Ok(user),
                    Err(_) => Err(ResponseError::NotAnObject),
                },
            }
        },
    }
}

} // verus!
