//! Whitespace around a text does not matter to what is read from it, and
//! neither does what stands before the place where the reading starts.

use crate::grammar::{
    after_comma, array_items, digits_end, digits_value, element, escape, false_word, has_at, is_digit,
    is_space, lemma_digits_end, lemma_skip_spaces, lemma_string_body_advances, null_word, number,
    number_shape, object_members, skip_spaces, string_body, true_word, value, Fault, Reading,
};
use crate::model::{put, Json};
use vstd::prelude::*;

verus! {

/// The text holds nothing but whitespace.
pub open spec fn all_spaces(w: Seq<char>) -> bool {
    forall|i: int| 0 <= i < w.len() ==> is_space(#[trigger] w[i])
}

/// A reading with its position moved forward by `by`.
pub open spec fn moved<T>(r: Reading<T>, by: int) -> Reading<T> {
    match r {
        Ok((v, next)) => Ok((v, next + by)),
        Err((fault, at)) => Err((fault, at + by)),
    }
}

/// Skipping whitespace behind a prefix.
pub proof fn lemma_skip_spaces_moved(pre: Seq<char>, s: Seq<char>, pos: int)
    requires
        0 <= pos,
    ensures
        skip_spaces(pre + s, pre.len() + pos) == pre.len() + skip_spaces(s, pos),
    decreases s.len() - pos,
{
    if pos < s.len() {
        assert((pre + s)[pre.len() + pos] == s[pos]);
        if is_space(s[pos]) {
            lemma_skip_spaces_moved(pre, s, pos + 1);
        }
    }
}

/// A run of digits behind a prefix.
pub proof fn lemma_digits_end_moved(pre: Seq<char>, s: Seq<char>, pos: int)
    requires
        0 <= pos,
    ensures
        digits_end(pre + s, pre.len() + pos) == pre.len() + digits_end(s, pos),
    decreases s.len() - pos,
{
    if pos < s.len() {
        assert((pre + s)[pre.len() + pos] == s[pos]);
        if is_digit(s[pos]) {
            lemma_digits_end_moved(pre, s, pos + 1);
        }
    }
}

/// The number that digits denote behind a prefix.
pub proof fn lemma_digits_value_moved(pre: Seq<char>, s: Seq<char>, from: int, to: int)
    requires
        0 <= from,
        to <= s.len(),
    ensures
        digits_value(pre + s, pre.len() + from, pre.len() + to) == digits_value(s, from, to),
    decreases to - from,
{
    if to > from {
        assert((pre + s)[pre.len() + to - 1] == s[to - 1]);
        lemma_digits_value_moved(pre, s, from, to - 1);
    }
}

/// A word behind a prefix.
pub proof fn lemma_has_at_moved(pre: Seq<char>, s: Seq<char>, pos: int, word: Seq<char>)
    requires
        0 <= pos,
    ensures
        has_at(pre + s, pre.len() + pos, word) == has_at(s, pos, word),
{
    if pos + word.len() <= s.len() {
        assert((pre + s).subrange(pre.len() + pos, pre.len() + pos + word.len()) =~= s.subrange(
            pos,
            pos + word.len(),
        ));
    }
}

/// An escape behind a prefix.
pub proof fn lemma_escape_moved(pre: Seq<char>, s: Seq<char>, pos: int)
    requires
        0 <= pos < s.len(),
    ensures
        escape(pre + s, pre.len() + pos) == moved(escape(s, pos), pre.len() as int),
{
    let t = pre + s;
    let n = pre.len() as int;
    assert(t[n + pos] == s[pos]);
    if pos + 5 <= s.len() {
        assert(t[n + pos + 1] == s[pos + 1]);
        assert(t[n + pos + 2] == s[pos + 2]);
        assert(t[n + pos + 3] == s[pos + 3]);
        assert(t[n + pos + 4] == s[pos + 4]);
    }
}

/// The rest of a string behind a prefix.
pub proof fn lemma_string_body_moved(pre: Seq<char>, s: Seq<char>, pos: int, read: Seq<char>)
    requires
        0 <= pos,
    ensures
        string_body(pre + s, pre.len() + pos, read) == moved(string_body(s, pos, read), pre.len() as int),
    decreases s.len() - pos,
{
    if pos < s.len() {
        assert((pre + s)[pre.len() + pos] == s[pos]);
        if s[pos] == '"' {
        } else if s[pos] == '\\' {
            if pos + 1 < s.len() {
                lemma_escape_moved(pre, s, pos + 1);
                match escape(s, pos + 1) {
                    Ok((c, next)) => {
                        lemma_string_body_moved(pre, s, next, read.push(c));
                    },
                    Err(_) => {},
                }
            }
        } else {
            lemma_string_body_moved(pre, s, pos + 1, read.push(s[pos]));
        }
    }
}

/// A number behind a prefix.
pub proof fn lemma_number_moved(pre: Seq<char>, s: Seq<char>, pos: int)
    requires
        0 <= pos < s.len(),
    ensures
        number(pre + s, pre.len() + pos) == moved(number(s, pos), pre.len() as int),
{
    let t = pre + s;
    let n = pre.len() as int;
    let shape = number_shape(s, pos);
    let inner = number_shape(t, n + pos);
    assert(t[n + pos] == s[pos]);
    lemma_digits_end(s, shape.digits_from);
    lemma_digits_end_moved(pre, s, shape.digits_from);
    assert(inner.digits_to == n + shape.digits_to);
    if shape.digits_to < s.len() {
        assert(t[n + shape.digits_to] == s[shape.digits_to]);
    }
    if shape.has_fraction {
        lemma_digits_end(s, shape.digits_to + 1);
        lemma_digits_end_moved(pre, s, shape.digits_to + 1);
    }
    assert(inner.fraction_to == n + shape.fraction_to);
    if shape.fraction_to < s.len() {
        assert(t[n + shape.fraction_to] == s[shape.fraction_to]);
    }
    if shape.has_exponent {
        if shape.fraction_to + 1 < s.len() {
            assert(t[n + shape.fraction_to + 1] == s[shape.fraction_to + 1]);
        }
        lemma_digits_end(s, shape.exponent_from);
        lemma_digits_end_moved(pre, s, shape.exponent_from);
    }
    assert(inner.exponent_from == n + shape.exponent_from);
    assert(inner.end == n + shape.end);
    lemma_digits_value_moved(pre, s, shape.digits_from, shape.digits_to);
    assert(t.subrange(n + pos, n + shape.end) =~= s.subrange(pos, shape.end));
}

/// A value behind a prefix: what stands before the place where the reading
/// starts does not matter, but for the positions.
pub proof fn lemma_element_moved(pre: Seq<char>, s: Seq<char>, pos: int)
    requires
        0 <= pos,
    ensures
        element(pre + s, pre.len() + pos) == moved(element(s, pos), pre.len() as int),
    decreases s.len() - pos, 0int,
{
    if pos < s.len() {
        assert((pre + s)[pre.len() + pos] == s[pos]);
        lemma_has_at_moved(pre, s, pos, null_word());
        lemma_has_at_moved(pre, s, pos, true_word());
        lemma_has_at_moved(pre, s, pos, false_word());
        if s[pos] == 'n' || s[pos] == 't' || s[pos] == 'f' {
        } else if s[pos] == '"' {
            lemma_string_body_moved(pre, s, pos + 1, Seq::empty());
        } else if is_digit(s[pos]) || s[pos] == '-' {
            lemma_number_moved(pre, s, pos);
        } else if s[pos] == '[' {
            lemma_array_items_moved(pre, s, pos + 1, Seq::empty());
        } else if s[pos] == '{' {
            lemma_object_members_moved(pre, s, pos + 1, Seq::empty());
        }
    }
}

/// The rest of an array behind a prefix.
pub proof fn lemma_array_items_moved(pre: Seq<char>, s: Seq<char>, pos: int, read: Seq<Json>)
    requires
        0 <= pos,
    ensures
        array_items(pre + s, pre.len() + pos, read) == moved(array_items(s, pos, read), pre.len() as int),
    decreases s.len() - pos, 1int,
{
    let t = pre + s;
    let n = pre.len() as int;
    if pos <= s.len() {
        let at = skip_spaces(s, pos);
        lemma_skip_spaces(s, pos);
        lemma_skip_spaces_moved(pre, s, pos);
        if at < s.len() {
            assert(t[n + at] == s[at]);
        }
        if !(at < s.len() && s[at] == ']') {
            lemma_element_moved(pre, s, at);
            match element(s, at) {
                Ok((item, next)) => {
                    if at < next <= s.len() {
                        let comma = skip_spaces(s, next);
                        lemma_skip_spaces(s, next);
                        lemma_skip_spaces_moved(pre, s, next);
                        if comma < s.len() {
                            assert(t[n + comma] == s[comma]);
                        }
                        lemma_array_items_moved(pre, s, after_comma(s, comma), read.push(item));
                    }
                },
                Err(_) => {},
            }
        }
    }
}

/// The rest of an object behind a prefix.
#[verifier::rlimit(40)]
pub proof fn lemma_object_members_moved(
    pre: Seq<char>,
    s: Seq<char>,
    pos: int,
    read: Seq<(Seq<char>, Json)>,
)
    requires
        0 <= pos,
    ensures
        object_members(pre + s, pre.len() + pos, read) == moved(
            object_members(s, pos, read),
            pre.len() as int,
        ),
    decreases s.len() - pos, 1int,
{
    let t = pre + s;
    let n = pre.len() as int;
    if pos <= s.len() {
        let at = skip_spaces(s, pos);
        lemma_skip_spaces(s, pos);
        lemma_skip_spaces_moved(pre, s, pos);
        if at < s.len() {
            assert(t[n + at] == s[at]);
        }
        if !(at < s.len() && s[at] == '}') && at < s.len() && s[at] == '"' {
            lemma_string_body_moved(pre, s, at + 1, Seq::empty());
            lemma_string_body_advances(s, at + 1, Seq::empty());
            match string_body(s, at + 1, Seq::empty()) {
                Err(_) => {},
                Ok((key, key_end)) => {
                    let colon = skip_spaces(s, key_end);
                    lemma_skip_spaces(s, key_end);
                    lemma_skip_spaces_moved(pre, s, key_end);
                    if colon < s.len() {
                        assert(t[n + colon] == s[colon]);
                    }
                    if at < key_end <= colon < s.len() && s[colon] == ':' {
                        let start = skip_spaces(s, colon + 1);
                        lemma_skip_spaces(s, colon + 1);
                        lemma_skip_spaces_moved(pre, s, colon + 1);
                        lemma_element_moved(pre, s, start);
                        match element(s, start) {
                            Ok((child, next)) => {
                                if start < next <= s.len() {
                                    let comma = skip_spaces(s, next);
                                    lemma_skip_spaces(s, next);
                                    lemma_skip_spaces_moved(pre, s, next);
                                    if comma < s.len() {
                                        assert(t[n + comma] == s[comma]);
                                    }
                                    lemma_object_members_moved(
                                        pre,
                                        s,
                                        after_comma(s, comma),
                                        put(read, key, child),
                                    );
                                }
                            },
                            Err(_) => {},
                        }
                    }
                },
            }
        }
    }
}

/// Whitespace from `from` up to `to` is skipped.
pub proof fn lemma_skip_over(s: Seq<char>, from: int, to: int)
    requires
        0 <= from <= to <= s.len(),
        forall|i: int| from <= i < to ==> is_space(#[trigger] s[i]),
    ensures
        skip_spaces(s, from) == skip_spaces(s, to),
    decreases to - from,
{
    if from < to {
        lemma_skip_over(s, from + 1, to);
    }
}

/// Skipping whitespace that ends within a text is not changed by what
/// follows the text.
pub proof fn lemma_skip_spaces_extended(s: Seq<char>, post: Seq<char>, pos: int)
    requires
        0 <= pos,
        skip_spaces(s, pos) < s.len(),
    ensures
        skip_spaces(s + post, pos) == skip_spaces(s, pos),
    decreases s.len() - pos,
{
    if pos < s.len() {
        assert((s + post)[pos] == s[pos]);
        if is_space(s[pos]) {
            lemma_skip_spaces_extended(s, post, pos + 1);
        }
    }
}

/// A run of digits is not changed by whitespace that follows the text.
pub proof fn lemma_digits_end_extended(s: Seq<char>, post: Seq<char>, pos: int)
    requires
        0 <= pos <= s.len(),
        all_spaces(post),
    ensures
        digits_end(s + post, pos) == digits_end(s, pos),
    decreases s.len() - pos,
{
    if pos < s.len() {
        assert((s + post)[pos] == s[pos]);
        if is_digit(s[pos]) {
            lemma_digits_end_extended(s, post, pos + 1);
        }
    } else if post.len() > 0 {
        assert((s + post)[pos] == post[0]);
    }
}

/// The number that digits denote is not changed by what follows the text.
pub proof fn lemma_digits_value_extended(s: Seq<char>, post: Seq<char>, from: int, to: int)
    requires
        0 <= from,
        to <= s.len(),
    ensures
        digits_value(s + post, from, to) == digits_value(s, from, to),
    decreases to - from,
{
    if to > from {
        assert((s + post)[to - 1] == s[to - 1]);
        lemma_digits_value_extended(s, post, from, to - 1);
    }
}

/// A word that a text holds is still held when the text goes on.
pub proof fn lemma_has_at_extended(s: Seq<char>, post: Seq<char>, pos: int, word: Seq<char>)
    requires
        has_at(s, pos, word),
    ensures
        has_at(s + post, pos, word),
{
    assert((s + post).subrange(pos, pos + word.len()) =~= s.subrange(pos, pos + word.len()));
}

/// A string that is read is not changed by what follows the text.
pub proof fn lemma_string_body_extended(s: Seq<char>, post: Seq<char>, pos: int, read: Seq<char>)
    requires
        0 <= pos,
        string_body(s, pos, read) is Ok,
    ensures
        string_body(s + post, pos, read) == string_body(s, pos, read),
    decreases s.len() - pos,
{
    let m = s + post;
    assert(m[pos] == s[pos]);
    if s[pos] == '"' {
    } else if s[pos] == '\\' {
        assert(m[pos + 1] == s[pos + 1]);
        if s[pos + 1] == 'u' {
            assert(m[pos + 2] == s[pos + 2]);
            assert(m[pos + 3] == s[pos + 3]);
            assert(m[pos + 4] == s[pos + 4]);
            assert(m[pos + 5] == s[pos + 5]);
        }
        match escape(s, pos + 1) {
            Ok((c, next)) => {
                lemma_string_body_extended(s, post, next, read.push(c));
            },
            Err(_) => {},
        }
    } else {
        lemma_string_body_extended(s, post, pos + 1, read.push(s[pos]));
    }
}

/// A number that is read is not changed by whitespace that follows the
/// text.
pub proof fn lemma_number_extended(s: Seq<char>, post: Seq<char>, pos: int)
    requires
        0 <= pos < s.len(),
        all_spaces(post),
        number(s, pos) is Ok,
    ensures
        number(s + post, pos) == number(s, pos),
{
    let m = s + post;
    let shape = number_shape(s, pos);
    let inner = number_shape(m, pos);
    assert(m[pos] == s[pos]);
    if post.len() > 0 {
        assert(m[s.len() as int] == post[0]);
    }
    lemma_digits_end(s, shape.digits_from);
    lemma_digits_end_extended(s, post, shape.digits_from);
    if shape.digits_to < s.len() {
        assert(m[shape.digits_to] == s[shape.digits_to]);
    }
    assert(inner.has_fraction == shape.has_fraction);
    if shape.has_fraction {
        lemma_digits_end(s, shape.digits_to + 1);
        lemma_digits_end_extended(s, post, shape.digits_to + 1);
    }
    assert(inner.fraction_to == shape.fraction_to);
    if shape.fraction_to < s.len() {
        assert(m[shape.fraction_to] == s[shape.fraction_to]);
    }
    assert(inner.has_exponent == shape.has_exponent);
    if shape.has_exponent {
        if shape.fraction_to + 1 < s.len() {
            assert(m[shape.fraction_to + 1] == s[shape.fraction_to + 1]);
        }
        lemma_digits_end(s, shape.exponent_from);
        lemma_digits_end_extended(s, post, shape.exponent_from);
    }
    assert(inner.exponent_from == shape.exponent_from);
    assert(inner.end == shape.end);
    lemma_digits_value_extended(s, post, shape.digits_from, shape.digits_to);
    assert(m.subrange(pos, shape.end) =~= s.subrange(pos, shape.end));
}

/// A value that is read is not changed by whitespace that follows the text.
pub proof fn lemma_element_extended(s: Seq<char>, post: Seq<char>, pos: int)
    requires
        0 <= pos,
        all_spaces(post),
        element(s, pos) is Ok,
    ensures
        element(s + post, pos) == element(s, pos),
    decreases s.len() - pos, 0int,
{
    let m = s + post;
    assert(m[pos] == s[pos]);
    if s[pos] == 'n' {
        lemma_has_at_extended(s, post, pos, null_word());
    } else if s[pos] == 't' || s[pos] == 'f' {
        if has_at(s, pos, true_word()) {
            lemma_has_at_extended(s, post, pos, true_word());
        } else {
            lemma_has_at_extended(s, post, pos, false_word());
            if has_at(m, pos, true_word()) {
                assert(m.subrange(pos, pos + 4)[0] == 't');
                assert(s.subrange(pos, pos + 5)[0] == 'f');
            }
        }
    } else if s[pos] == '"' {
        lemma_string_body_extended(s, post, pos + 1, Seq::empty());
    } else if is_digit(s[pos]) || s[pos] == '-' {
        lemma_number_extended(s, post, pos);
    } else if s[pos] == '[' {
        lemma_array_items_extended(s, post, pos + 1, Seq::empty());
    } else if s[pos] == '{' {
        lemma_object_members_extended(s, post, pos + 1, Seq::empty());
    }
}

/// The rest of an array that is read is not changed by whitespace that
/// follows the text.
pub proof fn lemma_array_items_extended(s: Seq<char>, post: Seq<char>, pos: int, read: Seq<Json>)
    requires
        0 <= pos,
        all_spaces(post),
        array_items(s, pos, read) is Ok,
    ensures
        array_items(s + post, pos, read) == array_items(s, pos, read),
    decreases s.len() - pos, 1int,
{
    let m = s + post;
    let at = skip_spaces(s, pos);
    lemma_skip_spaces(s, pos);
    assert(at < s.len());
    lemma_skip_spaces_extended(s, post, pos);
    assert(m[at] == s[at]);
    if s[at] != ']' {
        lemma_element_extended(s, post, at);
        match element(s, at) {
            Ok((item, next)) => {
                let comma = skip_spaces(s, next);
                lemma_skip_spaces(s, next);
                if comma >= s.len() {
                    lemma_skip_spaces(s, s.len() as int);
                    assert(array_items(s, after_comma(s, comma), read.push(item)) is Err);
                }
                lemma_skip_spaces_extended(s, post, next);
                assert(m[comma] == s[comma]);
                lemma_array_items_extended(s, post, after_comma(s, comma), read.push(item));
            },
            Err(_) => {},
        }
    }
}

/// The rest of an object that is read is not changed by whitespace that
/// follows the text.
pub proof fn lemma_object_members_extended(
    s: Seq<char>,
    post: Seq<char>,
    pos: int,
    read: Seq<(Seq<char>, Json)>,
)
    requires
        0 <= pos,
        all_spaces(post),
        object_members(s, pos, read) is Ok,
    ensures
        object_members(s + post, pos, read) == object_members(s, pos, read),
    decreases s.len() - pos, 1int,
{
    let m = s + post;
    let at = skip_spaces(s, pos);
    lemma_skip_spaces(s, pos);
    assert(at < s.len());
    lemma_skip_spaces_extended(s, post, pos);
    assert(m[at] == s[at]);
    if s[at] != '}' {
        lemma_string_body_extended(s, post, at + 1, Seq::empty());
        lemma_string_body_advances(s, at + 1, Seq::empty());
        match string_body(s, at + 1, Seq::empty()) {
            Err(_) => {},
            Ok((key, key_end)) => {
                let colon = skip_spaces(s, key_end);
                lemma_skip_spaces(s, key_end);
                lemma_skip_spaces_extended(s, post, key_end);
                assert(m[colon] == s[colon]);
                let start = skip_spaces(s, colon + 1);
                lemma_skip_spaces(s, colon + 1);
                assert(start < s.len());
                lemma_skip_spaces_extended(s, post, colon + 1);
                lemma_element_extended(s, post, start);
                match element(s, start) {
                    Ok((child, next)) => {
                        let comma = skip_spaces(s, next);
                        lemma_skip_spaces(s, next);
                        if comma >= s.len() {
                            lemma_skip_spaces(s, s.len() as int);
                            assert(object_members(s, after_comma(s, comma), put(read, key, child)) is Err);
                        }
                        lemma_skip_spaces_extended(s, post, next);
                        assert(m[comma] == s[comma]);
                        lemma_object_members_extended(
                            s,
                            post,
                            after_comma(s, comma),
                            put(read, key, child),
                        );
                    },
                    Err(_) => {},
                }
            },
        }
    }
}

/// Whitespace around a text does not matter: with whitespace before it and
/// after it, a text that is read as a value is read as the same value, and
/// with whitespace before it, a text that is not read fails with the same
/// fault; the positions move by the length of what stands before.
pub proof fn lemma_whitespace_around(s: Seq<char>, before: Seq<char>, after: Seq<char>)
    requires
        all_spaces(before),
        all_spaces(after),
    ensures
        match value(s, 0) {
            Ok((v, end)) => value(before + s + after, 0) == Ok::<(Json, int), (Fault, int)>(
                (v, before.len() + end),
            ),
            Err((fault, at)) => value(before + s, 0) == Err::<(Json, int), (Fault, int)>(
                (fault, before.len() + at),
            ),
        },
{
    let n = before.len() as int;
    let start = skip_spaces(s, 0);
    lemma_skip_spaces(s, 0);
    match value(s, 0) {
        Ok(_) => {
            let t = s + after;
            lemma_skip_spaces_extended(s, after, 0);
            lemma_element_extended(s, after, start);
            assert(before + s + after =~= before + t);
            lemma_skip_over(before + t, 0, n);
            lemma_skip_spaces_moved(before, t, 0);
            lemma_element_moved(before, t, start);
        },
        Err(_) => {
            lemma_skip_over(before + s, 0, n);
            lemma_skip_spaces_moved(before, s, 0);
            lemma_element_moved(before, s, start);
        },
    }
}

} // verus!
