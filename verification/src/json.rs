//! The serialized form of the task list: a JSON array of objects, each with
//! a `content` and a `created_at` string field. The writer emits the compact
//! form, e.g. `[{"content":"Buy milk","created_at":"2024-01-15 09:30:00"}]`,
//! escaping every control character; the reader also accepts whitespace
//! between tokens, the two fields in either order, and `\uXXXX` escapes.
//!
//! `spec_encode_items` gives the exact text written for a task list and
//! `spec_decode_items` the exact task list read from a text, if any;
//! `lemma_encode_decode_round_trip` proves that decoding what was encoded
//! yields the original list.

use vstd::prelude::*;

use crate::task::{Task, TodoItem, tasks_of};
use vstd::string::StrSliceExecFns;
use vstd::string::StringExecFns;

verus! {

/// Why a serialized text was rejected: it is not the well-formed serialized
/// form of a task list.
#[derive(Clone, Copy, Debug, PartialEq, Eq, Structural)]
pub enum LoadError {
    Malformed,
}

// ---------------------------------------------------------------- encoding

/// The lower-case hexadecimal digit of a value below sixteen.
pub open spec fn spec_hex_digit(n: int) -> char {
    if n == 0 {
        '0'
    } else if n == 1 {
        '1'
    } else if n == 2 {
        '2'
    } else if n == 3 {
        '3'
    } else if n == 4 {
        '4'
    } else if n == 5 {
        '5'
    } else if n == 6 {
        '6'
    } else if n == 7 {
        '7'
    } else if n == 8 {
        '8'
    } else if n == 9 {
        '9'
    } else if n == 10 {
        'a'
    } else if n == 11 {
        'b'
    } else if n == 12 {
        'c'
    } else if n == 13 {
        'd'
    } else if n == 14 {
        'e'
    } else {
        'f'
    }
}

/// How one character of a string value is written inside a JSON string:
/// quote and backslash get a backslash escape, the five control characters
/// with short escapes get those, every other control character is written
/// `\u00XX`, and every remaining character stands as itself.
pub open spec fn spec_escape_char(c: char) -> Seq<char> {
    if c == '"' {
        seq!['\\', '"']
    } else if c == '\\' {
        seq!['\\', '\\']
    } else if c == '\u{8}' {
        seq!['\\', 'b']
    } else if c == '\u{c}' {
        seq!['\\', 'f']
    } else if c == '\n' {
        seq!['\\', 'n']
    } else if c == '\r' {
        seq!['\\', 'r']
    } else if c == '\t' {
        seq!['\\', 't']
    } else if (c as u32) < 0x20 {
        seq!['\\', 'u', '0', '0', spec_hex_digit(((c as u32) / 16) as int), spec_hex_digit(
            ((c as u32) % 16) as int,
        )]
    } else {
        seq![c]
    }
}

/// The characters of a string value as they stand between its two quotes.
pub open spec fn spec_encode_string_body(t: Seq<char>) -> Seq<char>
    decreases t.len(),
{
    if t.len() == 0 {
        Seq::empty()
    } else {
        spec_escape_char(t[0]) + spec_encode_string_body(t.skip(1))
    }
}

/// A whole string value, quotes included.
pub open spec fn spec_encode_string(v: Seq<char>) -> Seq<char> {
    seq!['"'] + spec_encode_string_body(v) + seq!['"']
}

/// The name of the content field.
pub open spec fn spec_content_key() -> Seq<char> {
    seq!['c', 'o', 'n', 't', 'e', 'n', 't']
}

/// The name of the timestamp field.
pub open spec fn spec_created_key() -> Seq<char> {
    seq!['c', 'r', 'e', 'a', 't', 'e', 'd', '_', 'a', 't']
}

/// The serialized form of one item: the two fields, content first, without
/// any spacing.
pub open spec fn spec_encode_item(t: Task) -> Seq<char> {
    seq!['{'] + spec_encode_string(spec_content_key()) + seq![':'] + spec_encode_string(t.content)
        + seq![','] + spec_encode_string(spec_created_key()) + seq![':'] + spec_encode_string(
        t.created_at,
    ) + seq!['}']
}

/// The serialized items, separated by commas.
pub open spec fn spec_encode_items_body(ts: Seq<Task>) -> Seq<char>
    decreases ts.len(),
{
    if ts.len() == 0 {
        Seq::empty()
    } else if ts.len() == 1 {
        spec_encode_item(ts[0])
    } else {
        spec_encode_item(ts[0]) + seq![','] + spec_encode_items_body(ts.skip(1))
    }
}

/// The serialized form of a whole task list.
pub open spec fn spec_encode_items(ts: Seq<Task>) -> Seq<char> {
    seq!['['] + spec_encode_items_body(ts) + seq![']']
}

// ---------------------------------------------------------------- decoding

/// JSON whitespace.
pub open spec fn spec_is_ws(c: char) -> bool {
    c == ' ' || c == '\t' || c == '\n' || c == '\r'
}

/// `s` without its leading whitespace.
pub open spec fn spec_skip_ws(s: Seq<char>) -> Seq<char>
    decreases s.len(),
{
    if s.len() > 0 && spec_is_ws(s[0]) {
        spec_skip_ws(s.skip(1))
    } else {
        s
    }
}

/// Whether `c` is a hexadecimal digit, either case.
pub open spec fn spec_is_hex(c: char) -> bool {
    (('0' as u32) <= (c as u32) && (c as u32) <= ('9' as u32)) || (('a' as u32) <= (c as u32) && (
    c as u32) <= ('f' as u32)) || (('A' as u32) <= (c as u32) && (c as u32) <= ('F' as u32))
}

/// The value of a hexadecimal digit.
pub open spec fn spec_hex_val(c: char) -> int {
    if ('0' as u32) <= (c as u32) && (c as u32) <= ('9' as u32) {
        (c as u32) - ('0' as u32)
    } else if ('a' as u32) <= (c as u32) && (c as u32) <= ('f' as u32) {
        (c as u32) - ('a' as u32) + 10
    } else {
        (c as u32) - ('A' as u32) + 10
    }
}

/// The character at a code point, or `None` where no Unicode scalar value
/// has that code: the surrogates and everything above 0x10FFFF.
pub open spec fn spec_char_from_code(code: u32) -> Option<char> {
    if (0xD800 <= code && code < 0xE000) || code > 0x10FFFF {
        None
    } else {
        Some(code as char)
    }
}

/// The code named by the four hexadecimal digits of a `\uXXXX` escape.
pub open spec fn spec_code_of(a: char, b: char, c: char, d: char) -> u32 {
    (spec_hex_val(a) * 0x1000 + spec_hex_val(b) * 0x100 + spec_hex_val(c) * 0x10 + spec_hex_val(
        d,
    )) as u32
}

/// The character stood for by a short backslash escape, if the escape is
/// known. Beside the escapes the encoder writes, `\/` is accepted as well;
/// `\uXXXX` escapes are handled separately.
pub open spec fn spec_unescape_char(c: char) -> Option<char> {
    if c == '"' {
        Some('"')
    } else if c == '\\' {
        Some('\\')
    } else if c == '/' {
        Some('/')
    } else if c == 'b' {
        Some('\u{8}')
    } else if c == 'f' {
        Some('\u{c}')
    } else if c == 'n' {
        Some('\n')
    } else if c == 'r' {
        Some('\r')
    } else if c == 't' {
        Some('\t')
    } else {
        None
    }
}

/// Reads a string value from `s` up to and including its closing quote,
/// `s` starting right after the opening quote. Yields the decoded characters
/// and what follows the closing quote, or `None` when no well-formed string
/// value starts here; an unescaped control character is malformed.
pub open spec fn spec_decode_string_body(s: Seq<char>) -> Option<(Seq<char>, Seq<char>)>
    decreases s.len(),
{
    if s.len() == 0 {
        None
    } else if s[0] == '"' {
        Some((Seq::empty(), s.skip(1)))
    } else if s[0] == '\\' {
        if s.len() < 2 {
            None
        } else if s[1] == 'u' {
            if s.len() < 6 {
                None
            } else if spec_is_hex(s[2]) && spec_is_hex(s[3]) && spec_is_hex(s[4]) && spec_is_hex(
                s[5],
            ) {
                match spec_char_from_code(spec_code_of(s[2], s[3], s[4], s[5])) {
                    None => None,
                    Some(c) => match spec_decode_string_body(s.skip(6)) {
                        None => None,
                        Some(p) => Some((seq![c] + p.0, p.1)),
                    },
                }
            } else {
                None
            }
        } else {
            match spec_unescape_char(s[1]) {
                None => None,
                Some(c) => match spec_decode_string_body(s.skip(2)) {
                    None => None,
                    Some(p) => Some((seq![c] + p.0, p.1)),
                },
            }
        }
    } else if (s[0] as u32) < 0x20 {
        None
    } else {
        match spec_decode_string_body(s.skip(1)) {
            None => None,
            Some(p) => Some((seq![s[0]] + p.0, p.1)),
        }
    }
}

/// Reads one `"name" : "value"` member from the front of `s`, yielding the
/// decoded name, the decoded value, and what follows the value's closing
/// quote.
pub open spec fn spec_decode_member(s: Seq<char>) -> Option<(Seq<char>, Seq<char>, Seq<char>)> {
    if s.len() >= 1 && s[0] == '"' {
        match spec_decode_string_body(s.skip(1)) {
            None => None,
            Some(p1) => {
                let r1 = spec_skip_ws(p1.1);
                if r1.len() >= 1 && r1[0] == ':' {
                    let r2 = spec_skip_ws(r1.skip(1));
                    if r2.len() >= 1 && r2[0] == '"' {
                        match spec_decode_string_body(r2.skip(1)) {
                            None => None,
                            Some(p2) => Some((p1.0, p2.0, p2.1)),
                        }
                    } else {
                        None
                    }
                } else {
                    None
                }
            },
        }
    } else {
        None
    }
}

/// Reads one serialized item from the front of `s`: an object with exactly
/// the two fields, in either order. Yields it and what follows its closing
/// brace.
pub open spec fn spec_decode_item(s: Seq<char>) -> Option<(Task, Seq<char>)> {
    if s.len() >= 1 && s[0] == '{' {
        match spec_decode_member(spec_skip_ws(s.skip(1))) {
            None => None,
            Some(m1) => {
                let r1 = spec_skip_ws(m1.2);
                if r1.len() >= 1 && r1[0] == ',' {
                    match spec_decode_member(spec_skip_ws(r1.skip(1))) {
                        None => None,
                        Some(m2) => {
                            let r2 = spec_skip_ws(m2.2);
                            if r2.len() >= 1 && r2[0] == '}' {
                                if m1.0 == spec_content_key() && m2.0 == spec_created_key() {
                                    Some(
                                        (Task { content: m1.1, created_at: m2.1 }, r2.skip(1)),
                                    )
                                } else if m1.0 == spec_created_key() && m2.0
                                    == spec_content_key() {
                                    Some(
                                        (Task { content: m2.1, created_at: m1.1 }, r2.skip(1)),
                                    )
                                } else {
                                    None
                                }
                            } else {
                                None
                            }
                        },
                    }
                } else {
                    None
                }
            },
        }
    } else {
        None
    }
}

/// Skipping whitespace never lengthens a text.
proof fn lemma_skip_ws_len(s: Seq<char>)
    ensures
        spec_skip_ws(s).len() <= s.len(),
    decreases s.len(),
{
    if s.len() > 0 && spec_is_ws(s[0]) {
        lemma_skip_ws_len(s.skip(1));
    }
}

/// A successfully read string value always stands before a strictly shorter
/// remainder: at least its closing quote was consumed.
proof fn lemma_decode_string_body_shrinks(s: Seq<char>)
    ensures
        match spec_decode_string_body(s) {
            None => true,
            Some(p) => p.1.len() < s.len(),
        },
    decreases s.len(),
{
    if s.len() == 0 {
    } else if s[0] == '"' {
    } else if s[0] == '\\' {
        if s.len() >= 2 && s[1] == 'u' {
            if s.len() >= 6 {
                lemma_decode_string_body_shrinks(s.skip(6));
            }
        } else if s.len() >= 2 {
            lemma_decode_string_body_shrinks(s.skip(2));
        }
    } else if (s[0] as u32) < 0x20 {
    } else {
        lemma_decode_string_body_shrinks(s.skip(1));
    }
}

/// A successfully read member always stands before a strictly shorter
/// remainder.
proof fn lemma_decode_member_shrinks(s: Seq<char>)
    ensures
        match spec_decode_member(s) {
            None => true,
            Some(m) => m.2.len() < s.len(),
        },
{
    if s.len() >= 1 && s[0] == '"' {
        lemma_decode_string_body_shrinks(s.skip(1));
        match spec_decode_string_body(s.skip(1)) {
            None => {},
            Some(p1) => {
                lemma_skip_ws_len(p1.1);
                let r1 = spec_skip_ws(p1.1);
                if r1.len() >= 1 && r1[0] == ':' {
                    lemma_skip_ws_len(r1.skip(1));
                    let r2 = spec_skip_ws(r1.skip(1));
                    if r2.len() >= 1 && r2[0] == '"' {
                        lemma_decode_string_body_shrinks(r2.skip(1));
                    }
                }
            },
        }
    }
}

/// A successfully read item always stands before a strictly shorter
/// remainder.
proof fn lemma_decode_item_shrinks(s: Seq<char>)
    ensures
        match spec_decode_item(s) {
            None => true,
            Some(p) => p.1.len() < s.len(),
        },
{
    if s.len() >= 1 && s[0] == '{' {
        lemma_skip_ws_len(s.skip(1));
        lemma_decode_member_shrinks(spec_skip_ws(s.skip(1)));
        match spec_decode_member(spec_skip_ws(s.skip(1))) {
            None => {},
            Some(m1) => {
                lemma_skip_ws_len(m1.2);
                let r1 = spec_skip_ws(m1.2);
                if r1.len() >= 1 && r1[0] == ',' {
                    lemma_skip_ws_len(r1.skip(1));
                    lemma_decode_member_shrinks(spec_skip_ws(r1.skip(1)));
                    match spec_decode_member(spec_skip_ws(r1.skip(1))) {
                        None => {},
                        Some(m2) => {
                            lemma_skip_ws_len(m2.2);
                        },
                    }
                }
            },
        }
    }
}

/// Reads the items of a non-empty array from `s`, `s` starting at the first
/// item, and demands that after the closing bracket only whitespace is
/// left.
pub open spec fn spec_decode_items_rest(s: Seq<char>) -> Option<Seq<Task>>
    decreases s.len(),
    via spec_decode_items_rest_decreases
{
    match spec_decode_item(s) {
        None => None,
        Some(p) => {
            let r1 = spec_skip_ws(p.1);
            if r1.len() >= 1 && r1[0] == ',' {
                match spec_decode_items_rest(spec_skip_ws(r1.skip(1))) {
                    None => None,
                    Some(ts) => Some(seq![p.0] + ts),
                }
            } else if r1.len() >= 1 && r1[0] == ']' {
                if spec_skip_ws(r1.skip(1)).len() == 0 {
                    Some(seq![p.0])
                } else {
                    None
                }
            } else {
                None
            }
        },
    }
}

#[via_fn]
proof fn spec_decode_items_rest_decreases(s: Seq<char>) {
    lemma_decode_item_shrinks(s);
    match spec_decode_item(s) {
        None => {},
        Some(p) => {
            lemma_skip_ws_len(p.1);
            let r1 = spec_skip_ws(p.1);
            if r1.len() >= 1 && r1[0] == ',' {
                lemma_skip_ws_len(r1.skip(1));
            }
        },
    }
}

/// The task list read from a serialized text, if the whole text is a
/// well-formed array of items and nothing but surrounding whitespace;
/// `None` otherwise.
pub open spec fn spec_decode_items(s: Seq<char>) -> Option<Seq<Task>> {
    let r0 = spec_skip_ws(s);
    if r0.len() >= 1 && r0[0] == '[' {
        let r1 = spec_skip_ws(r0.skip(1));
        if r1.len() >= 1 && r1[0] == ']' {
            if spec_skip_ws(r1.skip(1)).len() == 0 {
                Some(Seq::empty())
            } else {
                None
            }
        } else {
            spec_decode_items_rest(r1)
        }
    } else {
        None
    }
}


// ---------------------------------------------------------- the round trip

/// A character that stands for itself inside a string value.
pub open spec fn spec_is_plain(c: char) -> bool {
    c != '"' && c != '\\' && (c as u32) >= 0x20
}

/// A text of plain characters encodes as itself.
proof fn lemma_encode_plain(t: Seq<char>)
    requires
        forall|k: int| 0 <= k < t.len() ==> spec_is_plain(#[trigger] t[k]),
    ensures
        spec_encode_string_body(t) == t,
    decreases t.len(),
{
    if t.len() > 0 {
        assert(spec_is_plain(t[0]));
        assert(forall|k: int|
            0 <= k < t.skip(1).len() ==> spec_is_plain(#[trigger] t.skip(1)[k]));
        lemma_encode_plain(t.skip(1));
        assert(spec_escape_char(t[0]) =~= seq![t[0]]);
        assert(seq![t[0]] + t.skip(1) =~= t);
    }
}

/// The two field names hold only plain characters.
proof fn lemma_keys_plain()
    ensures
        forall|k: int|
            0 <= k < spec_content_key().len() ==> spec_is_plain(#[trigger] spec_content_key()[k]),
        forall|k: int|
            0 <= k < spec_created_key().len() ==> spec_is_plain(#[trigger] spec_created_key()[k]),
        spec_encode_string_body(spec_content_key()) == spec_content_key(),
        spec_encode_string_body(spec_created_key()) == spec_created_key(),
{
    assert forall|k: int|
        0 <= k < spec_content_key().len() implies spec_is_plain(
        #[trigger] spec_content_key()[k],
    ) by {
        if k == 0 || k == 4 {
            assert(spec_is_plain('c') && spec_is_plain('e'));
        }
        assert(spec_is_plain('c') && spec_is_plain('o') && spec_is_plain('n') && spec_is_plain(
            't',
        ) && spec_is_plain('e'));
    }
    assert forall|k: int|
        0 <= k < spec_created_key().len() implies spec_is_plain(
        #[trigger] spec_created_key()[k],
    ) by {
        assert(spec_is_plain('c') && spec_is_plain('r') && spec_is_plain('e') && spec_is_plain(
            'a',
        ) && spec_is_plain('t') && spec_is_plain('d') && spec_is_plain('_'));
    }
    lemma_encode_plain(spec_content_key());
    lemma_encode_plain(spec_created_key());
}

/// The hexadecimal digit of a value reads back as that value.
proof fn lemma_hex_digit_val(n: int)
    requires
        0 <= n < 16,
    ensures
        spec_is_hex(spec_hex_digit(n)),
        spec_hex_val(spec_hex_digit(n)) == n,
{
}

/// Skipping whitespace does nothing where none stands.
proof fn lemma_skip_ws_noop(s: Seq<char>)
    requires
        s.len() == 0 || !spec_is_ws(s[0]),
    ensures
        spec_skip_ws(s) == s,
{
}

/// Decoding an encoded string value consumes exactly the encoded characters
/// and the closing quote, and yields the original value.
proof fn lemma_decode_encode_string_body(t: Seq<char>, rest: Seq<char>)
    ensures
        spec_decode_string_body(spec_encode_string_body(t) + seq!['"'] + rest) == Some((t, rest)),
    decreases t.len(),
{
    let s = spec_encode_string_body(t) + seq!['"'] + rest;
    if t.len() == 0 {
        assert(s =~= seq!['"'] + rest);
        assert(s.skip(1) =~= rest);
    } else {
        let c = t[0];
        let e = spec_escape_char(c);
        let u = spec_encode_string_body(t.skip(1)) + seq!['"'] + rest;
        assert(s =~= e + u);
        lemma_decode_encode_string_body(t.skip(1), rest);
        if c == '"' || c == '\\' || c == '\u{8}' || c == '\u{c}' || c == '\n' || c == '\r' || c
            == '\t' {
            assert(s[0] == e[0] && s[1] == e[1]);
            assert(s.skip(2) =~= u);
            assert(s[0] == '\\');
            assert(s[1] != 'u');
            assert(spec_unescape_char(s[1]) == Some(c));
            assert(seq![c] + t.skip(1) =~= t);
        } else if (c as u32) < 0x20 {
            let code = c as u32;
            let hi = (code / 16) as int;
            let lo = (code % 16) as int;
            lemma_hex_digit_val(hi);
            lemma_hex_digit_val(lo);
            vstd::utf8::char_u32_cast(c, code);
            assert(s[0] == '\\' && s[1] == 'u' && s[2] == '0' && s[3] == '0' && s[4]
                == spec_hex_digit(hi) && s[5] == spec_hex_digit(lo));
            assert(spec_is_hex('0') && spec_hex_val('0') == 0);
            assert(spec_code_of(s[2], s[3], s[4], s[5]) == code);
            assert(spec_char_from_code(code) == Some(c));
            assert(s.skip(6) =~= u);
            assert(seq![c] + t.skip(1) =~= t);
        } else {
            assert(s[0] == c);
            assert(c != '"' && c != '\\' && (c as u32) >= 0x20);
            assert(s.skip(1) =~= u);
            assert(seq![c] + t.skip(1) =~= t);
        }
    }
}

/// Decoding an encoded `"name":"value"` member consumes exactly its
/// characters and yields the name and the value.
proof fn lemma_decode_encode_member(name: Seq<char>, value: Seq<char>, rest: Seq<char>)
    requires
        forall|k: int| 0 <= k < name.len() ==> spec_is_plain(#[trigger] name[k]),
    ensures
        spec_decode_member(spec_encode_string(name) + seq![':'] + spec_encode_string(value) + rest)
            == Some((name, value, rest)),
{
    let s = spec_encode_string(name) + seq![':'] + spec_encode_string(value) + rest;
    lemma_encode_plain(name);
    assert(s[0] == '"');
    let u1 = seq![':'] + spec_encode_string(value) + rest;
    assert(s.skip(1) =~= spec_encode_string_body(name) + seq!['"'] + u1);
    lemma_decode_encode_string_body(name, u1);
    assert(u1[0] == ':');
    lemma_skip_ws_noop(u1);
    let u2 = spec_encode_string(value) + rest;
    assert(u1.skip(1) =~= u2);
    assert(u2[0] == '"');
    lemma_skip_ws_noop(u2);
    assert(u2.skip(1) =~= spec_encode_string_body(value) + seq!['"'] + rest);
    lemma_decode_encode_string_body(value, rest);
}

/// Decoding an encoded item consumes exactly its characters and yields the
/// original item.
proof fn lemma_decode_encode_item(t: Task, rest: Seq<char>)
    ensures
        spec_decode_item(spec_encode_item(t) + rest) == Some((t, rest)),
{
    let s = spec_encode_item(t) + rest;
    lemma_keys_plain();
    let tail2 = seq!['}'] + rest;
    let mem2 = spec_encode_string(spec_created_key()) + seq![':'] + spec_encode_string(
        t.created_at,
    ) + tail2;
    let tail1 = seq![','] + mem2;
    let mem1 = spec_encode_string(spec_content_key()) + seq![':'] + spec_encode_string(t.content)
        + tail1;
    assert(s[0] == '{');
    assert(s.skip(1) =~= mem1);
    assert(mem1[0] == '"');
    lemma_skip_ws_noop(mem1);
    lemma_decode_encode_member(spec_content_key(), t.content, tail1);
    assert(tail1[0] == ',');
    lemma_skip_ws_noop(tail1);
    assert(tail1.skip(1) =~= mem2);
    assert(mem2[0] == '"');
    lemma_skip_ws_noop(mem2);
    lemma_decode_encode_member(spec_created_key(), t.created_at, tail2);
    assert(tail2[0] == '}');
    lemma_skip_ws_noop(tail2);
    assert(tail2.skip(1) =~= rest);
    assert(Task { content: t.content, created_at: t.created_at } == t);
}

/// An item's serialized form opens with its brace.
proof fn lemma_encode_item_head(t: Task)
    ensures
        spec_encode_item(t).len() >= 1,
        spec_encode_item(t)[0] == '{',
{
}

/// Decoding the encoded body of a non-empty list, closed by its bracket,
/// yields the original list.
#[verifier::rlimit(30)]
proof fn lemma_decode_encode_items_rest(ts: Seq<Task>)
    requires
        ts.len() >= 1,
    ensures
        spec_decode_items_rest(spec_encode_items_body(ts) + seq![']']) == Some(ts),
    decreases ts.len(),
{
    let s = spec_encode_items_body(ts) + seq![']'];
    if ts.len() == 1 {
        lemma_decode_encode_item(ts[0], seq![']']);
        assert(s =~= spec_encode_item(ts[0]) + seq![']']);
        lemma_skip_ws_noop(seq![']']);
        assert(seq![']'].skip(1) =~= Seq::<char>::empty());
        lemma_skip_ws_noop(Seq::<char>::empty());
        assert(seq![ts[0]] =~= ts);
    } else {
        let tail = spec_encode_items_body(ts.skip(1)) + seq![']'];
        let after = seq![','] + tail;
        lemma_decode_encode_item(ts[0], after);
        assert(s =~= spec_encode_item(ts[0]) + after);
        assert(after[0] == ',');
        lemma_skip_ws_noop(after);
        assert(after.skip(1) =~= tail);
        lemma_encode_item_head(ts.skip(1)[0]);
        assert(tail[0] == '{');
        lemma_skip_ws_noop(tail);
        lemma_decode_encode_items_rest(ts.skip(1));
        assert(seq![ts[0]] + ts.skip(1) =~= ts);
    }
}

/// Law: decoding the encoded form of any task list yields that list,
/// content and timestamps alike, in order.
pub proof fn lemma_encode_decode_round_trip(ts: Seq<Task>)
    ensures
        spec_decode_items(spec_encode_items(ts)) == Some(ts),
{
    let s = spec_encode_items(ts);
    assert(s[0] == '[');
    lemma_skip_ws_noop(s);
    if ts.len() == 0 {
        assert(s =~= seq!['[', ']']);
        assert(s.skip(1) =~= seq![']']);
        lemma_skip_ws_noop(seq![']']);
        assert(seq![']'].skip(1) =~= Seq::<char>::empty());
        lemma_skip_ws_noop(Seq::<char>::empty());
    } else {
        let body = spec_encode_items_body(ts) + seq![']'];
        assert(s.skip(1) =~= body);
        lemma_encode_item_head(ts[0]);
        assert(body[0] == '{');
        lemma_skip_ws_noop(body);
        lemma_decode_encode_items_rest(ts);
    }
}


// ------------------------------------------------------------- the parser

/// Relies on String::push: appends the given character to the string.
#[verifier::external_body]
fn push_char(s: &mut String, c: char)
    ensures
        final(s)@ == old(s)@.push(c),
{
    s.push(c);
}

/// Relies on char::from_u32: `Some` exactly at the code of a Unicode scalar
/// value (not a surrogate, at most 0x10FFFF), holding the character with
/// that code.
#[verifier::external_body]
fn char_from_u32(code: u32) -> (r: Option<char>)
    ensures
        r == spec_char_from_code(code),
{
    char::from_u32(code)
}

/// The characters of `s`, in order, as a vector.
fn str_to_chars(s: &str) -> (r: Vec<char>)
    ensures
        r@ == s@,
{
    let n = s.unicode_len();
    let mut r: Vec<char> = Vec::new();
    let mut i: usize = 0;
    while i < n
        invariant
            n == s@.len(),
            i <= n,
            r@ == s@.take(i as int),
        decreases n - i,
    {
        r.push(s.get_char(i));
        proof {
            assert(s@.take(i + 1 as int) =~= s@.take(i as int).push(s@[i as int]));
        }
        i += 1;
    }
    proof {
        assert(s@.take(n as int) =~= s@);
    }
    r
}

fn is_ws_char(c: char) -> (r: bool)
    ensures
        r == spec_is_ws(c),
{
    c == ' ' || c == '\t' || c == '\n' || c == '\r'
}

fn is_hex_char(c: char) -> (r: bool)
    ensures
        r == spec_is_hex(c),
{
    let u = c as u32;
    (('0' as u32) <= u && u <= ('9' as u32)) || (('a' as u32) <= u && u <= ('f' as u32)) || ((
    'A' as u32) <= u && u <= ('F' as u32))
}

fn hex_val_char(c: char) -> (r: u32)
    requires
        spec_is_hex(c),
    ensures
        r == spec_hex_val(c),
        r < 16,
{
    let u = c as u32;
    if ('0' as u32) <= u && u <= ('9' as u32) {
        u - ('0' as u32)
    } else if ('a' as u32) <= u && u <= ('f' as u32) {
        u - ('a' as u32) + 10
    } else {
        u - ('A' as u32) + 10
    }
}

fn unescape_char(c: char) -> (r: Option<char>)
    ensures
        r == spec_unescape_char(c),
{
    if c == '"' {
        Some('"')
    } else if c == '\\' {
        Some('\\')
    } else if c == '/' {
        Some('/')
    } else if c == 'b' {
        Some('\u{8}')
    } else if c == 'f' {
        Some('\u{c}')
    } else if c == 'n' {
        Some('\n')
    } else if c == 'r' {
        Some('\r')
    } else if c == 't' {
        Some('\t')
    } else {
        None
    }
}

/// The position of the first non-whitespace character at or after `i`.
fn skip_ws_at(s: &Vec<char>, i: usize) -> (j: usize)
    requires
        i <= s@.len(),
    ensures
        i <= j <= s@.len(),
        s@.skip(j as int) == spec_skip_ws(s@.skip(i as int)),
{
    let mut j: usize = i;
    while j < s.len()
        invariant
            i <= j <= s@.len(),
            spec_skip_ws(s@.skip(i as int)) == spec_skip_ws(s@.skip(j as int)),
        decreases s@.len() - j,
    {
        if !is_ws_char(s[j]) {
            proof {
                assert(s@.skip(j as int)[0] == s@[j as int]);
            }
            return j;
        }
        proof {
            assert(s@.skip(j as int)[0] == s@[j as int]);
            assert(s@.skip(j as int).skip(1) =~= s@.skip(j + 1 as int));
        }
        j += 1;
    }
    proof {
        assert(s@.skip(j as int) =~= Seq::<char>::empty());
    }
    j
}

/// Reads a string value of the serialized text, starting right after its
/// opening quote at `i`, appending its decoded characters to `out` and
/// returning the position right after its closing quote.
fn parse_string_body(s: &Vec<char>, i: usize, out: &mut String) -> (r: Option<usize>)
    requires
        i <= s@.len(),
    ensures
        match spec_decode_string_body(s@.skip(i as int)) {
            None => r is None,
            Some(p) => match r {
                None => false,
                Some(j) => i < j <= s@.len() && final(out)@ == old(out)@ + p.0 && s@.skip(j as int)
                    == p.1,
            },
        },
    decreases s@.len() - i,
{
    let ghost d = s@.skip(i as int);
    if i == s.len() {
        return None;
    }
    let c = s[i];
    assert(d[0] == c);
    if c == '"' {
        proof {
            assert(d.skip(1) =~= s@.skip(i + 1 as int));
            assert(out@ + Seq::<char>::empty() =~= out@);
        }
        Some(i + 1)
    } else if c == '\\' {
        if i + 1 == s.len() {
            return None;
        }
        let e = s[i + 1];
        assert(d[1] == e);
        if e == 'u' {
            if s.len() - (i + 2) < 4 {
                return None;
            }
            let h1 = s[i + 2];
            let h2 = s[i + 3];
            let h3 = s[i + 4];
            let h4 = s[i + 5];
            proof {
                assert(d[2] == h1 && d[3] == h2 && d[4] == h3 && d[5] == h4);
            }
            if !(is_hex_char(h1) && is_hex_char(h2) && is_hex_char(h3) && is_hex_char(h4)) {
                return None;
            }
            let code: u32 = hex_val_char(h1) * 0x1000 + hex_val_char(h2) * 0x100 + hex_val_char(
                h3,
            ) * 0x10 + hex_val_char(h4);
            proof {
                assert(code == spec_code_of(h1, h2, h3, h4));
            }
            match char_from_u32(code) {
                None => None,
                Some(cc) => {
                    let ghost out0 = out@;
                    push_char(out, cc);
                    proof {
                        assert(d.skip(6) =~= s@.skip(i + 6 as int));
                    }
                    match parse_string_body(s, i + 6, out) {
                        None => None,
                        Some(j) => {
                            proof {
                                let p = spec_decode_string_body(d.skip(6)).unwrap();
                                assert(out@ == (out0.push(cc)) + p.0);
                                assert(out0 + (seq![cc] + p.0) =~= (out0.push(cc)) + p.0);
                            }
                            Some(j)
                        },
                    }
                },
            }
        } else {
            match unescape_char(e) {
                None => None,
                Some(cc) => {
                    let ghost out0 = out@;
                    push_char(out, cc);
                    proof {
                        assert(d.skip(2) =~= s@.skip(i + 2 as int));
                    }
                    match parse_string_body(s, i + 2, out) {
                        None => None,
                        Some(j) => {
                            proof {
                                let p = spec_decode_string_body(d.skip(2)).unwrap();
                                assert(out@ == (out0.push(cc)) + p.0);
                                assert(out0 + (seq![cc] + p.0) =~= (out0.push(cc)) + p.0);
                            }
                            Some(j)
                        },
                    }
                },
            }
        }
    } else if (c as u32) < 0x20 {
        None
    } else {
        let ghost out0 = out@;
        push_char(out, c);
        proof {
            assert(d.skip(1) =~= s@.skip(i + 1 as int));
        }
        match parse_string_body(s, i + 1, out) {
            None => None,
            Some(j) => {
                proof {
                    let p = spec_decode_string_body(d.skip(1)).unwrap();
                    assert(out@ == (out0.push(c)) + p.0);
                    assert(out0 + (seq![c] + p.0) =~= (out0.push(c)) + p.0);
                }
                Some(j)
            },
        }
    }
}

/// Whether the decoded name is the content field's.
fn is_content_key(name: &String) -> (r: bool)
    ensures
        r == (name@ == spec_content_key()),
{
    proof {
        reveal_strlit("content");
        assert("content"@ =~= spec_content_key());
    }
    let k: String = "content".to_owned();
    name.eq(&k)
}

/// Whether the decoded name is the timestamp field's.
fn is_created_key(name: &String) -> (r: bool)
    ensures
        r == (name@ == spec_created_key()),
{
    proof {
        reveal_strlit("created_at");
        assert("created_at"@ =~= spec_created_key());
    }
    let k: String = "created_at".to_owned();
    name.eq(&k)
}

/// Reads one `"name":"value"` member starting at `i`, returning the decoded
/// name, the decoded value, and the position right after the value's
/// closing quote.
fn parse_member(s: &Vec<char>, i: usize) -> (r: Option<(String, String, usize)>)
    requires
        i <= s@.len(),
    ensures
        match spec_decode_member(s@.skip(i as int)) {
            None => r is None,
            Some(m) => match r {
                None => false,
                Some(t) => t.0@ == m.0 && t.1@ == m.1 && i < t.2 <= s@.len() && s@.skip(
                    t.2 as int,
                ) == m.2,
            },
        },
{
    let ghost d = s@.skip(i as int);
    if i == s.len() {
        return None;
    }
    assert(d[0] == s@[i as int]);
    if s[i] != '"' {
        return None;
    }
    let mut name = String::new();
    proof {
        assert(d.skip(1) =~= s@.skip(i + 1 as int));
    }
    let j1 = match parse_string_body(s, i + 1, &mut name) {
        None => {
            return None;
        },
        Some(j) => j,
    };
    let k1 = skip_ws_at(s, j1);
    if k1 == s.len() {
        return None;
    }
    assert(s@.skip(k1 as int)[0] == s@[k1 as int]);
    if s[k1] != ':' {
        return None;
    }
    proof {
        assert(s@.skip(k1 as int).skip(1) =~= s@.skip(k1 + 1 as int));
    }
    let k2 = skip_ws_at(s, k1 + 1);
    if k2 == s.len() {
        return None;
    }
    assert(s@.skip(k2 as int)[0] == s@[k2 as int]);
    if s[k2] != '"' {
        return None;
    }
    let mut value = String::new();
    proof {
        assert(s@.skip(k2 as int).skip(1) =~= s@.skip(k2 + 1 as int));
    }
    let j2 = match parse_string_body(s, k2 + 1, &mut value) {
        None => {
            return None;
        },
        Some(j) => j,
    };
    Some((name, value, j2))
}

/// Reads one serialized item starting at `i`: an object with exactly the
/// two fields, in either order. Returns it and the position right after its
/// closing brace.
fn parse_item(s: &Vec<char>, i: usize) -> (r: Option<(TodoItem, usize)>)
    requires
        i <= s@.len(),
    ensures
        match spec_decode_item(s@.skip(i as int)) {
            None => r is None,
            Some(p) => match r {
                None => false,
                Some(pair) => pair.0@ == p.0 && i < pair.1 <= s@.len() && s@.skip(pair.1 as int)
                    == p.1,
            },
        },
{
    let ghost d = s@.skip(i as int);
    if i == s.len() {
        return None;
    }
    assert(d[0] == s@[i as int]);
    if s[i] != '{' {
        return None;
    }
    proof {
        assert(d.skip(1) =~= s@.skip(i + 1 as int));
    }
    let k0 = skip_ws_at(s, i + 1);
    let (n1, v1, j1) = match parse_member(s, k0) {
        None => {
            return None;
        },
        Some(m) => m,
    };
    let k1 = skip_ws_at(s, j1);
    if k1 == s.len() {
        return None;
    }
    assert(s@.skip(k1 as int)[0] == s@[k1 as int]);
    if s[k1] != ',' {
        return None;
    }
    proof {
        assert(s@.skip(k1 as int).skip(1) =~= s@.skip(k1 + 1 as int));
    }
    let k2 = skip_ws_at(s, k1 + 1);
    let (n2, v2, j2) = match parse_member(s, k2) {
        None => {
            return None;
        },
        Some(m) => m,
    };
    let k3 = skip_ws_at(s, j2);
    if k3 == s.len() {
        return None;
    }
    assert(s@.skip(k3 as int)[0] == s@[k3 as int]);
    if s[k3] != '}' {
        return None;
    }
    proof {
        assert(s@.skip(k3 as int).skip(1) =~= s@.skip(k3 + 1 as int));
    }
    let c1 = is_content_key(&n1);
    let a1 = is_created_key(&n1);
    let c2 = is_content_key(&n2);
    let a2 = is_created_key(&n2);
    if c1 && a2 {
        Some((TodoItem { content: v1, created_at: v2 }, k3 + 1))
    } else if a1 && c2 {
        Some((TodoItem { content: v2, created_at: v1 }, k3 + 1))
    } else {
        None
    }
}

/// Reads the items of a non-empty array starting at `i`, at the first
/// item, appending them to `out`; after the closing bracket only
/// whitespace may be left.
fn parse_items_rest(s: &Vec<char>, i: usize, out: &mut Vec<TodoItem>) -> (ok: bool)
    requires
        i <= s@.len(),
    ensures
        match spec_decode_items_rest(s@.skip(i as int)) {
            None => !ok,
            Some(ts) => ok && tasks_of(final(out)@) == tasks_of(old(out)@) + ts,
        },
    decreases s@.len() - i,
{
    let ghost d = s@.skip(i as int);
    let (item, j) = match parse_item(s, i) {
        None => {
            return false;
        },
        Some(p) => p,
    };
    let ghost p = spec_decode_item(d).unwrap();
    let k = skip_ws_at(s, j);
    if k == s.len() {
        return false;
    }
    let c = s[k];
    assert(s@.skip(k as int)[0] == s@[k as int]);
    if c == ',' {
        out.push(item);
        let ghost out1 = out@;
        proof {
            assert(s@.skip(k as int).skip(1) =~= s@.skip(k + 1 as int));
        }
        let k2 = skip_ws_at(s, k + 1);
        let ok2 = parse_items_rest(s, k2, out);
        proof {
            if ok2 {
                let ts2 = spec_decode_items_rest(s@.skip(k2 as int)).unwrap();
                assert(tasks_of(out1) =~= tasks_of(old(out)@) + seq![item@]);
                assert((tasks_of(old(out)@) + seq![item@]) + ts2 =~= tasks_of(old(out)@) + (seq![
                    item@,
                ] + ts2));
            }
        }
        ok2
    } else if c == ']' {
        proof {
            assert(s@.skip(k as int).skip(1) =~= s@.skip(k + 1 as int));
        }
        let k2 = skip_ws_at(s, k + 1);
        if k2 == s.len() {
            out.push(item);
            proof {
                assert(tasks_of(out@) =~= tasks_of(old(out)@) + seq![item@]);
            }
            true
        } else {
            false
        }
    } else {
        false
    }
}

/// Deserializes a task list from a serialized text: the items read, or the
/// error when the text is not the well-formed serialized form of a task
/// list.
pub fn parse_items(s: &str) -> (r: Result<Vec<TodoItem>, LoadError>)
    ensures
        match spec_decode_items(s@) {
            None => r == Result::<Vec<TodoItem>, LoadError>::Err(LoadError::Malformed),
            Some(ts) => match r {
                Ok(v) => tasks_of(v@) == ts,
                Err(_) => false,
            },
        },
{
    let cs = str_to_chars(s);
    proof {
        assert(cs@.skip(0) =~= s@);
    }
    let i0 = skip_ws_at(&cs, 0);
    if i0 == cs.len() {
        return Err(LoadError::Malformed);
    }
    assert(cs@.skip(i0 as int)[0] == cs@[i0 as int]);
    if cs[i0] != '[' {
        return Err(LoadError::Malformed);
    }
    proof {
        assert(cs@.skip(i0 as int).skip(1) =~= cs@.skip(i0 + 1 as int));
    }
    let i1 = skip_ws_at(&cs, i0 + 1);
    proof {
        if i1 < cs.len() {
            assert(cs@.skip(i1 as int)[0] == cs@[i1 as int]);
        }
    }
    if i1 < cs.len() && cs[i1] == ']' {
        proof {
            assert(cs@.skip(i1 as int).skip(1) =~= cs@.skip(i1 + 1 as int));
        }
        let i2 = skip_ws_at(&cs, i1 + 1);
        if i2 == cs.len() {
            let items: Vec<TodoItem> = Vec::new();
            proof {
                assert(tasks_of(items@) =~= Seq::<Task>::empty());
            }
            Ok(items)
        } else {
            Err(LoadError::Malformed)
        }
    } else {
        let mut items: Vec<TodoItem> = Vec::new();
        let ok = parse_items_rest(&cs, i1, &mut items);
        if ok {
            proof {
                let ts = spec_decode_items_rest(cs@.skip(i1 as int)).unwrap();
                assert(tasks_of(Seq::<TodoItem>::empty()) =~= Seq::<Task>::empty());
                assert(tasks_of(items@) =~= ts);
            }
            Ok(items)
        } else {
            Err(LoadError::Malformed)
        }
    }
}

// ------------------------------------------------------------ the encoder

/// Appending one more character to a string value appends its escape to the
/// encoded form.
proof fn lemma_encode_body_snoc(t: Seq<char>, c: char)
    ensures
        spec_encode_string_body(t.push(c)) == spec_encode_string_body(t) + spec_escape_char(c),
    decreases t.len(),
{
    reveal_with_fuel(spec_encode_string_body, 3);
    if t.len() == 0 {
        assert(t.push(c)[0] == c);
        assert(t.push(c).skip(1) =~= Seq::<char>::empty());
        assert(spec_escape_char(c) + Seq::<char>::empty() =~= spec_escape_char(c));
        assert(Seq::<char>::empty() + spec_escape_char(c) =~= spec_escape_char(c));
    } else {
        lemma_encode_body_snoc(t.skip(1), c);
        assert(t.push(c).skip(1) =~= t.skip(1).push(c));
        assert(t.push(c)[0] == t[0]);
        assert(spec_escape_char(t[0]) + (spec_encode_string_body(t.skip(1)) + spec_escape_char(c))
            =~= (spec_escape_char(t[0]) + spec_encode_string_body(t.skip(1))) + spec_escape_char(
            c,
        ));
    }
}

/// The lower-case hexadecimal digit of a value below sixteen.
fn hex_digit(n: u32) -> (r: char)
    requires
        n < 16,
    ensures
        r == spec_hex_digit(n as int),
{
    if n == 0 {
        '0'
    } else if n == 1 {
        '1'
    } else if n == 2 {
        '2'
    } else if n == 3 {
        '3'
    } else if n == 4 {
        '4'
    } else if n == 5 {
        '5'
    } else if n == 6 {
        '6'
    } else if n == 7 {
        '7'
    } else if n == 8 {
        '8'
    } else if n == 9 {
        '9'
    } else if n == 10 {
        'a'
    } else if n == 11 {
        'b'
    } else if n == 12 {
        'c'
    } else if n == 13 {
        'd'
    } else if n == 14 {
        'e'
    } else {
        'f'
    }
}

/// Appends the encoded characters of the string value `t` to `out`, without
/// the surrounding quotes.
fn encode_string_body_into(out: &mut String, t: &str)
    ensures
        final(out)@ == old(out)@ + spec_encode_string_body(t@),
{
    let n = t.unicode_len();
    let mut k: usize = 0;
    while k < n
        invariant
            n == t@.len(),
            k <= n,
            out@ == old(out)@ + spec_encode_string_body(t@.take(k as int)),
        decreases n - k,
    {
        let ghost before = out@;
        let c = t.get_char(k);
        if c == '"' {
            push_char(out, '\\');
            push_char(out, '"');
        } else if c == '\\' {
            push_char(out, '\\');
            push_char(out, '\\');
        } else if c == '\u{8}' {
            push_char(out, '\\');
            push_char(out, 'b');
        } else if c == '\u{c}' {
            push_char(out, '\\');
            push_char(out, 'f');
        } else if c == '\n' {
            push_char(out, '\\');
            push_char(out, 'n');
        } else if c == '\r' {
            push_char(out, '\\');
            push_char(out, 'r');
        } else if c == '\t' {
            push_char(out, '\\');
            push_char(out, 't');
        } else if (c as u32) < 0x20 {
            let code = c as u32;
            push_char(out, '\\');
            push_char(out, 'u');
            push_char(out, '0');
            push_char(out, '0');
            push_char(out, hex_digit(code / 16));
            push_char(out, hex_digit(code % 16));
        } else {
            push_char(out, c);
        }
        proof {
            assert(out@ =~= before + spec_escape_char(c));
            lemma_encode_body_snoc(t@.take(k as int), c);
            assert(t@.take(k + 1 as int) =~= t@.take(k as int).push(t@[k as int]));
            assert(out@ =~= old(out)@ + spec_encode_string_body(t@.take(k + 1 as int)));
        }
        k += 1;
    }
    proof {
        assert(t@.take(n as int) =~= t@);
    }
}

/// Appends the serialized form of one item to `out`.
fn encode_item_into(out: &mut String, item: &TodoItem)
    ensures
        final(out)@ == old(out)@ + spec_encode_item(item@),
{
    proof {
        reveal_strlit("{\"content\":\"");
        reveal_strlit("\",\"created_at\":\"");
        reveal_strlit("\"}");
        lemma_keys_plain();
    }
    assert("{\"content\":\""@ =~= seq!['{', '"'] + spec_content_key() + seq!['"', ':', '"']);
    assert("\",\"created_at\":\""@ =~= seq!['"', ',', '"'] + spec_created_key() + seq![
        '"',
        ':',
        '"',
    ]);
    assert("\"}"@ =~= seq!['"', '}']);
    out.append("{\"content\":\"");
    encode_string_body_into(out, item.content.as_str());
    out.append("\",\"created_at\":\"");
    encode_string_body_into(out, item.created_at.as_str());
    out.append("\"}");
    proof {
        assert(out@ =~= old(out)@ + spec_encode_item(item@));
    }
}

/// Appending one more task to a list appends its serialized form, behind a
/// comma when it is not the first, to the serialized items.
proof fn lemma_encode_items_body_snoc(ts: Seq<Task>, t: Task)
    ensures
        spec_encode_items_body(ts.push(t)) == (if ts.len() == 0 {
            spec_encode_item(t)
        } else {
            spec_encode_items_body(ts) + seq![','] + spec_encode_item(t)
        }),
    decreases ts.len(),
{
    if ts.len() == 0 {
        assert(ts.push(t)[0] == t);
    } else {
        lemma_encode_items_body_snoc(ts.skip(1), t);
        assert(ts.push(t).skip(1) =~= ts.skip(1).push(t));
        assert(ts.push(t)[0] == ts[0]);
        if ts.len() == 1 {
            assert(ts.skip(1).len() == 0);
            assert(spec_encode_items_body(ts) == spec_encode_item(ts[0]));
            assert(spec_encode_item(ts[0]) + seq![','] + spec_encode_items_body(
                ts.skip(1).push(t),
            ) =~= spec_encode_items_body(ts) + seq![','] + spec_encode_item(t));
        } else {
            assert(spec_encode_item(ts[0]) + seq![','] + (spec_encode_items_body(ts.skip(1))
                + seq![','] + spec_encode_item(t)) =~= (spec_encode_item(ts[0]) + seq![',']
                + spec_encode_items_body(ts.skip(1))) + seq![','] + spec_encode_item(t));
        }
    }
}

/// Serializes the items to the exact text of the persisted file.
pub fn encode_items(items: &Vec<TodoItem>) -> (r: String)
    ensures
        r@ == spec_encode_items(tasks_of(items@)),
{
    let ghost ts = tasks_of(items@);
    let mut out = String::new();
    push_char(&mut out, '[');
    let mut k: usize = 0;
    while k < items.len()
        invariant
            k <= items@.len(),
            ts == tasks_of(items@),
            ts.len() == items@.len(),
            out@ == seq!['['] + spec_encode_items_body(ts.take(k as int)),
        decreases items@.len() - k,
    {
        if k > 0 {
            push_char(&mut out, ',');
        }
        encode_item_into(&mut out, &items[k]);
        proof {
            lemma_encode_items_body_snoc(ts.take(k as int), ts[k as int]);
            assert(ts.take(k + 1 as int) =~= ts.take(k as int).push(ts[k as int]));
            assert(items@[k as int]@ == ts[k as int]);
            assert(out@ =~= seq!['['] + spec_encode_items_body(ts.take(k + 1 as int)));
        }
        k += 1;
    }
    push_char(&mut out, ']');
    proof {
        assert(ts.take(ts.len() as int) =~= ts);
        assert(out@ =~= spec_encode_items(ts));
    }
    out
}

} // verus!
