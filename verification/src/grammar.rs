//! The JSON grammar: what text is a JSON document, and what value it denotes.

use vstd::prelude::*;
use vstd::utf8;

use crate::json;
use crate::json::Json;
use crate::json::Value;
use crate::number;
use crate::number::normalize;
use crate::text;
use crate::text::characters;
use crate::text::read_integer;

verus! {

/// How deep arrays and objects may nest.
pub const MAX_DEPTH: usize = 512;

/// What is wrong with a text that is no JSON document.
#[derive(Debug, Clone, Copy, PartialEq, Eq, Structural)]
pub enum ErrorKind {
    /// The text ends inside a value.
    UnexpectedEnd,
    /// A character that cannot stand where it stands.
    Unexpected(char),
    /// An object member does not start with a quote.
    ExpectedKey,
    /// An object key is not followed by a colon.
    ExpectedColon,
    /// An unescaped control character inside a string.
    ControlCharacter,
    /// A backslash that starts no escape sequence.
    InvalidEscape,
    /// A number with a missing digit.
    InvalidNumber,
    /// Arrays and objects nest deeper than [`MAX_DEPTH`].
    TooDeep,
}

/// Where parsing stopped, by character position, and why.
pub struct Fault {
    pub at: int,
    pub kind: ErrorKind,
}

pub open spec fn fault<T>(at: int, kind: ErrorKind) -> Result<T, Fault> {
    Err(Fault { at, kind })
}

/// Whether a character is JSON white space.
pub open spec fn is_space(c: char) -> bool {
    c == ' ' || c == '\t' || c == '\n' || c == '\r'
}

/// The position of the first character from `i` on that is no white space.
pub open spec fn skip_space(s: Seq<char>, i: int) -> int
    decreases s.len() - i,
{
    if 0 <= i < s.len() && is_space(s[i]) {
        skip_space(s, i + 1)
    } else {
        i
    }
}

/// Skipping white space never goes back, nor past the end.
pub proof fn lemma_skip_space(s: Seq<char>, i: int)
    ensures
        i <= skip_space(s, i),
        i <= s.len() ==> skip_space(s, i) <= s.len(),
    decreases s.len() - i,
{
    if 0 <= i < s.len() && is_space(s[i]) {
        lemma_skip_space(s, i + 1);
    }
}

/// The number that a hexadecimal digit stands for.
pub open spec fn hex_value(c: char) -> Option<u32> {
    if '0' <= c && c <= '9' {
        Some((c as u32 - '0' as u32) as u32)
    } else if 'a' <= c && c <= 'f' {
        Some((c as u32 - 'a' as u32 + 10) as u32)
    } else if 'A' <= c && c <= 'F' {
        Some((c as u32 - 'A' as u32 + 10) as u32)
    } else {
        None
    }
}

/// The number written as four hexadecimal digits at `i`.
pub open spec fn hex4_at(s: Seq<char>, i: int) -> Option<u32> {
    if 0 <= i && i + 4 <= s.len() {
        match (hex_value(s[i]), hex_value(s[i + 1]), hex_value(s[i + 2]), hex_value(s[i + 3])) {
            (Some(a), Some(b), Some(c), Some(d)) => Some(
                (a * 4096 + b * 256 + c * 16 + d) as u32,
            ),
            _ => None,
        }
    } else {
        None
    }
}

/// The character that a one-letter escape stands for.
pub open spec fn short_escape(c: char) -> Option<char> {
    if c == '"' || c == '\\' || c == '/' {
        Some(c)
    } else if c == 'b' {
        Some('\x08')
    } else if c == 'f' {
        Some('\x0c')
    } else if c == 'n' {
        Some('\n')
    } else if c == 'r' {
        Some('\r')
    } else if c == 't' {
        Some('\t')
    } else {
        None
    }
}

/// The character that the escape sequence at `i` stands for, and where the
/// sequence ends. A character outside the basic plane is written as two
/// surrogates; half of such a pair is no character.
pub open spec fn escape_at(s: Seq<char>, i: int) -> Option<(char, int)> {
    if i + 1 >= s.len() {
        None
    } else if s[i + 1] == 'u' {
        match hex4_at(s, i + 2) {
            None => None,
            Some(unit) => if 0xd800 <= unit < 0xdc00 {
                match hex4_at(s, i + 8) {
                    Some(low) => if s[i + 6] == '\\' && s[i + 7] == 'u' && 0xdc00 <= low
                        < 0xe000 {
                        Some(
                            (
                                (0x10000 + (unit - 0xd800) * 0x400 + (low - 0xdc00)) as u32 as char,
                                i + 12,
                            ),
                        )
                    } else {
                        None
                    },
                    None => None,
                }
            } else if 0xdc00 <= unit < 0xe000 {
                None
            } else {
                Some((unit as char, i + 6))
            },
        }
    } else {
        match short_escape(s[i + 1]) {
            Some(c) => Some((c, i + 2)),
            None => None,
        }
    }
}

/// The rest of a string from `i` on, after the characters `done`: the whole
/// string and the position after its closing quote.
pub open spec fn string_at(s: Seq<char>, i: int, done: Seq<char>) -> Result<
    (Seq<char>, int),
    Fault,
>
    decreases s.len() - i,
{
    if i >= s.len() {
        fault(i, ErrorKind::UnexpectedEnd)
    } else if s[i] == '"' {
        Ok((done, i + 1))
    } else if s[i] == '\\' {
        match escape_at(s, i) {
            Some((c, j)) => string_at(s, j, done.push(c)),
            None => fault(i, ErrorKind::InvalidEscape),
        }
    } else if (s[i] as u32) < 0x20 {
        fault(i, ErrorKind::ControlCharacter)
    } else {
        string_at(s, i + 1, done.push(s[i]))
    }
}

/// The position of the first character from `i` on that is no digit.
pub open spec fn digits_end(s: Seq<char>, i: int) -> int
    decreases s.len() - i,
{
    if 0 <= i < s.len() && text::is_digit(s[i]) {
        digits_end(s, i + 1)
    } else {
        i
    }
}

/// The end of the number at `i`, and whether it has neither fraction nor
/// exponent. A number is an optional minus sign, a numeral without leading
/// zeros, an optional fraction and an optional exponent.
pub open spec fn number_end(s: Seq<char>, i: int) -> Option<(int, bool)> {
    let a = if s[i] == '-' {
        i + 1
    } else {
        i
    };
    let b = if a < s.len() && s[a] == '0' {
        a + 1
    } else {
        digits_end(s, a)
    };
    let c = if b < s.len() && s[b] == '.' {
        digits_end(s, b + 1)
    } else {
        b
    };
    let d = if c + 1 < s.len() && (s[c + 1] == '+' || s[c + 1] == '-') {
        c + 2
    } else {
        c + 1
    };
    if b == a || c == b + 1 {
        None
    } else if c < s.len() && (s[c] == 'e' || s[c] == 'E') {
        if digits_end(s, d) == d {
            None
        } else {
            Some((digits_end(s, d), false))
        }
    } else {
        Some((c, c == b))
    }
}

/// The number at `i` and the position after it.
pub open spec fn number_at(s: Seq<char>, i: int) -> Result<(Json, int), Fault> {
    match number_end(s, i) {
        None => fault(i, ErrorKind::InvalidNumber),
        Some((j, integral)) => {
            let negative = s[i] == '-';
            let from = if negative {
                i + 1
            } else {
                i
            };
            match text::signed_numeral(negative, s.subrange(from, j)) {
                Some(n) if integral => Ok((Json::Int(n), j)),
                _ => Ok((Json::Float(number::normal(s.subrange(i, j))), j)),
            }
        },
    }
}

/// Whether `word` stands at `i`.
pub open spec fn word_at(s: Seq<char>, i: int, word: Seq<char>) -> bool {
    0 <= i && i + word.len() <= s.len() && s.subrange(i, i + word.len()) == word
}

/// The value at `i`, which may nest `depth` levels deep, and the position
/// after it.
pub open spec fn value_at(s: Seq<char>, i: int, depth: nat) -> Result<(Json, int), Fault>
    decreases depth, 0nat, 0int,
{
    if i >= s.len() {
        fault(i, ErrorKind::UnexpectedEnd)
    } else if s[i] == '{' || s[i] == '[' {
        if depth == 0 {
            fault(i, ErrorKind::TooDeep)
        } else {
            let first = skip_space(s, i + 1);
            if s[i] == '{' {
                if first < s.len() && s[first] == '}' {
                    Ok((Json::Object(Seq::empty()), first + 1))
                } else {
                    members_at(s, first, (depth - 1) as nat, Seq::empty())
                }
            } else {
                if first < s.len() && s[first] == ']' {
                    Ok((Json::Array(Seq::empty()), first + 1))
                } else {
                    items_at(s, first, (depth - 1) as nat, Seq::empty())
                }
            }
        }
    } else if s[i] == '"' {
        match string_at(s, i + 1, Seq::empty()) {
            Ok((text, j)) => Ok((Json::Str(text), j)),
            Err(e) => Err(e),
        }
    } else if s[i] == '-' || text::is_digit(s[i]) {
        number_at(s, i)
    } else if word_at(s, i, "true"@) {
        Ok((Json::Bool(true), i + 4))
    } else if word_at(s, i, "false"@) {
        Ok((Json::Bool(false), i + 5))
    } else if word_at(s, i, "null"@) {
        Ok((Json::Null, i + 4))
    } else {
        fault(i, ErrorKind::Unexpected(s[i]))
    }
}

/// The rest of an array from the item at `i` on, after the items `done`.
pub open spec fn items_at(s: Seq<char>, i: int, depth: nat, done: Seq<Json>) -> Result<
    (Json, int),
    Fault,
>
    decreases depth, 1nat, s.len() - i,
{
    match value_at(s, i, depth) {
        Err(e) => Err(e),
        Ok((value, j)) => {
            let k = skip_space(s, j);
            if k >= s.len() {
                fault(k, ErrorKind::UnexpectedEnd)
            } else if s[k] == ']' {
                Ok((Json::Array(done.push(value)), k + 1))
            } else if s[k] == ',' && i <= k {
                proof {
                    lemma_skip_space(s, k + 1);
                }
                items_at(s, skip_space(s, k + 1), depth, done.push(value))
            } else {
                fault(k, ErrorKind::Unexpected(s[k]))
            }
        },
    }
}

/// The rest of an object from the member at `i` on, after the members `done`.
pub open spec fn members_at(
    s: Seq<char>,
    i: int,
    depth: nat,
    done: Seq<(Seq<char>, Json)>,
) -> Result<(Json, int), Fault>
    decreases depth, 1nat, s.len() - i,
{
    if i >= s.len() {
        fault(i, ErrorKind::UnexpectedEnd)
    } else if s[i] != '"' {
        fault(i, ErrorKind::ExpectedKey)
    } else {
        match string_at(s, i + 1, Seq::empty()) {
            Err(e) => Err(e),
            Ok((key, after_key)) => {
                let colon = skip_space(s, after_key);
                if colon >= s.len() {
                    fault(colon, ErrorKind::UnexpectedEnd)
                } else if s[colon] != ':' {
                    fault(colon, ErrorKind::ExpectedColon)
                } else {
                    match value_at(s, skip_space(s, colon + 1), depth) {
                        Err(e) => Err(e),
                        Ok((value, j)) => {
                            let k = skip_space(s, j);
                            if k >= s.len() {
                                fault(k, ErrorKind::UnexpectedEnd)
                            } else if s[k] == '}' {
                                Ok((Json::Object(done.push((key, value))), k + 1))
                            } else if s[k] == ',' && i <= k {
                                proof {
                                    lemma_skip_space(s, k + 1);
                                }
                                members_at(s, skip_space(s, k + 1), depth, done.push((key, value)))
                            } else {
                                fault(k, ErrorKind::Unexpected(s[k]))
                            }
                        },
                    }
                }
            },
        }
    }
}

/// The value that a whole text denotes: one value, with white space around it.
pub open spec fn document(s: Seq<char>) -> Result<Json, Fault> {
    match value_at(s, skip_space(s, 0), MAX_DEPTH as nat) {
        Err(e) => Err(e),
        Ok((value, j)) => {
            let k = skip_space(s, j);
            if k < s.len() {
                fault(k, ErrorKind::Unexpected(s[k]))
            } else {
                Ok(value)
            }
        },
    }
}

/// A string ends after it starts.
pub proof fn lemma_string_at(s: Seq<char>, i: int, done: Seq<char>)
    requires
        0 <= i <= s.len(),
    ensures
        string_at(s, i, done) matches Ok((_, j)) ==> i < j <= s.len(),
    decreases s.len() - i,
{
    if i < s.len() && s[i] != '"' {
        if s[i] == '\\' {
            if let Some((c, j)) = escape_at(s, i) {
                lemma_string_at(s, j, done.push(c));
            }
        } else {
            lemma_string_at(s, i + 1, done.push(s[i]));
        }
    }
}

/// A number ends after it starts.
pub proof fn lemma_number_at(s: Seq<char>, i: int)
    requires
        0 <= i < s.len(),
    ensures
        number_at(s, i) matches Ok((value, j)) ==> i < j <= s.len() && json::nodes(value) == 1
            && json::is_plain(value),
{
    let a = if s[i] == '-' {
        i + 1
    } else {
        i
    };
    lemma_digits_end(s, a);
    let b = if a < s.len() && s[a] == '0' {
        a + 1
    } else {
        digits_end(s, a)
    };
    if b < s.len() {
        lemma_digits_end(s, b + 1);
    }
    let c = if b < s.len() && s[b] == '.' {
        digits_end(s, b + 1)
    } else {
        b
    };
    if c < s.len() {
        lemma_digits_end(s, c + 1);
        if c + 1 < s.len() {
            lemma_digits_end(s, c + 2);
        }
    }
}

/// A value ends after it starts, is made of no more values than it has
/// characters, and holds no computed quotient.
pub proof fn lemma_value_at(s: Seq<char>, i: int, depth: nat)
    requires
        0 <= i <= s.len(),
    ensures
        value_at(s, i, depth) matches Ok((value, j)) ==> i < j <= s.len() && json::nodes(value) <= j - i
            && json::is_plain(value),
    decreases depth, 0nat, 0int,
{
    if i < s.len() {
        lemma_skip_space(s, i + 1);
        let first = skip_space(s, i + 1);
        if s[i] == '{' || s[i] == '[' {
            if depth > 0 {
                if s[i] == '{' {
                    lemma_members_at(s, first, (depth - 1) as nat, Seq::empty());
                } else {
                    lemma_items_at(s, first, (depth - 1) as nat, Seq::empty());
                }
            }
        } else if s[i] == '"' {
            lemma_string_at(s, i + 1, Seq::empty());
        } else if s[i] == '-' || text::is_digit(s[i]) {
            lemma_number_at(s, i);
        } else {
            reveal_strlit("true");
            reveal_strlit("false");
            reveal_strlit("null");
        }
    }
}

/// An array ends after its items start.
pub proof fn lemma_items_at(s: Seq<char>, i: int, depth: nat, done: Seq<Json>)
    requires
        0 <= i <= s.len(),
        forall|n: int| 0 <= n < done.len() ==> json::is_plain(#[trigger] done[n]),
    ensures
        items_at(s, i, depth, done) matches Ok((value, j)) ==> i < j <= s.len() && json::nodes(value)
            <= json::item_nodes(done) + j - i && json::is_plain(value),
    decreases depth, 1nat, s.len() - i,
{
    lemma_value_at(s, i, depth);
    if let Ok((value, j)) = value_at(s, i, depth) {
        lemma_skip_space(s, j);
        let k = skip_space(s, j);
        let all = done.push(value);
        assert(all.drop_last() =~= done);
        if k < s.len() && s[k] == ',' {
            lemma_skip_space(s, k + 1);
            lemma_items_at(s, skip_space(s, k + 1), depth, all);
        }
    }
}

proof fn lemma_members_at(s: Seq<char>, i: int, depth: nat, done: Seq<(Seq<char>, Json)>)
    requires
        0 <= i <= s.len(),
        forall|n: int| 0 <= n < done.len() ==> json::is_plain((#[trigger] done[n]).1),
    ensures
        members_at(s, i, depth, done) matches Ok((value, j)) ==> i < j <= s.len() && json::nodes(value)
            <= json::member_nodes(done) + j - i && json::is_plain(value),
    decreases depth, 1nat, s.len() - i,
{
    if i < s.len() {
        lemma_string_at(s, i + 1, Seq::empty());
        if let Ok((key, after_key)) = string_at(s, i + 1, Seq::empty()) {
            lemma_skip_space(s, after_key);
            let colon = skip_space(s, after_key);
            if colon < s.len() {
                lemma_skip_space(s, colon + 1);
                lemma_value_at(s, skip_space(s, colon + 1), depth);
                if let Ok((value, j)) = value_at(s, skip_space(s, colon + 1), depth) {
                    lemma_skip_space(s, j);
                    let k = skip_space(s, j);
                    let all = done.push((key, value));
                    assert(all.drop_last() =~= done);
                    if k < s.len() && s[k] == ',' {
                        lemma_skip_space(s, k + 1);
                        lemma_members_at(s, skip_space(s, k + 1), depth, all);
                    }
                }
            }
        }
    }
}

/// `char::from_u32` gives the character with a code, if there is one.
pub assume_specification[ char::from_u32 ](code: u32) -> (r: Option<char>)
    ensures
        match r {
            Some(c) => utf8::is_scalar(code) && c == code as char,
            None => !utf8::is_scalar(code),
        },
;

/// Where parsing stopped, by character position, and why.
struct Failure {
    at: usize,
    kind: ErrorKind,
}

impl View for Failure {
    type V = Fault;

    closed spec fn view(&self) -> Fault {
        Fault { at: self.at as int, kind: self.kind }
    }
}

fn fail<T>(at: usize, kind: ErrorKind) -> (r: Result<T, Failure>)
    ensures
        r is Err,
        r->Err_0@ == (Fault { at: at as int, kind }),
{
    Err(Failure { at, kind })
}

fn next_solid(s: &[char], from: usize) -> (r: usize)
    requires
        from <= s@.len(),
    ensures
        r == skip_space(s@, from as int),
        from <= r <= s@.len(),
{
    let mut i: usize = from;
    while i < s.len() && (s[i] == ' ' || s[i] == '\t' || s[i] == '\n' || s[i] == '\r')
        invariant
            from <= i <= s@.len(),
            skip_space(s@, from as int) == skip_space(s@, i as int),
        decreases s.len() - i,
    {
        i = i + 1;
    }
    i
}

fn hex_digit(c: char) -> (r: Option<u32>)
    ensures
        r == hex_value(c),
        r matches Some(d) ==> d < 16,
{
    if '0' <= c && c <= '9' {
        Some(c as u32 - '0' as u32)
    } else if 'a' <= c && c <= 'f' {
        Some(c as u32 - 'a' as u32 + 10)
    } else if 'A' <= c && c <= 'F' {
        Some(c as u32 - 'A' as u32 + 10)
    } else {
        None
    }
}

fn hex4(s: &[char], i: usize) -> (r: Option<u32>)
    requires
        i <= s@.len(),
    ensures
        r == hex4_at(s@, i as int),
        r matches Some(n) ==> n < 0x10000 && i + 4 <= s@.len(),
{
    if s.len() - i < 4 {
        return None;
    }
    match (hex_digit(s[i]), hex_digit(s[i + 1]), hex_digit(s[i + 2]), hex_digit(s[i + 3])) {
        (Some(a), Some(b), Some(c), Some(d)) => Some(a * 4096 + b * 256 + c * 16 + d),
        _ => None,
    }
}

fn parse_escape(s: &[char], i: usize) -> (r: Option<(char, usize)>)
    requires
        i < s@.len(),
    ensures
        match (r, escape_at(s@, i as int)) {
            (Some((c, j)), Some((d, k))) => c == d && j == k && i < j <= s@.len(),
            (None, None) => true,
            _ => false,
        },
{
    if s.len() - i < 2 {
        return None;
    }
    let c: char = s[i + 1];
    if c == 'u' {
        let unit: u32 = match hex4(s, i + 2) {
            Some(unit) => unit,
            None => {
                return None;
            },
        };
        if 0xd800 <= unit && unit < 0xdc00 {
            if s.len() - i < 12 || s[i + 6] != '\\' || s[i + 7] != 'u' {
                return None;
            }
            let low: u32 = match hex4(s, i + 8) {
                Some(low) => low,
                None => {
                    return None;
                },
            };
            if low < 0xdc00 || low >= 0xe000 {
                return None;
            }
            match char::from_u32(0x10000 + (unit - 0xd800) * 0x400 + (low - 0xdc00)) {
                Some(c) => Some((c, i + 12)),
                None => None,
            }
        } else {
            match char::from_u32(unit) {
                Some(c) => Some((c, i + 6)),
                None => None,
            }
        }
    } else if c == '"' || c == '\\' || c == '/' {
        Some((c, i + 2))
    } else if c == 'b' {
        Some(('\x08', i + 2))
    } else if c == 'f' {
        Some(('\x0c', i + 2))
    } else if c == 'n' {
        Some(('\n', i + 2))
    } else if c == 'r' {
        Some(('\r', i + 2))
    } else if c == 't' {
        Some(('\t', i + 2))
    } else {
        None
    }
}

spec fn string_result(r: Result<(String, usize), Failure>) -> Result<(Seq<char>, int), Fault> {
    match r {
        Ok((text, j)) => Ok((text@, j as int)),
        Err(e) => Err(e@),
    }
}

fn parse_string(s: &[char], from: usize) -> (r: Result<(String, usize), Failure>)
    requires
        from <= s@.len(),
    ensures
        string_result(r) == string_at(s@, from as int, Seq::empty()),
        r matches Ok((_, j)) ==> from < j <= s@.len(),
        r matches Err(e) ==> e.at <= s@.len(),
{
    let mut text = String::new();
    let mut i: usize = from;
    loop
        invariant
            from <= i <= s@.len(),
            string_at(s@, from as int, Seq::empty()) == string_at(s@, i as int, text@),
        decreases s.len() - i,
    {
        if i >= s.len() {
            return fail(i, ErrorKind::UnexpectedEnd);
        }
        let c: char = s[i];
        if c == '"' {
            return Ok((text, i + 1));
        } else if c == '\\' {
            match parse_escape(s, i) {
                Some((c, j)) => {
                    text.push(c);
                    i = j;
                },
                None => {
                    return fail(i, ErrorKind::InvalidEscape);
                },
            }
        } else if (c as u32) < 0x20 {
            return fail(i, ErrorKind::ControlCharacter);
        } else {
            text.push(c);
            i = i + 1;
        }
    }
}

/// Digits end after they start, inside the text.
pub proof fn lemma_digits_end(s: Seq<char>, i: int)
    requires
        0 <= i <= s.len(),
    ensures
        i <= digits_end(s, i) <= s.len(),
        text::all_digits(s.subrange(i, digits_end(s, i))),
    decreases s.len() - i,
{
    if i < s.len() && text::is_digit(s[i]) {
        lemma_digits_end(s, i + 1);
        let rest = s.subrange(i + 1, digits_end(s, i + 1));
        let all = s.subrange(i, digits_end(s, i));
        assert forall|k: int| 0 <= k < all.len() implies text::is_digit(#[trigger] all[k]) by {
            if k > 0 {
                assert(all[k] == rest[k - 1]);
            }
        }
    }
}

fn skip_digits(s: &[char], from: usize) -> (r: usize)
    requires
        from <= s@.len(),
    ensures
        r == digits_end(s@, from as int),
        from <= r <= s@.len(),
{
    let mut i: usize = from;
    while i < s.len() && '0' <= s[i] && s[i] <= '9'
        invariant
            from <= i <= s@.len(),
            digits_end(s@, from as int) == digits_end(s@, i as int),
        decreases s.len() - i,
    {
        i = i + 1;
    }
    i
}

spec fn value_result(r: Result<(Value, usize), Failure>) -> Result<(Json, int), Fault> {
    match r {
        Ok((value, j)) => Ok((value@, j as int)),
        Err(e) => Err(e@),
    }
}

fn parse_number(s: &[char], i: usize) -> (r: Result<(Value, usize), Failure>)
    requires
        i < s@.len(),
    ensures
        value_result(r) == number_at(s@, i as int),
        r matches Ok((_, j)) ==> i < j <= s@.len(),
        r matches Err(e) ==> e.at <= s@.len(),
{
    let negative: bool = s[i] == '-';
    let a: usize = if negative {
        i + 1
    } else {
        i
    };
    let b: usize = if a < s.len() && s[a] == '0' {
        a + 1
    } else {
        skip_digits(s, a)
    };
    if b == a {
        return fail(i, ErrorKind::InvalidNumber);
    }
    let mut c: usize = b;
    if b < s.len() && s[b] == '.' {
        c = skip_digits(s, b + 1);
        if c == b + 1 {
            return fail(i, ErrorKind::InvalidNumber);
        }
    }
    let mut end: usize = c;
    if c < s.len() && (s[c] == 'e' || s[c] == 'E') {
        let d: usize = if s.len() - c > 1 && (s[c + 1] == '+' || s[c + 1] == '-') {
            c + 2
        } else {
            c + 1
        };
        end = skip_digits(s, d);
        if end == d {
            return fail(i, ErrorKind::InvalidNumber);
        }
    } else if c == b {
        proof {
            lemma_digits_end(s@, a as int);
        }
        match read_integer(s, a, b, negative) {
            Some(n) => {
                return Ok((Value::Int(n), b));
            },
            None => {},
        }
    }
    let written: &[char] = vstd::slice::slice_subrange(s, i, end);
    Ok((Value::Float(normalize(written)), end))
}

fn has_word(s: &[char], i: usize, word: &str) -> (r: bool)
    requires
        i <= s@.len(),
    ensures
        r == word_at(s@, i as int, word@),
{
    let mut rest = word.chars();
    let mut j: usize = i;
    loop
        invariant
            i <= j <= s@.len(),
            word@.len() == j - i + vstd::std_specs::iter::IteratorSpec::remaining(&rest).len(),
            word@.skip(j - i) == vstd::std_specs::iter::IteratorSpec::remaining(&rest),
            s@.subrange(i as int, j as int) == word@.take(j - i),
            vstd::std_specs::iter::IteratorSpec::decrease(&rest) is Some,
        decreases vstd::std_specs::iter::IteratorSpec::decrease(&rest)->0,
    {
        let ghost before = vstd::std_specs::iter::IteratorSpec::remaining(&rest);
        match rest.next() {
            None => {
                assert(word@.take(j - i) =~= word@);
                return true;
            },
            Some(c) => {
                assert(c == word@[j - i]) by {
                    assert(before[0] == word@.skip(j - i)[0]);
                }
                if j >= s.len() {
                    return false;
                }
                if s[j] != c {
                    proof {
                        if word_at(s@, i as int, word@) {
                            assert(s@.subrange(i as int, i + word@.len())[j - i] == s@[j as int]);
                        }
                    }
                    return false;
                }
                j = j + 1;
                assert(word@.skip(j - i) =~= vstd::std_specs::iter::IteratorSpec::remaining(&rest));
                assert(s@.subrange(i as int, j as int) =~= word@.take(j - i));
            },
        }
    }
}

fn parse_value(s: &[char], i: usize, depth: usize) -> (r: Result<(Value, usize), Failure>)
    requires
        i <= s@.len(),
    ensures
        value_result(r) == value_at(s@, i as int, depth as nat),
        r matches Ok((_, j)) ==> i < j <= s@.len(),
        r matches Err(e) ==> e.at <= s@.len(),
    decreases depth, 0nat,
{
    if i >= s.len() {
        return fail(i, ErrorKind::UnexpectedEnd);
    }
    let c: char = s[i];
    if c == '{' || c == '[' {
        if depth == 0 {
            return fail(i, ErrorKind::TooDeep);
        }
        let first: usize = next_solid(s, i + 1);
        if c == '{' {
            if first < s.len() && s[first] == '}' {
                let value = Value::Object(Vec::new());
                proof {
                    json::lemma_object_view(value->Object_0);
                    assert(value@->Object_0 =~= Seq::empty());
                }
                Ok((value, first + 1))
            } else {
                parse_members(s, first, depth - 1)
            }
        } else {
            if first < s.len() && s[first] == ']' {
                let value = Value::Array(Vec::new());
                proof {
                    json::lemma_array_view(value->Array_0);
                    assert(value@->Array_0 =~= Seq::empty());
                }
                Ok((value, first + 1))
            } else {
                parse_items(s, first, depth - 1)
            }
        }
    } else if c == '"' {
        match parse_string(s, i + 1) {
            Ok((text, j)) => Ok((Value::Str(text), j)),
            Err(e) => Err(e),
        }
    } else if c == '-' || ('0' <= c && c <= '9') {
        parse_number(s, i)
    } else {
        proof {
            reveal_strlit("true");
            reveal_strlit("false");
            reveal_strlit("null");
        }
        if has_word(s, i, "true") {
            Ok((Value::Bool(true), i + 4))
        } else if has_word(s, i, "false") {
            Ok((Value::Bool(false), i + 5))
        } else if has_word(s, i, "null") {
            Ok((Value::Null, i + 4))
        } else {
            fail(i, ErrorKind::Unexpected(c))
        }
    }
}

fn parse_items(s: &[char], from: usize, depth: usize) -> (r: Result<(Value, usize), Failure>)
    requires
        from <= s@.len(),
    ensures
        value_result(r) == items_at(s@, from as int, depth as nat, Seq::empty()),
        r matches Ok((_, j)) ==> from < j <= s@.len(),
        r matches Err(e) ==> e.at <= s@.len(),
    decreases depth, 1nat,
{
    let mut items: Vec<Value> = Vec::new();
    let mut i: usize = from;
    assert(json::views(items@) =~= Seq::empty());
    loop
        invariant
            from <= i <= s@.len(),
            items_at(s@, from as int, depth as nat, Seq::empty()) == items_at(
                s@,
                i as int,
                depth as nat,
                json::views(items@),
            ),
        decreases s.len() - i,
    {
        let (value, j) = match parse_value(s, i, depth) {
            Ok(found) => found,
            Err(e) => {
                return Err(e);
            },
        };
        let k: usize = next_solid(s, j);
        let ghost done = json::views(items@).push(value@);
        items.push(value);
        assert(json::views(items@) =~= done);
        if k >= s.len() {
            return fail(k, ErrorKind::UnexpectedEnd);
        } else if s[k] == ']' {
            proof {
                json::lemma_array_view(items);
            }
            return Ok((Value::Array(items), k + 1));
        } else if s[k] == ',' {
            i = next_solid(s, k + 1);
        } else {
            return fail(k, ErrorKind::Unexpected(s[k]));
        }
    }
}

fn parse_members(s: &[char], from: usize, depth: usize) -> (r: Result<(Value, usize), Failure>)
    requires
        from <= s@.len(),
    ensures
        value_result(r) == members_at(s@, from as int, depth as nat, Seq::empty()),
        r matches Ok((_, j)) ==> from < j <= s@.len(),
        r matches Err(e) ==> e.at <= s@.len(),
    decreases depth, 1nat,
{
    let mut members: Vec<(String, Value)> = Vec::new();
    let mut i: usize = from;
    assert(json::member_views(members@) =~= Seq::empty());
    loop
        invariant
            from <= i <= s@.len(),
            members_at(s@, from as int, depth as nat, Seq::empty()) == members_at(
                s@,
                i as int,
                depth as nat,
                json::member_views(members@),
            ),
        decreases s.len() - i,
    {
        if i >= s.len() {
            return fail(i, ErrorKind::UnexpectedEnd);
        }
        if s[i] != '"' {
            return fail(i, ErrorKind::ExpectedKey);
        }
        let (key, after_key) = match parse_string(s, i + 1) {
            Ok(found) => found,
            Err(e) => {
                return Err(e);
            },
        };
        let colon: usize = next_solid(s, after_key);
        if colon >= s.len() {
            return fail(colon, ErrorKind::UnexpectedEnd);
        }
        if s[colon] != ':' {
            return fail(colon, ErrorKind::ExpectedColon);
        }
        let (value, j) = match parse_value(s, next_solid(s, colon + 1), depth) {
            Ok(found) => found,
            Err(e) => {
                return Err(e);
            },
        };
        let k: usize = next_solid(s, j);
        let ghost done = json::member_views(members@).push((key@, value@));
        members.push((key, value));
        assert(json::member_views(members@) =~= done);
        if k >= s.len() {
            return fail(k, ErrorKind::UnexpectedEnd);
        } else if s[k] == '}' {
            proof {
                json::lemma_object_view(members);
            }
            return Ok((Value::Object(members), k + 1));
        } else if s[k] == ',' {
            i = next_solid(s, k + 1);
        } else {
            return fail(k, ErrorKind::Unexpected(s[k]));
        }
    }
}

/// The byte offset of the character at position `at`.
pub open spec fn byte_offset(s: Seq<char>, at: int) -> nat {
    utf8::encode_utf8(s.take(at)).len()
}

proof fn lemma_encode_push(s: Seq<char>, c: char)
    ensures
        utf8::encode_utf8(s.push(c)) == utf8::encode_utf8(s) + utf8::encode_scalar(c as u32),
    decreases s.len(),
{
    if s.len() == 0 {
        assert(s.push(c).drop_first() =~= s);
        assert(utf8::encode_utf8(s.push(c)) =~= utf8::encode_utf8(s) + utf8::encode_scalar(c as u32));
    } else {
        lemma_encode_push(s.drop_first(), c);
        assert(s.push(c).drop_first() =~= s.drop_first().push(c));
        assert(utf8::encode_utf8(s.push(c)) =~= utf8::encode_utf8(s) + utf8::encode_scalar(c as u32));
    }
}

proof fn lemma_byte_offset(s: Seq<char>, at: int)
    requires
        0 <= at <= s.len(),
    ensures
        at <= byte_offset(s, at) <= utf8::encode_utf8(s).len(),
        at < s.len() ==> byte_offset(s, at + 1) == byte_offset(s, at) + utf8::encode_scalar(
            s[at] as u32,
        ).len(),
    decreases s.len() - at, at,
{
    if at < s.len() {
        lemma_encode_push(s.take(at), s[at]);
        assert(s.take(at).push(s[at]) =~= s.take(at + 1));
        lemma_byte_offset_upper(s, at);
    } else {
        assert(s.take(at) =~= s);
    }
    lemma_byte_offset_lower(s.take(at));
}

proof fn lemma_byte_offset_upper(s: Seq<char>, at: int)
    requires
        0 <= at <= s.len(),
    ensures
        byte_offset(s, at) <= utf8::encode_utf8(s).len(),
    decreases s.len() - at,
{
    if at < s.len() {
        lemma_encode_push(s.take(at), s[at]);
        assert(s.take(at).push(s[at]) =~= s.take(at + 1));
        lemma_byte_offset_upper(s, at + 1);
    } else {
        assert(s.take(at) =~= s);
    }
}

/// A text has no more characters than bytes.
pub proof fn lemma_byte_offset_lower(s: Seq<char>)
    ensures
        s.len() <= utf8::encode_utf8(s).len(),
    decreases s.len(),
{
    if s.len() > 0 {
        lemma_byte_offset_lower(s.drop_first());
    }
}

fn width(c: char) -> (r: usize)
    ensures
        r == utf8::encode_scalar(c as u32).len(),
        r <= 4,
{
    let code: u32 = c as u32;
    if code < 0x80 {
        1
    } else if code < 0x800 {
        2
    } else if code < 0x10000 {
        3
    } else {
        4
    }
}

fn offset_of(s: &[char], at: usize) -> (r: usize)
    requires
        at <= s@.len(),
        utf8::encode_utf8(s@).len() <= usize::MAX,
    ensures
        r == byte_offset(s@, at as int),
        r <= utf8::encode_utf8(s@).len(),
{
    let mut r: usize = 0;
    let mut i: usize = 0;
    assert(s@.take(0) =~= Seq::<char>::empty());
    while i < at
        invariant
            i <= at <= s@.len(),
            utf8::encode_utf8(s@).len() <= usize::MAX,
            r == byte_offset(s@, i as int),
        decreases at - i,
    {
        proof {
            lemma_byte_offset(s@, i as int);
            lemma_byte_offset(s@, i + 1);
        }
        r = r + width(s[i]);
        i = i + 1;
    }
    proof {
        lemma_byte_offset(s@, at as int);
    }
    r
}

/// Why a text is no JSON document, and at which byte.
#[derive(Debug, PartialEq, Eq)]
pub struct ParseError {
    /// 0-based byte offset of the problem in the text.
    pub offset: usize,
    pub kind: ErrorKind,
}

/// The reason that is reported for a kind of error.
pub open spec fn reason_of(kind: ErrorKind) -> Seq<char> {
    match kind {
        ErrorKind::UnexpectedEnd => "unexpected end of input"@,
        ErrorKind::Unexpected(c) => "unexpected '"@.push(c).push('\''),
        ErrorKind::ExpectedKey => "expected a quoted object key"@,
        ErrorKind::ExpectedColon => "expected ':' after an object key"@,
        ErrorKind::ControlCharacter => "unescaped control character in a string"@,
        ErrorKind::InvalidEscape => "invalid escape sequence"@,
        ErrorKind::InvalidNumber => "invalid number"@,
        ErrorKind::TooDeep => "nested too deeply"@,
    }
}

impl ErrorKind {
    /// The human readable reason, e.g. `unexpected ','`.
    pub fn reason(&self) -> (r: String)
        ensures
            r@ == reason_of(*self),
    {
        match self {
            ErrorKind::UnexpectedEnd => "unexpected end of input".to_string(),
            ErrorKind::Unexpected(c) => {
                let mut r = "unexpected '".to_string();
                r.push(*c);
                r.push('\'');
                r
            },
            ErrorKind::ExpectedKey => "expected a quoted object key".to_string(),
            ErrorKind::ExpectedColon => "expected ':' after an object key".to_string(),
            ErrorKind::ControlCharacter => "unescaped control character in a string".to_string(),
            ErrorKind::InvalidEscape => "invalid escape sequence".to_string(),
            ErrorKind::InvalidNumber => "invalid number".to_string(),
            ErrorKind::TooDeep => "nested too deeply".to_string(),
        }
    }
}

/// Parses a JSON document.
pub fn parse(text: &str) -> (r: Result<Value, ParseError>)
    ensures
        match (r, document(text@)) {
            (Ok(value), Ok(json)) => value@ == json,
            (Err(e), Err(fault)) => e.kind == fault.kind && e.offset == byte_offset(
                text@,
                fault.at,
            ),
            _ => false,
        },
        r matches Ok(value) ==> json::is_plain(value@) && json::nodes(value@) <= text@.len(),
        r matches Err(e) ==> e.offset <= utf8::encode_utf8(text@).len(),
{
    let bytes = text.as_bytes();
    assert(bytes@.len() == bytes.len());
    let chars = characters(text);
    let s: &[char] = chars.as_slice();
    let first: usize = next_solid(s, 0);
    proof {
        lemma_value_at(s@, first as int, MAX_DEPTH as nat);
    }
    let (value, j) = match parse_value(s, first, MAX_DEPTH) {
        Ok(found) => found,
        Err(e) => {
            return Err(ParseError { offset: offset_of(s, e.at), kind: e.kind });
        },
    };
    let k: usize = next_solid(s, j);
    if k < s.len() {
        return Err(ParseError { offset: offset_of(s, k), kind: ErrorKind::Unexpected(s[k]) });
    }
    Ok(value)
}

} // verus!
