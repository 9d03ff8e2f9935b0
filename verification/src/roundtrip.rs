//! Reading back what was rendered.

use vstd::prelude::*;

use crate::field;
use crate::grammar;
use crate::grammar::Fault;
use crate::grammar::MAX_DEPTH;
use crate::json;
use crate::json::Json;
use crate::lines;
use crate::lines::Content;
use crate::number;
use crate::path;
use crate::path::Step;
use crate::render;
use crate::summary;
use crate::text;

verus! {

/// Whether a text is a number, all of it.
pub open spec fn is_number_text(s: Seq<char>, value: Json) -> bool {
    &&& s.len() > 0
    &&& s[0] == '-' || text::is_digit(s[0])
    &&& grammar::number_at(s, 0) == Ok::<(Json, int), Fault>((value, s.len() as int))
}

/// Whether a value is one that a document denotes whose arrays and objects may
/// nest `depth` levels deep.
pub open spec fn is_readable(json: Json, depth: nat) -> bool
    decreases json,
{
    match json {
        Json::Float(written) => is_number_text(written, json),
        Json::Ratio(_, _) => false,
        Json::Array(items) => depth > 0 && forall|i: int|
            0 <= i < items.len() ==> is_readable(#[trigger] items[i], (depth - 1) as nat),
        Json::Object(members) => depth > 0 && forall|i: int|
            0 <= i < members.len() ==> is_readable((#[trigger] members[i]).1, (depth - 1) as nat),
        _ => true,
    }
}

/// Whether a value ends at `j`: the text does, or something follows that can
/// follow a value.
spec fn stops(s: Seq<char>, j: int) -> bool {
    j == s.len() || (0 <= j < s.len() && (s[j] == ',' || s[j] == ']' || s[j] == '}'))
}

/// Whether `part` stands at `i`.
spec fn stands(s: Seq<char>, i: int, part: Seq<char>) -> bool {
    0 <= i && i + part.len() <= s.len() && s.subrange(i, i + part.len()) == part
}

proof fn lemma_stands_at(s: Seq<char>, i: int, part: Seq<char>, k: int)
    requires
        stands(s, i, part),
        0 <= k < part.len(),
    ensures
        s[i + k] == part[k],
{
    assert(s.subrange(i, i + part.len())[k] == s[i + k]);
}

proof fn lemma_stands_concat(s: Seq<char>, i: int, a: Seq<char>, b: Seq<char>)
    requires
        stands(s, i, a + b),
    ensures
        stands(s, i, a),
        stands(s, i + a.len(), b),
{
    let whole = s.subrange(i, i + (a + b).len());
    assert(s.subrange(i, i + a.len()) =~= whole.take(a.len() as int));
    assert((a + b).take(a.len() as int) =~= a);
    assert(s.subrange(i + a.len(), i + a.len() + b.len()) =~= whole.skip(a.len() as int));
    assert((a + b).skip(a.len() as int) =~= b);
}

proof fn lemma_digits_inside(s: Seq<char>, i: int, w: Seq<char>, x: int)
    requires
        stands(s, i, w),
        stops(s, i + w.len()),
        0 <= x <= w.len(),
    ensures
        grammar::digits_end(s, i + x) == i + grammar::digits_end(w, x),
        x <= grammar::digits_end(w, x) <= w.len(),
    decreases w.len() - x,
{
    if x < w.len() {
        lemma_stands_at(s, i, w, x);
        if text::is_digit(w[x]) {
            lemma_digits_inside(s, i, w, x + 1);
        }
    }
}

/// A number that stands in a text is read there.
proof fn lemma_number_reads(s: Seq<char>, i: int, w: Seq<char>, value: Json)
    requires
        is_number_text(w, value),
        stands(s, i, w),
        stops(s, i + w.len()),
    ensures
        grammar::number_at(s, i) == Ok::<(Json, int), Fault>((value, i + w.len())),
        s[i] == w[0],
{
    let n = w.len() as int;
    lemma_stands_at(s, i, w, 0);
    let a: int = if w[0] == '-' {
        1
    } else {
        0
    };
    lemma_digits_inside(s, i, w, a);
    if a < n {
        lemma_stands_at(s, i, w, a);
    }
    let b = if a < n && w[a] == '0' {
        a + 1
    } else {
        grammar::digits_end(w, a)
    };
    if b < n {
        lemma_stands_at(s, i, w, b);
        lemma_digits_inside(s, i, w, b + 1);
    }
    let c = if b < n && w[b] == '.' {
        grammar::digits_end(w, b + 1)
    } else {
        b
    };
    if c < n {
        lemma_stands_at(s, i, w, c);
        if c + 1 < n {
            lemma_stands_at(s, i, w, c + 1);
            lemma_digits_inside(s, i, w, c + 2);
        }
        lemma_digits_inside(s, i, w, c + 1);
    }
    assert(grammar::number_end(s, i) == match grammar::number_end(w, 0) {
        Some((j, integral)) => Some((i + j, integral)),
        None => None,
    });
    assert(grammar::number_end(w, 0) is Some);
    let (end, integral) = grammar::number_end(w, 0)->0;
    assert(end == n);
    assert(s.subrange(i + a, i + n) =~= w.subrange(a, n)) by {
        assert(s.subrange(i, i + n).subrange(a, n) =~= s.subrange(i + a, i + n));
    }
    assert(w.subrange(0, n) =~= w);
}

/// A number that was read is a number by itself.
proof fn lemma_number_alone(s: Seq<char>, i: int)
    requires
        0 <= i < s.len(),
        s[i] == '-' || text::is_digit(s[i]),
        grammar::number_at(s, i) is Ok,
    ensures
        ({
            let (value, j) = grammar::number_at(s, i)->Ok_0;
            is_number_text(s.subrange(i, j), value)
        }),
{
    let (value, j) = grammar::number_at(s, i)->Ok_0;
    grammar::lemma_number_at(s, i);
    let w = s.subrange(i, j);
    let n = w.len() as int;
    let a: int = if w[0] == '-' {
        1
    } else {
        0
    };
    grammar::lemma_digits_end(s, i + a);
    lemma_digits_alone(s, i, j, a);
    let b = if i + a < s.len() && s[i + a] == '0' {
        a + 1
    } else {
        grammar::digits_end(s, i + a) - i
    };
    if i + b < s.len() {
        grammar::lemma_digits_end(s, i + b + 1);
        lemma_digits_alone(s, i, j, b + 1);
    }
    let c = if i + b < s.len() && s[i + b] == '.' {
        grammar::digits_end(s, i + b + 1) - i
    } else {
        b
    };
    if i + c < s.len() {
        grammar::lemma_digits_end(s, i + c + 1);
        lemma_digits_alone(s, i, j, c + 1);
        if i + c + 1 < s.len() {
            grammar::lemma_digits_end(s, i + c + 2);
            lemma_digits_alone(s, i, j, c + 2);
        }
    }
    assert(grammar::number_end(w, 0) == match grammar::number_end(s, i) {
        Some((k, integral)) => Some((k - i, integral)),
        None => None,
    });
    assert(w.subrange(a, n) =~= s.subrange(i + a, j));
    assert(w.subrange(0, n) =~= w);
}

proof fn lemma_digits_alone(s: Seq<char>, i: int, j: int, x: int)
    requires
        0 <= i <= j <= s.len(),
        0 <= x,
    ensures
        i + x <= j && grammar::digits_end(s, i + x) <= j ==> grammar::digits_end(
            s.subrange(i, j),
            x,
        ) == grammar::digits_end(s, i + x) - i,
    decreases j - i - x,
{
    let w = s.subrange(i, j);
    if i + x < j {
        assert(w[x] == s[i + x]);
        if text::is_digit(w[x]) {
            lemma_digits_alone(s, i, j, x + 1);
        }
    } else if i + x == j {
        grammar::lemma_digits_end(s, i + x);
    }
}

/// The parts of a number are digits.
proof fn lemma_number_digits(w: Seq<char>, value: Json)
    requires
        is_number_text(w, value),
    ensures
        text::all_digits(number::integer_digits(w)),
        text::all_digits(number::fraction_digits(w)),
{
    let n = w.len() as int;
    let a: int = if w[0] == '-' {
        1
    } else {
        0
    };
    grammar::lemma_digits_end(w, a);
    let b = if a < n && w[a] == '0' {
        a + 1
    } else {
        grammar::digits_end(w, a)
    };
    if b < n {
        grammar::lemma_digits_end(w, b + 1);
    }
    let c = if b < n && w[b] == '.' {
        grammar::digits_end(w, b + 1)
    } else {
        b
    };
    assert(grammar::number_end(w, 0) is Some);
    let (end, integral) = grammar::number_end(w, 0)->0;
    assert(end == n);
    let whole = w.subrange(a, b);
    assert forall|k: int| 0 <= k < whole.len() implies text::is_digit(#[trigger] whole[k]) by {
        if !(w[a] == '0') {
            assert(whole[k] == w.subrange(a, grammar::digits_end(w, a))[k]);
        }
    }
    let fraction = if c > b {
        w.subrange(b + 1, c)
    } else {
        Seq::empty()
    };
    assert forall|k: int| 0 <= k < c implies (#[trigger] w[k]) != 'e' && w[k] != 'E' by {
        if a <= k < b {
            assert(w[k] == whole[k - a]);
            assert(text::is_digit(whole[k - a]));
        } else if k > b {
            assert(w[k] == fraction[k - b - 1]);
            assert(text::is_digit(fraction[k - b - 1]));
        }
    }
    number::lemma_first_of_at(w, 'e', 'E', 0, c);
    let m = w.take(c);
    assert forall|k: int| 0 <= k < b implies (#[trigger] m[k]) != '.' by {
        assert(m[k] == w[k]);
        if a <= k {
            assert(w[k] == whole[k - a]);
            assert(text::is_digit(whole[k - a]));
        }
    }
    if b < c {
        assert(m[b] == w[b]);
    }
    number::lemma_first_of_at(m, '.', '.', 0, b);
    assert(number::integer_digits(w) =~= whole);
    assert(number::fraction_digits(w) =~= fraction);
}

proof fn lemma_digits_until(w: Seq<char>, x: int, y: int)
    requires
        0 <= x <= y <= w.len(),
        forall|k: int| x <= k < y ==> text::is_digit(#[trigger] w[k]),
        y < w.len() ==> !text::is_digit(w[y]),
    ensures
        grammar::digits_end(w, x) == y,
    decreases y - x,
{
    if x < y {
        assert(text::is_digit(w[x]));
        lemma_digits_until(w, x + 1, y);
    }
}

/// What is written for a sound layout is a number, and no integer.
proof fn lemma_spelled_is_number(
    negative: bool,
    parts: (Seq<char>, Seq<char>, Option<int>),
)
    requires
        number::is_sound(parts),
    ensures
        ({
            let w = number::spelled(negative, parts);
            &&& w.len() > 0
            &&& w[0] == '-' || text::is_digit(w[0])
            &&& grammar::number_end(w, 0) == Some((w.len() as int, false))
        }),
{
    let w = number::spelled(negative, parts);
    let (whole, fraction, x) = parts;
    let n = w.len() as int;
    let a: int = if negative {
        1
    } else {
        0
    };
    let b = (a + whole.len()) as int;
    let c = (b + 1 + fraction.len()) as int;
    assert(text::is_digit(whole[0]));
    assert(w[a] == whole[0]);
    assert forall|k: int| a <= k < b implies text::is_digit(#[trigger] w[k]) by {
        assert(w[k] == whole[k - a]);
    }
    assert forall|k: int| b + 1 <= k < c implies text::is_digit(#[trigger] w[k]) by {
        assert(w[k] == fraction[k - b - 1]);
    }
    assert(w[b] == '.');
    lemma_digits_until(w, a, b);
    if let Some(p) = x {
        let e = text::signed_decimal(p);
        let size: nat = if p < 0 {
            (-p) as nat
        } else {
            p as nat
        };
        let digits = text::decimal(size);
        text::lemma_decimal(size);
        assert(text::is_digit(digits[0]));
        assert(w[c] == 'e');
        lemma_digits_until(w, b + 1, c);
        let d = if p < 0 {
            c + 2
        } else {
            c + 1
        };
        assert(w[c + 1] == e[0]);
        assert forall|k: int| d <= k < n implies text::is_digit(#[trigger] w[k]) by {
            assert(w[k] == digits[k - d]);
        }
        lemma_digits_until(w, d, n);
    } else {
        lemma_digits_until(w, b + 1, c);
    }
}

/// The normal form of a number that is no integer is read as that number.
proof fn lemma_normal_is_number(w: Seq<char>, value: Json)
    requires
        is_number_text(w, value),
        value is Float,
    ensures
        value == Json::Float(number::normal(w)),
        is_number_text(number::normal(w), value),
{
    let n = w.len() as int;
    assert(w.subrange(0, n) =~= w);
    lemma_number_digits(w, value);
    number::lemma_normal(w);
    if !number::is_vast(w) {
        let t = number::normal(w);
        lemma_spelled_is_number(number::is_negative(w), number::normal_layout(w));
        assert(t.subrange(0, t.len() as int) =~= t);
    }
}

/// The decimal numeral of an integer is read as that integer.
proof fn lemma_integer_text(n: i64)
    ensures
        is_number_text(text::signed_decimal(n as int), Json::Int(n)),
{
    let w = text::signed_decimal(n as int);
    let size: nat = if n < 0 {
        (-(n as int)) as nat
    } else {
        n as nat
    };
    let digits = text::decimal(size);
    text::lemma_decimal(size);
    lemma_no_leading_zero(size);
    assert(text::is_digit(digits[0]));
    let a: int = if n < 0 {
        1
    } else {
        0
    };
    assert(w.subrange(a, w.len() as int) =~= digits);
    assert forall|k: int| a <= k < w.len() implies text::is_digit(#[trigger] w[k]) by {
        assert(w[k] == digits[k - a]);
    }
    lemma_all_digits_end(w, a);
    assert(w[a] == digits[0]);
    assert(n < 0 <==> w[0] == '-');
    assert(grammar::number_end(w, 0) == Some((w.len() as int, true)));
}

proof fn lemma_all_digits_end(w: Seq<char>, x: int)
    requires
        0 <= x <= w.len(),
        forall|k: int| x <= k < w.len() ==> text::is_digit(#[trigger] w[k]),
    ensures
        grammar::digits_end(w, x) == w.len(),
    decreases w.len() - x,
{
    if x < w.len() {
        assert(text::is_digit(w[x]));
        lemma_all_digits_end(w, x + 1);
    }
}

proof fn lemma_no_leading_zero(n: nat)
    ensures
        n > 0 ==> text::decimal(n)[0] != '0',
        n == 0 ==> text::decimal(n).len() == 1,
    decreases n,
{
    if n >= 10 {
        lemma_no_leading_zero(n / 10);
        text::lemma_decimal(n / 10);
        assert(text::decimal(n)[0] == text::decimal(n / 10)[0]);
    }
}

proof fn lemma_hex(n: u32)
    requires
        n < 16,
    ensures
        grammar::hex_value(render::hex_digit(n)) == Some(n),
{
}

/// What is written for one character of a string is read as that character.
proof fn lemma_character_reads(s: Seq<char>, p: int, c: char, done: Seq<char>)
    requires
        stands(s, p, render::escaped(c)),
        p + render::escaped(c).len() < s.len(),
    ensures
        grammar::string_at(s, p, done) == grammar::string_at(
            s,
            p + render::escaped(c).len(),
            done.push(c),
        ),
{
    let e = render::escaped(c);
    lemma_stands_at(s, p, e, 0);
    if e.len() > 1 {
        lemma_stands_at(s, p, e, 1);
    }
    if e.len() == 6 {
        lemma_stands_at(s, p, e, 2);
        lemma_stands_at(s, p, e, 3);
        lemma_stands_at(s, p, e, 4);
        lemma_stands_at(s, p, e, 5);
        let code = c as u32;
        lemma_hex((code / 16) as u32);
        lemma_hex((code % 16) as u32);
        assert(grammar::hex4_at(s, p + 2) == Some(code));
        assert(grammar::escape_at(s, p) == Some((c, p + 6)));
    }
}

proof fn lemma_escaped_prefix(t: Seq<char>, k: int)
    requires
        0 <= k < t.len(),
    ensures
        ({
            let before = render::escaped_text(t.take(k));
            let part = before + render::escaped(t[k]);
            &&& part.len() <= render::escaped_text(t).len()
            &&& render::escaped_text(t).take(part.len() as int) == part
            &&& render::escaped_text(t.take(k + 1)) == part
        }),
    decreases t.len(),
{
    assert(t.take(k + 1).drop_last() =~= t.take(k));
    let part = render::escaped_text(t.take(k)) + render::escaped(t[k]);
    if k == t.len() - 1 {
        assert(t.take(k + 1) =~= t);
        assert(render::escaped_text(t).take(part.len() as int) =~= part);
    } else {
        let init = t.drop_last();
        lemma_escaped_prefix(init, k);
        assert(init.take(k) =~= t.take(k));
        assert(render::escaped_text(t).take(part.len() as int) =~= render::escaped_text(
            init,
        ).take(part.len() as int));
    }
}

/// What is written for the characters of a string is read as that string.
proof fn lemma_characters_read(s: Seq<char>, i: int, t: Seq<char>, k: int)
    requires
        stands(s, i, render::escaped_text(t) + seq!['"']),
        0 <= k <= t.len(),
    ensures
        grammar::string_at(s, i + render::escaped_text(t.take(k)).len(), t.take(k)) == Ok::<
            (Seq<char>, int),
            Fault,
        >((t, i + render::escaped_text(t).len() + 1)),
    decreases t.len() - k,
{
    let all = render::escaped_text(t);
    let here = render::escaped_text(t.take(k));
    let p = i + here.len();
    lemma_stands_concat(s, i, all, seq!['"']);
    lemma_stands_at(s, i + all.len(), seq!['"'], 0);
    if k == t.len() {
        assert(t.take(k) =~= t);
    } else {
        let e = render::escaped(t[k]);
        lemma_escaped_prefix(t, k);
        let part = here + e;
        assert(all =~= part + all.skip(part.len() as int));
        lemma_stands_concat(s, i, part, all.skip(part.len() as int));
        lemma_stands_concat(s, i, here, e);
        lemma_character_reads(s, p, t[k], t.take(k));
        assert(t.take(k).push(t[k]) =~= t.take(k + 1));
        lemma_characters_read(s, i, t, k + 1);
    }
}

/// A quoted text is read as that text.
proof fn lemma_quoted_reads(s: Seq<char>, i: int, t: Seq<char>)
    requires
        stands(s, i, render::quoted(t)),
    ensures
        s[i] == '"',
        grammar::string_at(s, i + 1, Seq::empty()) == Ok::<(Seq<char>, int), Fault>(
            (t, i + render::quoted(t).len()),
        ),
{
    let body = render::escaped_text(t) + seq!['"'];
    assert(render::quoted(t) =~= seq!['"'] + body);
    lemma_stands_concat(s, i, seq!['"'], body);
    lemma_stands_at(s, i, seq!['"'], 0);
    lemma_characters_read(s, i + 1, t, 0);
    assert(t.take(0) =~= Seq::empty());
    assert(render::escaped_text(t.take(0)) =~= Seq::empty());
}

/// A rendering starts with something that starts a value.
proof fn lemma_first_character(json: Json, depth: nat)
    requires
        is_readable(json, depth),
    ensures
        ({
            let r = render::rendered(json);
            &&& r.len() > 0
            &&& !grammar::is_space(r[0])
            &&& r[0] != ']'
            &&& r[0] != '}'
        }),
{
    reveal_strlit("null");
    reveal_strlit("true");
    reveal_strlit("false");
    if let Json::Int(n) = json {
        lemma_integer_text(n);
    }
}

/// A rendered value is read as that value.
proof fn lemma_value_reads(s: Seq<char>, i: int, json: Json, depth: nat)
    requires
        is_readable(json, depth),
        stands(s, i, render::rendered(json)),
        stops(s, i + render::rendered(json).len()),
    ensures
        grammar::value_at(s, i, depth) == Ok::<(Json, int), Fault>(
            (json, i + render::rendered(json).len()),
        ),
    decreases json, 0nat,
{
    let r = render::rendered(json);
    reveal_strlit("null");
    reveal_strlit("true");
    reveal_strlit("false");
    lemma_first_character(json, depth);
    lemma_stands_at(s, i, r, 0);
    match json {
        Json::Null => {
            lemma_stands_at(s, i, r, 0);
            if grammar::word_at(s, i, "true"@) {
                assert(s.subrange(i, i + 4)[0] == "true"@[0]);
            }
            if grammar::word_at(s, i, "false"@) {
                assert(s.subrange(i, i + 5)[0] == "false"@[0]);
            }
        },
        Json::Bool(b) => {
            if !b && grammar::word_at(s, i, "true"@) {
                assert(s.subrange(i, i + 4)[0] == "true"@[0]);
            }
        },
        Json::Int(n) => {
            lemma_integer_text(n);
            lemma_number_reads(s, i, r, json);
        },
        Json::Float(written) => {
            lemma_number_reads(s, i, written, json);
        },
        Json::Ratio(_, _) => {},
        Json::Str(t) => {
            lemma_quoted_reads(s, i, t);
        },
        Json::Array(items) => {
            let body = render::rendered_items(items);
            assert(r =~= seq!['['] + (body + seq![']']));
            lemma_stands_concat(s, i, seq!['['], body + seq![']']);
            lemma_stands_concat(s, i + 1, body, seq![']']);
            lemma_stands_at(s, i + 1 + body.len(), seq![']'], 0);
            assert(forall|n: int|
                0 <= n < items.len() ==> is_readable(#[trigger] items[n], (depth - 1) as nat)) by {
                let whole = Json::Array(items);
                assert(is_readable(whole, depth) && whole->Array_0 == items);
            }
            if items.len() == 0 {
                assert(body =~= Seq::empty());
                assert(items =~= Seq::empty());
            } else {
                lemma_item_starts(s, i + 1, items, 0, (depth - 1) as nat);
                lemma_items_read(s, i + 1, items, 0, (depth - 1) as nat);
                assert(items.take(0) =~= Seq::empty());
                assert(item_start(items, 0) == 0);
            }
        },
        Json::Object(members) => {
            let body = render::rendered_members(members);
            assert(r =~= seq!['{'] + (body + seq!['}']));
            lemma_stands_concat(s, i, seq!['{'], body + seq!['}']);
            lemma_stands_concat(s, i + 1, body, seq!['}']);
            lemma_stands_at(s, i + 1 + body.len(), seq!['}'], 0);
            assert(forall|n: int|
                0 <= n < members.len() ==> is_readable(
                    (#[trigger] members[n]).1,
                    (depth - 1) as nat,
                )) by {
                let whole = Json::Object(members);
                assert(is_readable(whole, depth) && whole->Object_0 == members);
            }
            if members.len() == 0 {
                assert(body =~= Seq::empty());
                assert(members =~= Seq::empty());
            } else {
                lemma_member_starts(s, i + 1, members, 0);
                lemma_members_read(s, i + 1, members, 0, (depth - 1) as nat);
                assert(members.take(0) =~= Seq::empty());
                assert(member_start(members, 0) == 0);
            }
        },
    }
}

/// Where the `k`th item starts in the rendering of the items.
spec fn item_start(items: Seq<Json>, k: int) -> nat {
    if k == 0 {
        0
    } else {
        render::rendered_items(items.take(k)).len() + 1
    }
}

/// The rendering of the first items starts that of all items; a comma follows
/// if there are more.
proof fn lemma_items_prefix(items: Seq<Json>, k: int)
    requires
        0 < k <= items.len(),
    ensures
        ({
            let part = render::rendered_items(items.take(k));
            let all = render::rendered_items(items);
            &&& part.len() <= all.len()
            &&& all.take(part.len() as int) == part
            &&& k < items.len() ==> part.len() < all.len() && all[part.len() as int] == ','
            &&& k == items.len() ==> part == all
        }),
    decreases items.len(),
{
    let part = render::rendered_items(items.take(k));
    let all = render::rendered_items(items);
    if k == items.len() {
        assert(items.take(k) =~= items);
        assert(all.take(part.len() as int) =~= part);
    } else {
        let init = items.drop_last();
        lemma_items_prefix(init, k);
        assert(init.take(k) =~= items.take(k));
        let shorter = render::rendered_items(init);
        assert(all =~= shorter + (seq![','] + render::rendered(items.last())));
        assert(all.take(part.len() as int) =~= shorter.take(part.len() as int));
        if part.len() < shorter.len() {
            assert(all[part.len() as int] == shorter[part.len() as int]);
        } else {
            assert(all[part.len() as int] == ',');
        }
    }
}

/// The `k`th item stands where it starts, and something that can follow a
/// value follows it.
proof fn lemma_item_starts(s: Seq<char>, i: int, items: Seq<Json>, k: int, depth: nat)
    requires
        0 <= k < items.len(),
        forall|n: int| 0 <= n < items.len() ==> is_readable(#[trigger] items[n], depth),
        stands(s, i, render::rendered_items(items) + seq![']']),
    ensures
        ({
            let start = i + item_start(items, k);
            let r = render::rendered(items[k]);
            let end = start + r.len();
            &&& stands(s, start, r)
            &&& end < s.len()
            &&& stops(s, end)
            &&& k + 1 < items.len() ==> s[end] == ',' && end + 1 == i + item_start(items, k + 1)
            &&& k + 1 == items.len() ==> s[end] == ']' && end + 1 == i + render::rendered_items(
                items,
            ).len() + 1
            &&& s[start] == r[0]
            &&& !grammar::is_space(r[0]) && r[0] != ']'
        }),
{
    let all = render::rendered_items(items);
    let next = items.take(k + 1);
    let part = render::rendered_items(next);
    let r = render::rendered(items[k]);
    assert(is_readable(items[k], depth));
    lemma_first_character(items[k], depth);
    lemma_items_prefix(items, k + 1);
    lemma_stands_concat(s, i, all, seq![']']);
    lemma_stands_at(s, i + all.len(), seq![']'], 0);
    assert(all =~= part + all.skip(part.len() as int));
    lemma_stands_concat(s, i, part, all.skip(part.len() as int));
    assert(next.drop_last() =~= items.take(k));
    assert(next.last() == items[k]);
    if k == 0 {
        assert(next =~= seq![items[0]]);
        assert(part == r);
    } else {
        let before = render::rendered_items(items.take(k));
        assert(part =~= (before + seq![',']) + r);
        lemma_stands_concat(s, i, before + seq![','], r);
    }
    lemma_stands_at(s, i + item_start(items, k), r, 0);
    if k + 1 < items.len() {
        lemma_stands_at(s, i, all, part.len() as int);
    }
}

/// The items of an array from the `k`th on are read.
proof fn lemma_items_read(s: Seq<char>, i: int, items: Seq<Json>, k: int, depth: nat)
    requires
        0 <= k < items.len(),
        forall|n: int| 0 <= n < items.len() ==> is_readable(#[trigger] items[n], depth),
        stands(s, i, render::rendered_items(items) + seq![']']),
    ensures
        grammar::items_at(s, i + item_start(items, k), depth, items.take(k)) == Ok::<
            (Json, int),
            Fault,
        >((Json::Array(items), i + render::rendered_items(items).len() + 1)),
    decreases items, items.len() - k,
{
    lemma_item_starts(s, i, items, k, depth);
    let start = i + item_start(items, k);
    let end = start + render::rendered(items[k]).len();
    assert(is_readable(items[k], depth));
    lemma_value_reads(s, start, items[k], depth);
    assert(grammar::skip_space(s, end) == end);
    assert(items.take(k).push(items[k]) =~= items.take(k + 1));
    if k + 1 < items.len() {
        lemma_item_starts(s, i, items, k + 1, depth);
        assert(grammar::skip_space(s, end + 1) == end + 1);
        lemma_items_read(s, i, items, k + 1, depth);
    } else {
        assert(items.take(k + 1) =~= items);
    }
}

/// How one member is rendered.
spec fn rendered_member(member: (Seq<char>, Json)) -> Seq<char> {
    render::quoted(member.0) + seq![':'] + render::rendered(member.1)
}

/// Where the `k`th member starts in the rendering of the members.
spec fn member_start(members: Seq<(Seq<char>, Json)>, k: int) -> nat {
    if k == 0 {
        0
    } else {
        render::rendered_members(members.take(k)).len() + 1
    }
}

proof fn lemma_members_prefix(members: Seq<(Seq<char>, Json)>, k: int)
    requires
        0 < k <= members.len(),
    ensures
        ({
            let part = render::rendered_members(members.take(k));
            let all = render::rendered_members(members);
            &&& part.len() <= all.len()
            &&& all.take(part.len() as int) == part
            &&& k < members.len() ==> part.len() < all.len() && all[part.len() as int] == ','
            &&& k == members.len() ==> part == all
        }),
    decreases members.len(),
{
    let part = render::rendered_members(members.take(k));
    let all = render::rendered_members(members);
    if k == members.len() {
        assert(members.take(k) =~= members);
        assert(all.take(part.len() as int) =~= part);
    } else {
        let init = members.drop_last();
        lemma_members_prefix(init, k);
        assert(init.take(k) =~= members.take(k));
        let shorter = render::rendered_members(init);
        assert(all =~= shorter + (seq![','] + rendered_member(members.last())));
        assert(all.take(part.len() as int) =~= shorter.take(part.len() as int));
        if part.len() < shorter.len() {
            assert(all[part.len() as int] == shorter[part.len() as int]);
        } else {
            assert(all[part.len() as int] == ',');
        }
    }
}

proof fn lemma_member_starts(
    s: Seq<char>,
    i: int,
    members: Seq<(Seq<char>, Json)>,
    k: int,
)
    requires
        0 <= k < members.len(),
        stands(s, i, render::rendered_members(members) + seq!['}']),
    ensures
        ({
            let start = i + member_start(members, k);
            let r = rendered_member(members[k]);
            let end = start + r.len();
            &&& stands(s, start, r)
            &&& end < s.len()
            &&& stops(s, end)
            &&& k + 1 < members.len() ==> s[end] == ',' && end + 1 == i + member_start(
                members,
                k + 1,
            )
            &&& k + 1 == members.len() ==> s[end] == '}' && end + 1 == i
                + render::rendered_members(members).len() + 1
            &&& s[start] == '"'
        }),
{
    let all = render::rendered_members(members);
    let next = members.take(k + 1);
    let part = render::rendered_members(next);
    let r = rendered_member(members[k]);
    lemma_members_prefix(members, k + 1);
    lemma_stands_concat(s, i, all, seq!['}']);
    lemma_stands_at(s, i + all.len(), seq!['}'], 0);
    assert(all =~= part + all.skip(part.len() as int));
    lemma_stands_concat(s, i, part, all.skip(part.len() as int));
    assert(next.drop_last() =~= members.take(k));
    assert(next.last() == members[k]);
    if k == 0 {
        assert(next =~= seq![members[0]]);
        assert(part == r);
    } else {
        let before = render::rendered_members(members.take(k));
        assert(part =~= (before + seq![',']) + r);
        lemma_stands_concat(s, i, before + seq![','], r);
    }
    assert(r[0] == '"');
    lemma_stands_at(s, i + member_start(members, k), r, 0);
    if k + 1 < members.len() {
        lemma_stands_at(s, i, all, part.len() as int);
    }
}

/// One member is read, and then those that follow it.
proof fn lemma_member_step(
    s: Seq<char>,
    start: int,
    colon: int,
    end: int,
    depth: nat,
    done: Seq<(Seq<char>, Json)>,
    key: Seq<char>,
    value: Json,
)
    requires
        0 <= start < colon < end < s.len(),
        s[start] == '"',
        grammar::string_at(s, start + 1, Seq::empty()) == Ok::<(Seq<char>, int), Fault>(
            (key, colon),
        ),
        s[colon] == ':',
        !grammar::is_space(s[colon + 1]),
        grammar::value_at(s, colon + 1, depth) == Ok::<(Json, int), Fault>((value, end)),
        s[end] == '}' || (s[end] == ',' && end + 1 < s.len() && !grammar::is_space(s[end + 1])),
    ensures
        grammar::members_at(s, start, depth, done) == if s[end] == '}' {
            Ok::<(Json, int), Fault>((Json::Object(done.push((key, value))), end + 1))
        } else {
            grammar::members_at(s, end + 1, depth, done.push((key, value)))
        },
{
    assert(grammar::skip_space(s, colon) == colon);
    assert(grammar::skip_space(s, colon + 1) == colon + 1);
    assert(grammar::skip_space(s, end) == end);
    if s[end] == ',' {
        assert(grammar::skip_space(s, end + 1) == end + 1);
    }
}

/// Where the name and the value of one member stand.
proof fn lemma_member_parts(s: Seq<char>, start: int, member: (Seq<char>, Json), depth: nat)
    requires
        is_readable(member.1, depth),
        stands(s, start, rendered_member(member)),
    ensures
        ({
            let colon = start + render::quoted(member.0).len();
            let r = render::rendered(member.1);
            &&& stands(s, start, render::quoted(member.0))
            &&& start < colon < s.len()
            &&& s[colon] == ':'
            &&& stands(s, colon + 1, r)
            &&& r.len() > 0
            &&& !grammar::is_space(s[colon + 1])
            &&& colon + 1 + r.len() == start + rendered_member(member).len()
        }),
{
    let name = render::quoted(member.0);
    let r = render::rendered(member.1);
    let colon = start + name.len();
    lemma_first_character(member.1, depth);
    lemma_stands_concat(s, start, name + seq![':'], r);
    lemma_stands_concat(s, start, name, seq![':']);
    lemma_stands_at(s, colon, seq![':'], 0);
    lemma_stands_at(s, colon + 1, r, 0);
}

/// The members of an object from the `k`th on are read.
proof fn lemma_members_read(
    s: Seq<char>,
    i: int,
    members: Seq<(Seq<char>, Json)>,
    k: int,
    depth: nat,
)
    requires
        0 <= k < members.len(),
        forall|n: int| 0 <= n < members.len() ==> is_readable((#[trigger] members[n]).1, depth),
        stands(s, i, render::rendered_members(members) + seq!['}']),
    ensures
        grammar::members_at(s, i + member_start(members, k), depth, members.take(k)) == Ok::<
            (Json, int),
            Fault,
        >((Json::Object(members), i + render::rendered_members(members).len() + 1)),
    decreases members, members.len() - k,
{
    let member = members[k];
    let start = i + member_start(members, k);
    let colon = start + render::quoted(member.0).len();
    let end = start + rendered_member(member).len();
    let done = members.take(k);
    lemma_member_starts(s, i, members, k);
    lemma_member_parts(s, start, member, depth);
    lemma_quoted_reads(s, start, member.0);
    lemma_value_reads(s, colon + 1, member.1, depth);
    assert(done.push(member) =~= members.take(k + 1));
    if k + 1 < members.len() {
        lemma_member_starts(s, i, members, k + 1);
        lemma_member_step(s, start, colon, end, depth, done, member.0, member.1);
        lemma_members_read(s, i, members, k + 1, depth);
    } else {
        lemma_member_step(s, start, colon, end, depth, done, member.0, member.1);
        assert(members.take(k + 1) =~= members);
    }
}

/// What is read is readable.
proof fn lemma_read_is_readable(s: Seq<char>, i: int, depth: nat)
    requires
        0 <= i <= s.len(),
    ensures
        grammar::value_at(s, i, depth) matches Ok((value, _)) ==> is_readable(value, depth),
    decreases depth, 0nat, 0int,
{
    if i < s.len() {
        grammar::lemma_skip_space(s, i + 1);
        let first = grammar::skip_space(s, i + 1);
        if s[i] == '{' || s[i] == '[' {
            if depth > 0 {
                if s[i] == '{' {
                    lemma_read_members(s, first, (depth - 1) as nat, Seq::empty());
                } else {
                    lemma_read_items(s, first, (depth - 1) as nat, Seq::empty());
                }
            }
        } else if s[i] == '-' || text::is_digit(s[i]) {
            if let Ok((value, j)) = grammar::number_at(s, i) {
                lemma_number_alone(s, i);
                if value is Float {
                    lemma_normal_is_number(s.subrange(i, j), value);
                }
            }
        }
    }
}

proof fn lemma_read_items(s: Seq<char>, i: int, depth: nat, done: Seq<Json>)
    requires
        0 <= i <= s.len(),
        forall|n: int| 0 <= n < done.len() ==> is_readable(#[trigger] done[n], depth),
    ensures
        grammar::items_at(s, i, depth, done) matches Ok((value, _)) ==> is_readable(
            value,
            depth + 1,
        ),
    decreases depth, 1nat, s.len() - i,
{
    lemma_read_is_readable(s, i, depth);
    grammar::lemma_value_at(s, i, depth);
    if let Ok((value, j)) = grammar::value_at(s, i, depth) {
        grammar::lemma_skip_space(s, j);
        let k = grammar::skip_space(s, j);
        let all = done.push(value);
        if k < s.len() && s[k] == ',' {
            grammar::lemma_skip_space(s, k + 1);
            lemma_read_items(s, grammar::skip_space(s, k + 1), depth, all);
        }
    }
}

proof fn lemma_read_members(
    s: Seq<char>,
    i: int,
    depth: nat,
    done: Seq<(Seq<char>, Json)>,
)
    requires
        0 <= i <= s.len(),
        forall|n: int| 0 <= n < done.len() ==> is_readable((#[trigger] done[n]).1, depth),
    ensures
        grammar::members_at(s, i, depth, done) matches Ok((value, _)) ==> is_readable(
            value,
            depth + 1,
        ),
    decreases depth, 1nat, s.len() - i,
{
    if i < s.len() {
        grammar::lemma_string_at(s, i + 1, Seq::empty());
        if let Ok((key, after_key)) = grammar::string_at(s, i + 1, Seq::empty()) {
            grammar::lemma_skip_space(s, after_key);
            let colon = grammar::skip_space(s, after_key);
            if colon < s.len() {
                grammar::lemma_skip_space(s, colon + 1);
                let from = grammar::skip_space(s, colon + 1);
                lemma_read_is_readable(s, from, depth);
                grammar::lemma_value_at(s, from, depth);
                if let Ok((value, j)) = grammar::value_at(s, from, depth) {
                    grammar::lemma_skip_space(s, j);
                    let k = grammar::skip_space(s, j);
                    let all = done.push((key, value));
                    if k < s.len() && s[k] == ',' {
                        grammar::lemma_skip_space(s, k + 1);
                        lemma_read_members(s, grammar::skip_space(s, k + 1), depth, all);
                    }
                }
            }
        }
    }
}

/// A value that a document can denote is denoted by its rendering.
pub proof fn law_rendering_is_read_back(json: Json)
    requires
        is_readable(json, MAX_DEPTH as nat),
    ensures
        grammar::document(render::rendered(json)) == Ok::<Json, Fault>(json),
{
    let s = render::rendered(json);
    lemma_first_character(json, MAX_DEPTH as nat);
    assert(s.subrange(0, s.len() as int) =~= s);
    lemma_value_reads(s, 0, json, MAX_DEPTH as nat);
}

/// Reading a document and rendering what it denotes changes nothing but how
/// it is written: the rendering denotes the same value.
pub proof fn law_documents_survive_rendering(s: Seq<char>)
    ensures
        grammar::document(s) matches Ok(json) ==> is_readable(json, MAX_DEPTH as nat)
            && grammar::document(render::rendered(json)) == Ok::<Json, Fault>(json),
{
    grammar::lemma_skip_space(s, 0);
    lemma_read_is_readable(s, grammar::skip_space(s, 0), MAX_DEPTH as nat);
    if let Ok(json) = grammar::document(s) {
        law_rendering_is_read_back(json);
    }
}

proof fn lemma_readable_deeper(json: Json, depth: nat)
    requires
        is_readable(json, depth),
    ensures
        is_readable(json, depth + 1),
    decreases json,
{
    match json {
        Json::Array(items) => {
            assert forall|i: int| 0 <= i < items.len() implies is_readable(
                #[trigger] items[i],
                depth,
            ) by {
                let whole = Json::Array(items);
                assert(is_readable(whole, depth) && whole->Array_0 == items);
                lemma_readable_deeper(items[i], (depth - 1) as nat);
            }
        },
        Json::Object(members) => {
            assert forall|i: int| 0 <= i < members.len() implies is_readable(
                (#[trigger] members[i]).1,
                depth,
            ) by {
                let whole = Json::Object(members);
                assert(is_readable(whole, depth) && whole->Object_0 == members);
                lemma_readable_deeper(members[i].1, (depth - 1) as nat);
            }
        },
        _ => {},
    }
}

spec fn all_readable(values: Seq<Json>, depth: nat) -> bool {
    forall|i: int| 0 <= i < values.len() ==> is_readable(#[trigger] values[i], depth)
}

proof fn lemma_step_readable(value: Json, step: Step, depth: nat)
    requires
        is_readable(value, depth),
    ensures
        all_readable(path::step_into(value, step), depth),
{
    let found = path::step_into(value, step);
    assert forall|i: int| 0 <= i < found.len() implies is_readable(#[trigger] found[i], depth) by {
        match (step, value) {
            (Step::Key(key), Json::Object(members)) => {
                json::lemma_member(members, key);
                let at = choose|at: int|
                    0 <= at < members.len() && (#[trigger] members[at]).0 == key && members[at].1
                        == found[i];
                let whole = Json::Object(members);
                assert(is_readable(whole, depth) && whole->Object_0 == members);
                assert(is_readable(members[at].1, (depth - 1) as nat));
                lemma_readable_deeper(found[i], (depth - 1) as nat);
            },
            (Step::Index(index), Json::Array(items)) => {
                let at = if index < 0 {
                    items.len() + index
                } else {
                    index as int
                };
                let whole = Json::Array(items);
                assert(is_readable(whole, depth) && whole->Array_0 == items);
                assert(is_readable(items[at], (depth - 1) as nat));
                lemma_readable_deeper(found[i], (depth - 1) as nat);
            },
            (Step::All, Json::Array(items)) => {
                let whole = Json::Array(items);
                assert(is_readable(whole, depth) && whole->Array_0 == items);
                assert(is_readable(items[i], (depth - 1) as nat));
                lemma_readable_deeper(found[i], (depth - 1) as nat);
            },
            _ => {},
        }
    }
}

proof fn lemma_step_all_readable(values: Seq<Json>, step: Step, depth: nat)
    requires
        all_readable(values, depth),
    ensures
        all_readable(path::step_into_all(values, step), depth),
    decreases values.len(),
{
    if values.len() > 0 {
        let init = values.drop_last();
        assert forall|i: int| 0 <= i < init.len() implies is_readable(
            #[trigger] init[i],
            depth,
        ) by {
            assert(init[i] == values[i]);
        }
        assert(is_readable(values[values.len() - 1], depth));
        lemma_step_all_readable(init, step, depth);
        lemma_step_readable(values.last(), step, depth);
    }
}

proof fn lemma_selected_readable(values: Seq<Json>, steps: Seq<Step>, depth: nat)
    requires
        all_readable(values, depth),
    ensures
        all_readable(path::selected(values, steps), depth),
    decreases steps.len(),
{
    if steps.len() > 0 {
        lemma_step_all_readable(values, steps[0], depth);
        lemma_selected_readable(
            path::step_into_all(values, steps[0]),
            steps.drop_first(),
            depth,
        );
    }
}

proof fn lemma_matches_readable(lines: Seq<Seq<u8>>, steps: Seq<Step>)
    ensures
        all_readable(
            field::matches_in(summary::records_of(lines), steps),
            MAX_DEPTH as nat,
        ),
    decreases lines.len(),
{
    if lines.len() > 0 {
        let init = lines.drop_last();
        let before = summary::records_of(init);
        lemma_matches_readable(init, steps);
        if let Content::Record(json) = lines::content(lines.last()) {
            law_documents_survive_rendering(vstd::utf8::decode_utf8(lines.last()));
            assert(before.push(json).drop_last() =~= before);
            assert(all_readable(seq![json], MAX_DEPTH as nat));
            lemma_selected_readable(seq![json], steps, MAX_DEPTH as nat);
        }
    }
}

/// The value table of a field tells values apart: those that it counts as one,
/// having the same JSON text, are the same.
pub proof fn law_value_table_tells_values_apart(
    lines: Seq<Seq<u8>>,
    steps: Seq<Step>,
    i: int,
    j: int,
)
    requires
        0 <= i < field::matches_in(summary::records_of(lines), steps).len(),
        0 <= j < field::matches_in(summary::records_of(lines), steps).len(),
    ensures
        ({
            let values = field::matches_in(summary::records_of(lines), steps);
            render::rendered(values[i]) == render::rendered(values[j]) ==> values[i] == values[j]
        }),
{
    let values = field::matches_in(summary::records_of(lines), steps);
    lemma_matches_readable(lines, steps);
    assert(is_readable(values[i], MAX_DEPTH as nat));
    assert(is_readable(values[j], MAX_DEPTH as nat));
    law_rendering_is_read_back(values[i]);
    law_rendering_is_read_back(values[j]);
}

} // verus!
