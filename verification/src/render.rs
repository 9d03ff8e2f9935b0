//! The compact JSON text of a value.

use vstd::prelude::*;

use crate::json;
use crate::json::Json;
use crate::json::Value;
use crate::text;
use crate::text::push_signed_decimal;

verus! {

/// The lower-case hexadecimal digit for a number below sixteen.
pub open spec fn hex_digit(n: u32) -> char {
    if n < 10 {
        ('0' as u32 + n) as u8 as char
    } else {
        ('a' as u32 + n - 10) as u8 as char
    }
}

/// How a character is written inside a JSON string: quotes, backslashes and
/// control characters are escaped.
pub open spec fn escaped(c: char) -> Seq<char> {
    if c == '"' {
        seq!['\\', '"']
    } else if c == '\\' {
        seq!['\\', '\\']
    } else if c == '\x08' {
        seq!['\\', 'b']
    } else if c == '\x0c' {
        seq!['\\', 'f']
    } else if c == '\n' {
        seq!['\\', 'n']
    } else if c == '\r' {
        seq!['\\', 'r']
    } else if c == '\t' {
        seq!['\\', 't']
    } else if (c as u32) < 0x20 {
        seq!['\\', 'u', '0', '0', hex_digit(c as u32 / 16), hex_digit(c as u32 % 16)]
    } else {
        seq![c]
    }
}

/// How the characters of a text are written inside a JSON string.
pub open spec fn escaped_text(s: Seq<char>) -> Seq<char>
    decreases s.len(),
{
    if s.len() == 0 {
        Seq::empty()
    } else {
        escaped_text(s.drop_last()) + escaped(s.last())
    }
}

/// The JSON string for a text.
pub open spec fn quoted(s: Seq<char>) -> Seq<char> {
    seq!['"'] + escaped_text(s) + seq!['"']
}

/// The compact JSON text of a value that a document can hold.
pub open spec fn rendered(json: Json) -> Seq<char>
    recommends
        json::is_plain(json),
    decreases json,
{
    match json {
        Json::Null => "null"@,
        Json::Bool(b) => if b {
            "true"@
        } else {
            "false"@
        },
        Json::Int(n) => text::signed_decimal(n as int),
        Json::Float(written) => written,
        Json::Ratio(_, _) => Seq::empty(),
        Json::Str(s) => quoted(s),
        Json::Array(items) => seq!['['] + rendered_items(items) + seq![']'],
        Json::Object(members) => seq!['{'] + rendered_members(members) + seq!['}'],
    }
}

/// The items of an array, separated by commas.
pub open spec fn rendered_items(items: Seq<Json>) -> Seq<char>
    decreases items,
{
    if items.len() == 0 {
        Seq::empty()
    } else if items.len() == 1 {
        rendered(items[0])
    } else {
        rendered_items(items.drop_last()) + seq![','] + rendered(items.last())
    }
}

/// The members of an object, separated by commas.
pub open spec fn rendered_members(members: Seq<(Seq<char>, Json)>) -> Seq<char>
    decreases members,
{
    if members.len() == 0 {
        Seq::empty()
    } else if members.len() == 1 {
        quoted(members[0].0) + seq![':'] + rendered(members[0].1)
    } else {
        rendered_members(members.drop_last()) + seq![','] + quoted(members.last().0) + seq![':']
            + rendered(members.last().1)
    }
}

fn hex_char(n: u32) -> (c: char)
    requires
        n < 16,
    ensures
        c == hex_digit(n),
{
    if n < 10 {
        (48u8 + n as u8) as char
    } else {
        (97u8 + (n - 10) as u8) as char
    }
}

fn push_escaped(out: &mut String, c: char)
    ensures
        final(out)@ == old(out)@ + escaped(c),
{
    if c == '"' {
        out.push('\\');
        out.push('"');
    } else if c == '\\' {
        out.push('\\');
        out.push('\\');
    } else if c == '\x08' {
        out.push('\\');
        out.push('b');
    } else if c == '\x0c' {
        out.push('\\');
        out.push('f');
    } else if c == '\n' {
        out.push('\\');
        out.push('n');
    } else if c == '\r' {
        out.push('\\');
        out.push('r');
    } else if c == '\t' {
        out.push('\\');
        out.push('t');
    } else if (c as u32) < 0x20 {
        out.push('\\');
        out.push('u');
        out.push('0');
        out.push('0');
        out.push(hex_char(c as u32 / 16));
        out.push(hex_char(c as u32 % 16));
    } else {
        out.push(c);
    }
    assert(out@ =~= old(out)@ + escaped(c));
}

fn push_quoted(out: &mut String, s: &str)
    ensures
        final(out)@ == old(out)@ + quoted(s@),
{
    let ghost start = out@;
    out.push('"');
    let mut rest = s.chars();
    let ghost mut done: Seq<char> = Seq::empty();
    loop
        invariant
            out@ == start + seq!['"'] + escaped_text(done),
            done + vstd::std_specs::iter::IteratorSpec::remaining(&rest) == s@,
            vstd::std_specs::iter::IteratorSpec::decrease(&rest) is Some,
        ensures
            done == s@,
        decreases vstd::std_specs::iter::IteratorSpec::decrease(&rest)->0,
    {
        match rest.next() {
            None => {
                assert(done =~= s@);
                break;
            },
            Some(c) => {
                push_escaped(out, c);
                proof {
                    assert(done.push(c).drop_last() =~= done);
                    assert(done.push(c) + vstd::std_specs::iter::IteratorSpec::remaining(&rest)
                        =~= s@);
                    done = done.push(c);
                }
            },
        }
    }
    out.push('"');
    assert(out@ =~= start + quoted(s@));
}

fn push_json(out: &mut String, value: &Value)
    requires
        json::is_plain(value@),
    ensures
        final(out)@ == old(out)@ + rendered(value@),
    decreases *value,
{
    let ghost start = out@;
    match value {
        Value::Null => {
            out.append("null");
        },
        Value::Bool(b) => {
            if *b {
                out.append("true");
            } else {
                out.append("false");
            }
        },
        Value::Int(n) => {
            push_signed_decimal(out, *n);
        },
        Value::Float(written) => {
            out.append(written.as_str());
        },
        Value::Ratio(_) => {
            assert(false);
        },
        Value::Str(s) => {
            push_quoted(out, s.as_str());
        },
        Value::Array(items) => {
            proof {
                json::lemma_array_view(*items);
            }
            let ghost all = json::views(items@);
            out.push('[');
            let mut i: usize = 0;
            assert(out@ =~= start + seq!['['] + rendered_items(all.take(0)));
            while i < items.len()
                invariant
                    i <= items@.len(),
                    *value == Value::Array(*items),
                    json::is_plain(value@),
                    value@ == Json::Array(all),
                    all == json::views(items@),
                    out@ == start + seq!['['] + rendered_items(all.take(i as int)),
                decreases items.len() - i,
            {
                if i > 0 {
                    out.push(',');
                }
                assert(all[i as int] == items@[i as int]@);
                proof {
                    json::lemma_plain_item(all, i as int);
                }
                push_json(out, &items[i]);
                assert(all.take(i + 1).drop_last() =~= all.take(i as int));
                i = i + 1;
                assert(out@ =~= start + seq!['['] + rendered_items(all.take(i as int)));
            }
            assert(all.take(i as int) =~= all);
            out.push(']');
            assert(out@ =~= start + rendered(value@));
        },
        Value::Object(members) => {
            proof {
                json::lemma_object_view(*members);
            }
            let ghost all = json::member_views(members@);
            out.push('{');
            let mut i: usize = 0;
            assert(out@ =~= start + seq!['{'] + rendered_members(all.take(0)));
            while i < members.len()
                invariant
                    i <= members@.len(),
                    *value == Value::Object(*members),
                    json::is_plain(value@),
                    value@ == Json::Object(all),
                    all == json::member_views(members@),
                    out@ == start + seq!['{'] + rendered_members(all.take(i as int)),
                decreases members.len() - i,
            {
                if i > 0 {
                    out.push(',');
                }
                assert(all[i as int] == (members@[i as int].0@, members@[i as int].1@));
                push_quoted(out, members[i].0.as_str());
                out.push(':');
                proof {
                    json::lemma_plain_member(all, i as int);
                }
                push_json(out, &members[i].1);
                assert(all.take(i + 1).drop_last() =~= all.take(i as int));
                i = i + 1;
                assert(out@ =~= start + seq!['{'] + rendered_members(all.take(i as int)));
            }
            assert(all.take(i as int) =~= all);
            out.push('}');
            assert(out@ =~= start + rendered(value@));
        },
    }
}

impl Value {
    /// The compact JSON text of a value that a document can hold.
    pub fn to_json(&self) -> (r: String)
        requires
            json::is_plain(self@),
        ensures
            r@ == rendered(self@),
    {
        let mut out = String::new();
        push_json(&mut out, self);
        assert(out@ =~= rendered(self@));
        out
    }
}

/// Renderings are compact: nothing stands between the parts of an array or an
/// object but one comma between two of them and one colon behind each key.
pub proof fn law_rendering_is_compact(
    items: Seq<Json>,
    item: Json,
    members: Seq<(Seq<char>, Json)>,
    key: Seq<char>,
    value: Json,
)
    ensures
        rendered(Json::Array(Seq::empty())) == seq!['[', ']'],
        rendered(Json::Array(seq![item])) == seq!['['] + rendered(item) + seq![']'],
        items.len() > 0 ==> rendered(Json::Array(items.push(item))) == rendered(
            Json::Array(items),
        ).drop_last() + seq![','] + rendered(item) + seq![']'],
        rendered(Json::Object(Seq::empty())) == seq!['{', '}'],
        rendered(Json::Object(seq![(key, value)])) == seq!['{'] + rendered(Json::Str(key)) + seq![
            ':',
        ] + rendered(value) + seq!['}'],
        members.len() > 0 ==> rendered(Json::Object(members.push((key, value)))) == rendered(
            Json::Object(members),
        ).drop_last() + seq![','] + rendered(Json::Str(key)) + seq![':'] + rendered(value) + seq![
            '}',
        ],
{
    assert(rendered(Json::Array(Seq::empty())) =~= seq!['[', ']']);
    assert(rendered(Json::Object(Seq::empty())) =~= seq!['{', '}']);
    assert(rendered(Json::Object(seq![(key, value)])) =~= seq!['{'] + rendered(Json::Str(key))
        + seq![':'] + rendered(value) + seq!['}']);
    let more = items.push(item);
    assert(more.drop_last() =~= items);
    assert(items.len() > 0 ==> rendered(Json::Array(more)) =~= rendered(
        Json::Array(items),
    ).drop_last() + seq![','] + rendered(item) + seq![']']);
    let further = members.push((key, value));
    assert(further.drop_last() =~= members);
    assert(members.len() > 0 ==> rendered(Json::Object(further)) =~= rendered(
        Json::Object(members),
    ).drop_last() + seq![','] + rendered(Json::Str(key)) + seq![':'] + rendered(value) + seq![
        '}',
    ]);
}

/// A string is rendered between quotes, character by character. A character
/// stands for itself unless it is a quote, a backslash or a control character,
/// which are written as a backslash and more.
pub proof fn law_strings_are_quoted(s: Seq<char>, c: char)
    ensures
        rendered(Json::Str(Seq::empty())) == seq!['"', '"'],
        rendered(Json::Str(s.push(c))) == rendered(Json::Str(s)).drop_last() + escaped(c) + seq![
            '"',
        ],
        escaped(c) == seq![c] <==> c != '"' && c != '\\' && c as u32 >= 0x20,
        escaped(c) != seq![c] ==> escaped(c)[0] == '\\',
        escaped(c).len() == 2 <==> c == '"' || c == '\\' || c == '\n' || c == '\r' || c == '\t'
            || c == '\x08' || c == '\x0c',
        escaped(c) != seq![c] && escaped(c).len() != 2 ==> {
            let e = escaped(c);
            &&& e.len() == 6
            &&& e.take(4) == seq!['\\', 'u', '0', '0']
            &&& '0' <= e[4] <= '9' || 'a' <= e[4] <= 'f'
            &&& '0' <= e[5] <= '9' || 'a' <= e[5] <= 'f'
        },
{
    assert(rendered(Json::Str(Seq::empty())) =~= seq!['"', '"']);
    assert(s.push(c).drop_last() =~= s);
    assert(rendered(Json::Str(s.push(c))) =~= rendered(Json::Str(s)).drop_last() + escaped(c)
        + seq!['"']);
    assert(seq![c].len() == 1);
    if escaped(c) != seq![c] && escaped(c).len() != 2 {
        assert(escaped(c).take(4) =~= seq!['\\', 'u', '0', '0']);
    }
}

} // verus!
