//! What JSON documents look like, and where those that are none go wrong.

use vstd::prelude::*;
use vstd::utf8;

use crate::grammar;
use crate::grammar::ErrorKind;
use crate::grammar::Fault;
use crate::json::Json;
use crate::text;

verus! {

/// Whether the character at a fault is its cause; that of an unexpected end is
/// the end.
pub open spec fn is_cause(s: Seq<char>, fault: Fault) -> bool {
    match fault.kind {
        ErrorKind::UnexpectedEnd => fault.at == s.len(),
        kind => 0 <= fault.at < s.len() && {
            let c = s[fault.at];
            match kind {
                ErrorKind::Unexpected(d) => c == d,
                ErrorKind::ExpectedKey => c != '"',
                ErrorKind::ExpectedColon => c != ':',
                ErrorKind::ControlCharacter => (c as u32) < 0x20,
                ErrorKind::InvalidEscape => c == '\\',
                ErrorKind::InvalidNumber => c == '-' || text::is_digit(c),
                ErrorKind::TooDeep => c == '{' || c == '[',
                ErrorKind::UnexpectedEnd => false,
            }
        },
    }
}

proof fn lemma_string_faults(s: Seq<char>, i: int, done: Seq<char>)
    requires
        0 <= i <= s.len(),
    ensures
        grammar::string_at(s, i, done) matches Err(fault) ==> is_cause(s, fault),
    decreases s.len() - i,
{
    if i < s.len() && s[i] != '"' {
        if s[i] == '\\' {
            if let Some((c, j)) = grammar::escape_at(s, i) {
                lemma_string_faults(s, j, done.push(c));
            }
        } else {
            lemma_string_faults(s, i + 1, done.push(s[i]));
        }
    }
}

proof fn lemma_value_faults(s: Seq<char>, i: int, depth: nat)
    requires
        0 <= i <= s.len(),
    ensures
        grammar::value_at(s, i, depth) matches Err(fault) ==> is_cause(s, fault),
    decreases depth, 0nat, 0int,
{
    if i < s.len() {
        grammar::lemma_skip_space(s, i + 1);
        let first = grammar::skip_space(s, i + 1);
        if s[i] == '{' || s[i] == '[' {
            if depth > 0 {
                if s[i] == '{' {
                    lemma_members_faults(s, first, (depth - 1) as nat, Seq::empty());
                } else {
                    lemma_items_faults(s, first, (depth - 1) as nat, Seq::empty());
                }
            }
        } else if s[i] == '"' {
            lemma_string_faults(s, i + 1, Seq::empty());
        }
    }
}

proof fn lemma_items_faults(s: Seq<char>, i: int, depth: nat, done: Seq<Json>)
    requires
        0 <= i <= s.len(),
    ensures
        grammar::items_at(s, i, depth, done) matches Err(fault) ==> is_cause(s, fault),
    decreases depth, 1nat, s.len() - i,
{
    lemma_value_faults(s, i, depth);
    grammar::lemma_value_at(s, i, depth);
    if let Ok((value, j)) = grammar::value_at(s, i, depth) {
        grammar::lemma_skip_space(s, j);
        let k = grammar::skip_space(s, j);
        if k < s.len() && s[k] == ',' {
            grammar::lemma_skip_space(s, k + 1);
            lemma_items_faults(s, grammar::skip_space(s, k + 1), depth, done.push(value));
        }
    }
}

proof fn lemma_members_faults(
    s: Seq<char>,
    i: int,
    depth: nat,
    done: Seq<(Seq<char>, Json)>,
)
    requires
        0 <= i <= s.len(),
    ensures
        grammar::members_at(s, i, depth, done) matches Err(fault) ==> is_cause(s, fault),
    decreases depth, 1nat, s.len() - i,
{
    if i < s.len() {
        lemma_string_faults(s, i + 1, Seq::empty());
        grammar::lemma_string_at(s, i + 1, Seq::empty());
        if let Ok((key, after_key)) = grammar::string_at(s, i + 1, Seq::empty()) {
            grammar::lemma_skip_space(s, after_key);
            let colon = grammar::skip_space(s, after_key);
            if colon < s.len() {
                grammar::lemma_skip_space(s, colon + 1);
                let from = grammar::skip_space(s, colon + 1);
                lemma_value_faults(s, from, depth);
                grammar::lemma_value_at(s, from, depth);
                if let Ok((value, j)) = grammar::value_at(s, from, depth) {
                    grammar::lemma_skip_space(s, j);
                    let k = grammar::skip_space(s, j);
                    if k < s.len() && s[k] == ',' {
                        grammar::lemma_skip_space(s, k + 1);
                        lemma_members_faults(
                            s,
                            grammar::skip_space(s, k + 1),
                            depth,
                            done.push((key, value)),
                        );
                    }
                }
            }
        }
    }
}

/// A text that is no document has a fault at the character that is its cause,
/// or at its end if it ends too early.
pub proof fn law_faults_point_at_their_cause(s: Seq<char>)
    ensures
        grammar::document(s) matches Err(fault) ==> is_cause(s, fault) && 0 <= fault.at
            <= s.len(),
{
    grammar::lemma_skip_space(s, 0);
    let from = grammar::skip_space(s, 0);
    lemma_value_faults(s, from, 512);
    grammar::lemma_value_at(s, from, 512);
    if let Ok((value, j)) = grammar::value_at(s, from, 512) {
        grammar::lemma_skip_space(s, j);
    }
}

/// What encodes the first characters of a text comes first in what encodes all.
pub proof fn lemma_encoded_prefix(s: Seq<char>, at: int)
    requires
        0 <= at <= s.len(),
    ensures
        utf8::encode_utf8(s.take(at)).len() <= utf8::encode_utf8(s).len(),
        utf8::encode_utf8(s).take(utf8::encode_utf8(s.take(at)).len() as int)
            == utf8::encode_utf8(s.take(at)),
    decreases s.len(),
{
    let part = s.take(at);
    if at == 0 {
        assert(part =~= Seq::empty());
        assert(utf8::encode_utf8(s).take(0) =~= Seq::empty());
        assert(utf8::encode_utf8(part) =~= Seq::empty());
    } else {
        lemma_encoded_prefix(s.drop_first(), at - 1);
        assert(part.drop_first() =~= s.drop_first().take(at - 1));
        let first = utf8::encode_scalar(s[0] as u32);
        let rest = utf8::encode_utf8(s.drop_first());
        let more = utf8::encode_utf8(part.drop_first());
        assert(utf8::encode_utf8(s) =~= first + rest);
        assert(utf8::encode_utf8(part) =~= first + more);
        assert((first + rest).take((first + more).len() as int) =~= first + rest.take(
            more.len() as int,
        ));
    }
}

/// The reason that is reported for a fault says what was expected, or names the
/// character that was not.
pub proof fn law_reasons_say_what_is_wrong(c: char)
    ensures
        grammar::reason_of(ErrorKind::Unexpected(c)) == "unexpected "@ + seq!['\'', c, '\''],
        grammar::reason_of(ErrorKind::UnexpectedEnd) == "unexpected end of input"@,
        grammar::reason_of(ErrorKind::ExpectedKey) == "expected a quoted object key"@,
        grammar::reason_of(ErrorKind::ExpectedColon) == "expected ':' after an object key"@,
        grammar::reason_of(ErrorKind::ControlCharacter)
            == "unescaped control character in a string"@,
        grammar::reason_of(ErrorKind::InvalidEscape) == "invalid escape sequence"@,
        grammar::reason_of(ErrorKind::InvalidNumber) == "invalid number"@,
        grammar::reason_of(ErrorKind::TooDeep) == "nested too deeply"@,
{
    reveal_strlit("unexpected '");
    reveal_strlit("unexpected ");
    assert(grammar::reason_of(ErrorKind::Unexpected(c)) =~= "unexpected "@ + seq!['\'', c, '\'']);
}

/// Whether there is nothing but white space from one position to another.
pub open spec fn spaces(s: Seq<char>, from: int, to: int) -> bool {
    &&& 0 <= from <= to <= s.len()
    &&& forall|k: int|
        from <= k < to ==> (#[trigger] s[k]) == ' ' || s[k] == '\t' || s[k] == '\n' || s[k] == '\r'
}

/// Whether there is one given character, with white space around it, from one
/// position to another.
pub open spec fn only(s: Seq<char>, mark: char, from: int, to: int) -> bool {
    exists|k: int|
        #![trigger s[k]]
        from <= k < to && s[k] == mark && spaces(s, from, k) && spaces(s, k + 1, to)
}

proof fn lemma_skipped(s: Seq<char>, i: int)
    requires
        0 <= i <= s.len(),
    ensures
        spaces(s, i, grammar::skip_space(s, i)),
    decreases s.len() - i,
{
    if i < s.len() && grammar::is_space(s[i]) {
        lemma_skipped(s, i + 1);
        let end = grammar::skip_space(s, i + 1);
        assert forall|k: int| i <= k < end implies (#[trigger] s[k]) == ' ' || s[k] == '\t' || s[k]
            == '\n' || s[k] == '\r' by {}
    }
}

proof fn lemma_skips(s: Seq<char>, i: int, to: int)
    requires
        spaces(s, i, to),
        to < s.len() ==> !grammar::is_space(s[to]),
    ensures
        grammar::skip_space(s, i) == to,
    decreases to - i,
{
    if i < to {
        assert(grammar::is_space(s[i]));
        assert(spaces(s, i + 1, to));
        lemma_skips(s, i + 1, to);
    }
}

proof fn lemma_value_is_solid(s: Seq<char>, i: int, depth: nat)
    requires
        0 <= i,
        grammar::value_at(s, i, depth) is Ok,
    ensures
        i < s.len(),
        !grammar::is_space(s[i]),
{
    reveal_strlit("true");
    reveal_strlit("false");
    reveal_strlit("null");
    if grammar::is_space(s[i]) {
        if i + 4 <= s.len() {
            assert(s.subrange(i, i + 4)[0] == s[i]);
        }
        if i + 5 <= s.len() {
            assert(s.subrange(i, i + 5)[0] == s[i]);
        }
        assert("true"@[0] == 't' && "false"@[0] == 'f' && "null"@[0] == 'n');
    }
}

/// Whether items stand one after the other where the spans say, with one comma
/// between two of them.
pub open spec fn are_items(
    s: Seq<char>,
    depth: nat,
    items: Seq<Json>,
    spans: Seq<(int, int)>,
) -> bool {
    &&& spans.len() == items.len()
    &&& forall|k: int|
        0 <= k < spans.len() ==> 0 <= (#[trigger] spans[k]).0 && grammar::value_at(
            s,
            spans[k].0,
            depth,
        ) == Ok::<(Json, int), Fault>((items[k], spans[k].1))
    &&& forall|k: int, m: int|
        #![trigger spans[k], spans[m]]
        0 <= k < spans.len() && m == k + 1 && m < spans.len() ==> only(
            s,
            ',',
            spans[k].1,
            spans[m].0,
        )
}

#[verifier::rlimit(30)]
proof fn lemma_items_have_spans(s: Seq<char>, i: int, depth: nat, done: Seq<Json>)
    requires
        0 <= i <= s.len(),
    ensures
        grammar::items_at(s, i, depth, done) matches Ok((value, j)) ==> exists|
            items: Seq<Json>,
            spans: Seq<(int, int)>,
        |
            #![trigger are_items(s, depth, items, spans)]
            are_items(s, depth, items, spans) && value == Json::Array(done + items) && items.len()
                > 0 && spans[0].0 == i && spaces(s, spans.last().1, j - 1) && j <= s.len() && s[j
                - 1] == ']',
    decreases depth, 1nat, s.len() - i,
{
    grammar::lemma_value_at(s, i, depth);
    if let Ok((value, e)) = grammar::value_at(s, i, depth) {
        grammar::lemma_skip_space(s, e);
        lemma_skipped(s, e);
        let k = grammar::skip_space(s, e);
        let all = done.push(value);
        if let Ok((result, j)) = grammar::items_at(s, i, depth, done) {
            if s[k] == ']' {
                let items = seq![value];
                let spans = seq![(i, e)];
                assert(done + items =~= all);
                assert(are_items(s, depth, items, spans));
            } else {
                grammar::lemma_skip_space(s, k + 1);
                lemma_skipped(s, k + 1);
                let next = grammar::skip_space(s, k + 1);
                lemma_items_have_spans(s, next, depth, all);
                let (rest, more) = choose|rest: Seq<Json>, more: Seq<(int, int)>|
                    #![trigger are_items(s, depth, rest, more)]
                    are_items(s, depth, rest, more) && result == Json::Array(all + rest)
                        && rest.len() > 0 && more[0].0 == next && spaces(
                        s,
                        more.last().1,
                        j - 1,
                    ) && j <= s.len() && s[j - 1] == ']';
                let items = seq![value] + rest;
                let spans = seq![(i, e)] + more;
                assert(done + items =~= all + rest);
                assert(only(s, ',', e, next));
                assert forall|a: int, b: int|
                    #![trigger spans[a], spans[b]]
                    0 <= a < spans.len() && b == a + 1 && b < spans.len() implies only(
                    s,
                    ',',
                    spans[a].1,
                    spans[b].0,
                ) by {
                    if a > 0 {
                        assert(spans[a] == more[a - 1] && spans[b] == more[b - 1]);
                    }
                }
                assert forall|a: int| 0 <= a < spans.len() implies 0 <= (#[trigger] spans[a]).0
                    && grammar::value_at(s, spans[a].0, depth) == Ok::<(Json, int), Fault>(
                    (items[a], spans[a].1),
                ) by {
                    if a > 0 {
                        assert(spans[a] == more[a - 1]);
                    }
                }
                assert(are_items(s, depth, items, spans));
                assert(spans.last() == more.last());
            }
        }
    }
}

#[verifier::rlimit(30)]
proof fn lemma_spans_are_items(
    s: Seq<char>,
    depth: nat,
    done: Seq<Json>,
    items: Seq<Json>,
    spans: Seq<(int, int)>,
    to: int,
)
    requires
        are_items(s, depth, items, spans),
        items.len() > 0,
        spaces(s, spans.last().1, to),
        to < s.len(),
        s[to] == ']',
    ensures
        grammar::items_at(s, spans[0].0, depth, done) == Ok::<(Json, int), Fault>(
            (Json::Array(done + items), to + 1),
        ),
    decreases items.len(),
{
    let (i, e) = spans[0];
    let all = done.push(items[0]);
    lemma_value_is_solid(s, i, depth);
    grammar::lemma_value_at(s, i, depth);
    if items.len() == 1 {
        assert(spans.last() == spans[0]);
        lemma_skips(s, e, to);
        assert(done + items =~= all);
    } else {
        let rest = items.drop_first();
        let more = spans.drop_first();
        let next = spans[1].0;
        assert(only(s, ',', spans[0].1, spans[1].0));
        let k = choose|k: int|
            #![trigger s[k]]
            e <= k < next && s[k] == ',' && spaces(s, e, k) && spaces(s, k + 1, next);
        lemma_skips(s, e, k);
        lemma_value_is_solid(s, next, depth);
        lemma_skips(s, k + 1, next);
        assert forall|a: int, b: int|
            #![trigger more[a], more[b]]
            0 <= a < more.len() && b == a + 1 && b < more.len() implies only(
            s,
            ',',
            more[a].1,
            more[b].0,
        ) by {
            assert(more[a] == spans[a + 1] && more[b] == spans[b + 1]);
        }
        assert forall|a: int| 0 <= a < more.len() implies 0 <= (#[trigger] more[a]).0
            && grammar::value_at(s, more[a].0, depth) == Ok::<(Json, int), Fault>(
            (rest[a], more[a].1),
        ) by {
            assert(more[a] == spans[a + 1]);
        }
        assert(more.last() == spans.last());
        lemma_spans_are_items(s, depth, all, rest, more, to);
        assert(all + rest =~= done + items);
    }
}

/// Whether a text is an array of items from one position to another: brackets
/// around the items, white space anywhere between.
pub open spec fn is_array(s: Seq<char>, i: int, depth: nat, items: Seq<Json>, j: int) -> bool {
    &&& 0 <= i < j - 1 < s.len()
    &&& s[i] == '['
    &&& s[j - 1] == ']'
    &&& items.len() == 0 ==> spaces(s, i + 1, j - 1)
    &&& items.len() > 0 ==> exists|spans: Seq<(int, int)>| #[trigger]
        are_items(s, depth, items, spans) && spaces(s, i + 1, spans[0].0) && spaces(
            s,
            spans.last().1,
            j - 1,
        )
}

/// An array is its items between brackets, with exactly one comma between two
/// of them and none elsewhere. White space may stand around each.
pub proof fn law_arrays_are_items_between_commas(
    s: Seq<char>,
    i: int,
    depth: nat,
    items: Seq<Json>,
    j: int,
)
    requires
        0 <= i <= s.len(),
    ensures
        grammar::value_at(s, i, depth + 1) == Ok::<(Json, int), Fault>((Json::Array(items), j))
            <==> is_array(s, i, depth, items, j),
{
    if grammar::value_at(s, i, depth + 1) == Ok::<(Json, int), Fault>((Json::Array(items), j)) {
        lemma_array_read(s, i, depth, items, j);
    }
    if is_array(s, i, depth, items, j) {
        lemma_array_reads(s, i, depth, items, j);
    }
}

proof fn lemma_array_read(s: Seq<char>, i: int, depth: nat, items: Seq<Json>, j: int)
    requires
        0 <= i <= s.len(),
        grammar::value_at(s, i, depth + 1) == Ok::<(Json, int), Fault>((Json::Array(items), j)),
    ensures
        is_array(s, i, depth, items, j),
{
    lemma_array_starts(s, i, depth, items, j);
    grammar::lemma_skip_space(s, i + 1);
    lemma_skipped(s, i + 1);
    let first = grammar::skip_space(s, i + 1);
    if first < s.len() && s[first] == ']' {
        assert(items =~= Seq::empty());
    } else {
        let spans = lemma_first_spans(s, first, depth, items, j);
        assert(are_items(s, depth, items, spans));
    }
}

proof fn lemma_first_spans(s: Seq<char>, i: int, depth: nat, items: Seq<Json>, j: int) -> (spans:
    Seq<(int, int)>)
    requires
        0 <= i <= s.len(),
        grammar::items_at(s, i, depth, Seq::empty()) == Ok::<(Json, int), Fault>(
            (Json::Array(items), j),
        ),
    ensures
        are_items(s, depth, items, spans),
        items.len() > 0,
        spans[0].0 == i,
        spaces(s, spans.last().1, j - 1),
        i < j - 1 < s.len(),
        s[j - 1] == ']',
{
    let none = Seq::<Json>::empty();
    lemma_items_have_spans(s, i, depth, none);
    let (all, spans) = choose|all: Seq<Json>, spans: Seq<(int, int)>|
        #![trigger are_items(s, depth, all, spans)]
        are_items(s, depth, all, spans) && Json::Array(items) == Json::Array(none + all)
            && all.len() > 0 && spans[0].0 == i && spaces(s, spans.last().1, j - 1) && j
            <= s.len() && s[j - 1] == ']';
    assert(none + all =~= all);
    grammar::lemma_items_at(s, i, depth, none);
    lemma_no_bracket(s, i, depth);
    assert(grammar::value_at(s, spans[0].0, depth) is Ok);
    spans
}

proof fn lemma_array_starts(s: Seq<char>, i: int, depth: nat, items: Seq<Json>, j: int)
    requires
        0 <= i <= s.len(),
        grammar::value_at(s, i, depth + 1) == Ok::<(Json, int), Fault>((Json::Array(items), j)),
    ensures
        i < s.len(),
        s[i] == '[',
{
    lemma_number_is_number(s, i);
    if i < s.len() && s[i] == '{' {
        grammar::lemma_skip_space(s, i + 1);
        lemma_members_make_object(s, grammar::skip_space(s, i + 1), depth, Seq::empty());
    }
}

proof fn lemma_array_reads(s: Seq<char>, i: int, depth: nat, items: Seq<Json>, j: int)
    requires
        is_array(s, i, depth, items, j),
    ensures
        grammar::value_at(s, i, depth + 1) == Ok::<(Json, int), Fault>((Json::Array(items), j)),
{
    if items.len() == 0 {
        lemma_skips(s, i + 1, j - 1);
        lemma_array_opens(s, i, depth);
        assert(items =~= Seq::empty());
    } else {
        let spans = choose|spans: Seq<(int, int)>| #[trigger]
            are_items(s, depth, items, spans) && spaces(s, i + 1, spans[0].0) && spaces(
                s,
                spans.last().1,
                j - 1,
            );
        lemma_array_of_spans(s, i, depth, items, spans, j);
    }
}

proof fn lemma_array_of_spans(
    s: Seq<char>,
    i: int,
    depth: nat,
    items: Seq<Json>,
    spans: Seq<(int, int)>,
    j: int,
)
    requires
        0 <= i < j - 1 < s.len(),
        s[i] == '[',
        s[j - 1] == ']',
        items.len() > 0,
        are_items(s, depth, items, spans),
        spaces(s, i + 1, spans[0].0),
        spaces(s, spans.last().1, j - 1),
    ensures
        grammar::value_at(s, i, depth + 1) == Ok::<(Json, int), Fault>((Json::Array(items), j)),
{
    let none = Seq::<Json>::empty();
    let first = spans[0].0;
    lemma_spans_are_items(s, depth, none, items, spans, j - 1);
    assert(none + items =~= items);
    assert(0 <= first && grammar::value_at(s, first, depth) is Ok);
    lemma_value_is_solid(s, first, depth);
    lemma_no_bracket(s, first, depth);
    lemma_skips(s, i + 1, first);
    lemma_array_opens(s, i, depth);
}

proof fn lemma_array_opens(s: Seq<char>, i: int, depth: nat)
    requires
        0 <= i < s.len(),
        s[i] == '[',
    ensures
        ({
            let first = grammar::skip_space(s, i + 1);
            grammar::value_at(s, i, depth + 1) == if first < s.len() && s[first] == ']' {
                Ok::<(Json, int), Fault>((Json::Array(Seq::empty()), first + 1))
            } else {
                grammar::items_at(s, first, depth, Seq::empty())
            }
        }),
{
}

/// No value starts with a closing bracket.
proof fn lemma_no_bracket(s: Seq<char>, i: int, depth: nat)
    requires
        0 <= i,
        grammar::value_at(s, i, depth) is Ok,
    ensures
        i < s.len(),
        s[i] != ']' && s[i] != '}',
{
    reveal_strlit("true");
    reveal_strlit("false");
    reveal_strlit("null");
    if i + 4 <= s.len() {
        assert(s.subrange(i, i + 4)[0] == s[i]);
    }
    if i + 5 <= s.len() {
        assert(s.subrange(i, i + 5)[0] == s[i]);
    }
    assert("true"@[0] == 't' && "false"@[0] == 'f' && "null"@[0] == 'n');
}

proof fn lemma_number_is_number(s: Seq<char>, i: int)
    ensures
        grammar::number_at(s, i) matches Ok((value, _)) ==> value is Int || value is Float,
{
}

proof fn lemma_members_make_object(
    s: Seq<char>,
    i: int,
    depth: nat,
    done: Seq<(Seq<char>, Json)>,
)
    requires
        0 <= i <= s.len(),
    ensures
        grammar::members_at(s, i, depth, done) matches Ok((value, _)) ==> value is Object,
    decreases s.len() - i,
{
    if i < s.len() && s[i] == '"' {
        grammar::lemma_string_at(s, i + 1, Seq::empty());
        if let Ok((key, after_key)) = grammar::string_at(s, i + 1, Seq::empty()) {
            grammar::lemma_skip_space(s, after_key);
            let colon = grammar::skip_space(s, after_key);
            if colon < s.len() && s[colon] == ':' {
                grammar::lemma_skip_space(s, colon + 1);
                let from = grammar::skip_space(s, colon + 1);
                grammar::lemma_value_at(s, from, depth);
                if let Ok((value, j)) = grammar::value_at(s, from, depth) {
                    grammar::lemma_skip_space(s, j);
                    let k = grammar::skip_space(s, j);
                    if k < s.len() && s[k] == ',' {
                        grammar::lemma_skip_space(s, k + 1);
                        lemma_members_make_object(
                            s,
                            grammar::skip_space(s, k + 1),
                            depth,
                            done.push((key, value)),
                        );
                    }
                }
            }
        }
    }
}

/// Where a member stands: its key from `open` to `shut`, its value from `from`
/// to `to`.
pub struct Span {
    pub open: int,
    pub shut: int,
    pub from: int,
    pub to: int,
}

/// Whether a member stands where the span says: a string, a colon and a value.
pub open spec fn is_member(
    s: Seq<char>,
    depth: nat,
    member: (Seq<char>, Json),
    span: Span,
) -> bool {
    &&& 0 <= span.open < s.len()
    &&& s[span.open] == '"'
    &&& grammar::string_at(s, span.open + 1, Seq::empty()) == Ok::<(Seq<char>, int), Fault>(
        (member.0, span.shut),
    )
    &&& only(s, ':', span.shut, span.from)
    &&& grammar::value_at(s, span.from, depth) == Ok::<(Json, int), Fault>((member.1, span.to))
}

/// Whether members stand one after the other where the spans say, with one
/// comma between two of them.
pub open spec fn are_members(
    s: Seq<char>,
    depth: nat,
    members: Seq<(Seq<char>, Json)>,
    spans: Seq<Span>,
) -> bool {
    &&& spans.len() == members.len()
    &&& forall|k: int|
        0 <= k < spans.len() ==> is_member(s, depth, members[k], #[trigger] spans[k])
    &&& forall|k: int, m: int|
        #![trigger spans[k], spans[m]]
        0 <= k < spans.len() && m == k + 1 && m < spans.len() ==> only(
            s,
            ',',
            spans[k].to,
            spans[m].open,
        )
}

/// The rest of an object from the member at `i` on.
#[verifier::opaque]
spec fn members_from(
    s: Seq<char>,
    i: int,
    depth: nat,
    done: Seq<(Seq<char>, Json)>,
) -> Result<(Json, int), Fault> {
    grammar::members_at(s, i, depth, done)
}

/// What reading a member gives, and what follows it.
proof fn lemma_member_read(s: Seq<char>, i: int, depth: nat, done: Seq<(Seq<char>, Json)>) -> (r: (
    (Seq<char>, Json),
    Span,
    int,
))
    requires
        0 <= i <= s.len(),
        members_from(s, i, depth, done) is Ok,
    ensures
        is_member(s, depth, r.0, r.1),
        r.1.open == i,
        i < r.1.to <= r.2 < s.len(),
        spaces(s, r.1.to, r.2),
        s[r.2] == '}' || s[r.2] == ',',
        s[r.2] == '}' ==> members_from(s, i, depth, done) == Ok::<(Json, int), Fault>(
            (Json::Object(done.push(r.0)), r.2 + 1),
        ),
        s[r.2] == ',' ==> members_from(s, i, depth, done) == members_from(
            s,
            grammar::skip_space(s, r.2 + 1),
            depth,
            done.push(r.0),
        ),
{
    reveal(members_from);
    grammar::lemma_string_at(s, i + 1, Seq::empty());
    let (key, shut) = grammar::string_at(s, i + 1, Seq::empty())->Ok_0;
    grammar::lemma_skip_space(s, shut);
    lemma_skipped(s, shut);
    let colon = grammar::skip_space(s, shut);
    grammar::lemma_skip_space(s, colon + 1);
    lemma_skipped(s, colon + 1);
    let from = grammar::skip_space(s, colon + 1);
    grammar::lemma_value_at(s, from, depth);
    let (value, to) = grammar::value_at(s, from, depth)->Ok_0;
    grammar::lemma_skip_space(s, to);
    lemma_skipped(s, to);
    let k = grammar::skip_space(s, to);
    assert(only(s, ':', shut, from)) by {
        assert(s[colon] == ':');
    }
    ((key, value), Span { open: i, shut, from, to }, k)
}

proof fn lemma_members_cons(
    s: Seq<char>,
    depth: nat,
    member: (Seq<char>, Json),
    span: Span,
    rest: Seq<(Seq<char>, Json)>,
    more: Seq<Span>,
)
    requires
        is_member(s, depth, member, span),
        are_members(s, depth, rest, more),
        rest.len() > 0,
        only(s, ',', span.to, more[0].open),
    ensures
        are_members(s, depth, seq![member] + rest, seq![span] + more),
{
    let members = seq![member] + rest;
    let spans = seq![span] + more;
    assert forall|a: int, b: int|
        #![trigger spans[a], spans[b]]
        0 <= a < spans.len() && b == a + 1 && b < spans.len() implies only(
        s,
        ',',
        spans[a].to,
        spans[b].open,
    ) by {
        if a > 0 {
            assert(spans[a] == more[a - 1] && spans[b] == more[b - 1]);
        }
    }
    assert forall|a: int| 0 <= a < spans.len() implies is_member(
        s,
        depth,
        members[a],
        #[trigger] spans[a],
    ) by {
        if a > 0 {
            assert(spans[a] == more[a - 1]);
        }
    }
}

#[verifier::rlimit(30)]
proof fn lemma_members_have_spans(
    s: Seq<char>,
    i: int,
    depth: nat,
    done: Seq<(Seq<char>, Json)>,
) -> (r: (Seq<(Seq<char>, Json)>, Seq<Span>))
    requires
        0 <= i <= s.len(),
        members_from(s, i, depth, done) is Ok,
    ensures
        are_members(s, depth, r.0, r.1),
        r.0.len() > 0,
        r.1[0].open == i,
        ends_with_brace(s, i, r.1, members_from(s, i, depth, done)->Ok_0.1),
        members_from(s, i, depth, done)->Ok_0.0 == Json::Object(done + r.0),
    decreases s.len() - i,
{
    let (member, span, k) = lemma_member_read(s, i, depth, done);
    let all = done.push(member);
    if s[k] == '}' {
        let members = seq![member];
        let spans = seq![span];
        assert(done + members =~= all);
        (members, spans)
    } else {
        let next = lemma_comma(s, span.to, k);
        let (rest, more) = lemma_members_have_spans(s, next, depth, all);
        lemma_members_cons(s, depth, member, span, rest, more);
        let members = seq![member] + rest;
        let spans = seq![span] + more;
        assert(done + members =~= all + rest);
        assert(spans.last() == more.last());
        (members, spans)
    }
}

/// Whether there is white space from the last member to the brace that ends an
/// object.
spec fn ends_with_brace(s: Seq<char>, i: int, spans: Seq<Span>, j: int) -> bool {
    &&& spaces(s, spans.last().to, j - 1)
    &&& i < j - 1 < s.len()
    &&& s[j - 1] == '}'
}

/// A comma after white space, and the white space after it.
proof fn lemma_comma(s: Seq<char>, from: int, k: int) -> (next: int)
    requires
        spaces(s, from, k),
        k < s.len(),
        s[k] == ',',
    ensures
        next == grammar::skip_space(s, k + 1),
        only(s, ',', from, next),
        k < next <= s.len(),
{
    grammar::lemma_skip_space(s, k + 1);
    lemma_skipped(s, k + 1);
    grammar::skip_space(s, k + 1)
}

/// A member that stands where a span says is read, and what follows it.
proof fn lemma_member_reads(
    s: Seq<char>,
    depth: nat,
    done: Seq<(Seq<char>, Json)>,
    member: (Seq<char>, Json),
    span: Span,
    k: int,
)
    requires
        is_member(s, depth, member, span),
        spaces(s, span.to, k),
        k < s.len(),
        s[k] == '}' || s[k] == ',',
    ensures
        s[k] == '}' ==> members_from(s, span.open, depth, done) == Ok::<
            (Json, int),
            Fault,
        >((Json::Object(done.push(member)), k + 1)),
        s[k] == ',' ==> members_from(s, span.open, depth, done) == members_from(
            s,
            grammar::skip_space(s, k + 1),
            depth,
            done.push(member),
        ),
        span.open < span.to,
{
    reveal(members_from);
    grammar::lemma_string_at(s, span.open + 1, Seq::empty());
    let colon = choose|colon: int|
        #![trigger s[colon]]
        span.shut <= colon < span.from && s[colon] == ':' && spaces(s, span.shut, colon)
            && spaces(s, colon + 1, span.from);
    lemma_skips(s, span.shut, colon);
    lemma_value_is_solid(s, span.from, depth);
    lemma_skips(s, colon + 1, span.from);
    grammar::lemma_value_at(s, span.from, depth);
    lemma_skips(s, span.to, k);
}

#[verifier::rlimit(30)]
proof fn lemma_spans_are_members(
    s: Seq<char>,
    depth: nat,
    done: Seq<(Seq<char>, Json)>,
    members: Seq<(Seq<char>, Json)>,
    spans: Seq<Span>,
    to: int,
)
    requires
        are_members(s, depth, members, spans),
        members.len() > 0,
        spaces(s, spans.last().to, to),
        to < s.len(),
        s[to] == '}',
    ensures
        members_from(s, spans[0].open, depth, done) == Ok::<(Json, int), Fault>(
            (Json::Object(done + members), to + 1),
        ),
    decreases members.len(),
{
    let span = spans[0];
    let all = done.push(members[0]);
    assert(is_member(s, depth, members[0], spans[0]));
    if members.len() == 1 {
        assert(spans.last() == span);
        lemma_member_reads(s, depth, done, members[0], span, to);
        assert(done + members =~= all);
    } else {
        let rest = members.drop_first();
        let more = spans.drop_first();
        let next = spans[1].open;
        assert(only(s, ',', spans[0].to, spans[1].open));
        let k = lemma_comma_at(s, span.to, next);
        lemma_member_reads(s, depth, done, members[0], span, k);
        assert(is_member(s, depth, members[1], spans[1]));
        lemma_skips(s, k + 1, next);
        lemma_members_rest(s, depth, members, spans);
        assert(more.last() == spans.last());
        lemma_spans_are_members(s, depth, all, rest, more, to);
        assert(all + rest =~= done + members);
    }
}

/// The members after the first stand where the other spans say.
proof fn lemma_members_rest(
    s: Seq<char>,
    depth: nat,
    members: Seq<(Seq<char>, Json)>,
    spans: Seq<Span>,
)
    requires
        are_members(s, depth, members, spans),
        members.len() > 0,
    ensures
        are_members(s, depth, members.drop_first(), spans.drop_first()),
{
    let rest = members.drop_first();
    let more = spans.drop_first();
    assert forall|a: int, b: int|
        #![trigger more[a], more[b]]
        0 <= a < more.len() && b == a + 1 && b < more.len() implies only(
        s,
        ',',
        more[a].to,
        more[b].open,
    ) by {
        assert(more[a] == spans[a + 1] && more[b] == spans[b + 1]);
    }
    assert forall|a: int| 0 <= a < more.len() implies is_member(
        s,
        depth,
        rest[a],
        #[trigger] more[a],
    ) by {
        assert(more[a] == spans[a + 1]);
    }
}

/// Where a comma stands that is all but white space.
proof fn lemma_comma_at(s: Seq<char>, from: int, to: int) -> (k: int)
    requires
        only(s, ',', from, to),
    ensures
        from <= k < to <= s.len(),
        0 <= k,
        s[k] == ',',
        spaces(s, from, k),
        spaces(s, k + 1, to),
{
    choose|k: int|
        #![trigger s[k]]
        from <= k < to && s[k] == ',' && spaces(s, from, k) && spaces(s, k + 1, to)
}

/// Whether a text is an object with members from one position to another:
/// braces around the members, white space anywhere between.
pub open spec fn is_object(
    s: Seq<char>,
    i: int,
    depth: nat,
    members: Seq<(Seq<char>, Json)>,
    j: int,
) -> bool {
    &&& 0 <= i < j - 1 < s.len()
    &&& s[i] == '{'
    &&& s[j - 1] == '}'
    &&& members.len() == 0 ==> spaces(s, i + 1, j - 1)
    &&& members.len() > 0 ==> exists|spans: Seq<Span>| #[trigger]
        are_members(s, depth, members, spans) && spaces(s, i + 1, spans[0].open) && spaces(
            s,
            spans.last().to,
            j - 1,
        )
}

/// An object is its members between braces, each a string, a colon and a value,
/// with exactly one comma between two of them and none elsewhere. White space
/// may stand around each.
pub proof fn law_objects_are_members_between_commas(
    s: Seq<char>,
    i: int,
    depth: nat,
    members: Seq<(Seq<char>, Json)>,
    j: int,
)
    requires
        0 <= i <= s.len(),
    ensures
        grammar::value_at(s, i, depth + 1) == Ok::<(Json, int), Fault>((Json::Object(members), j))
            <==> is_object(s, i, depth, members, j),
{
    if grammar::value_at(s, i, depth + 1) == Ok::<(Json, int), Fault>(
        (Json::Object(members), j),
    ) {
        lemma_object_read(s, i, depth, members, j);
    }
    if is_object(s, i, depth, members, j) {
        lemma_object_reads(s, i, depth, members, j);
    }
}

proof fn lemma_object_opens(s: Seq<char>, i: int, depth: nat)
    requires
        0 <= i < s.len(),
        s[i] == '{',
    ensures
        ({
            let first = grammar::skip_space(s, i + 1);
            grammar::value_at(s, i, depth + 1) == if first < s.len() && s[first] == '}' {
                Ok::<(Json, int), Fault>((Json::Object(Seq::empty()), first + 1))
            } else {
                grammar::members_at(s, first, depth, Seq::empty())
            }
        }),
{
}

proof fn lemma_object_starts(
    s: Seq<char>,
    i: int,
    depth: nat,
    members: Seq<(Seq<char>, Json)>,
    j: int,
)
    requires
        0 <= i <= s.len(),
        grammar::value_at(s, i, depth + 1) == Ok::<(Json, int), Fault>(
            (Json::Object(members), j),
        ),
    ensures
        i < s.len(),
        s[i] == '{',
{
    lemma_number_is_number(s, i);
    if i < s.len() && s[i] == '[' {
        grammar::lemma_skip_space(s, i + 1);
        lemma_items_have_spans(s, grammar::skip_space(s, i + 1), depth, Seq::empty());
    }
}

#[verifier::rlimit(30)]
proof fn lemma_object_read(
    s: Seq<char>,
    i: int,
    depth: nat,
    members: Seq<(Seq<char>, Json)>,
    j: int,
)
    requires
        0 <= i <= s.len(),
        grammar::value_at(s, i, depth + 1) == Ok::<(Json, int), Fault>(
            (Json::Object(members), j),
        ),
    ensures
        is_object(s, i, depth, members, j),
{
    lemma_object_starts(s, i, depth, members, j);
    lemma_object_opens(s, i, depth);
    grammar::lemma_skip_space(s, i + 1);
    lemma_skipped(s, i + 1);
    let first = grammar::skip_space(s, i + 1);
    let none = Seq::<(Seq<char>, Json)>::empty();
    if first < s.len() && s[first] == '}' {
        assert(members =~= none);
    } else {
        reveal(members_from);
        let (all, spans) = lemma_members_have_spans(s, first, depth, none);
        assert(none + all =~= all);
        assert(are_members(s, depth, members, spans));
    }
}

#[verifier::rlimit(30)]
proof fn lemma_object_reads(
    s: Seq<char>,
    i: int,
    depth: nat,
    members: Seq<(Seq<char>, Json)>,
    j: int,
)
    requires
        is_object(s, i, depth, members, j),
    ensures
        grammar::value_at(s, i, depth + 1) == Ok::<(Json, int), Fault>(
            (Json::Object(members), j),
        ),
{
    let none = Seq::<(Seq<char>, Json)>::empty();
    lemma_object_opens(s, i, depth);
    if members.len() == 0 {
        lemma_skips(s, i + 1, j - 1);
        assert(members =~= none);
    } else {
        let spans = choose|spans: Seq<Span>| #[trigger]
            are_members(s, depth, members, spans) && spaces(s, i + 1, spans[0].open) && spaces(
                s,
                spans.last().to,
                j - 1,
            );
        let first = spans[0].open;
        assert(is_member(s, depth, members[0], spans[0]));
        lemma_skips(s, i + 1, first);
        reveal(members_from);
        lemma_spans_are_members(s, depth, none, members, spans, j - 1);
        assert(none + members =~= members);
    }
}

/// A string ends at the first quote that no backslash is before, and holds no
/// control character. Characters other than backslashes stand for themselves.
pub proof fn law_plain_strings_stand_for_themselves(
    s: Seq<char>,
    i: int,
    plain: Seq<char>,
)
    requires
        0 <= i,
        i + plain.len() < s.len(),
        s.subrange(i, i + plain.len()) == plain,
        s[i + plain.len()] == '"',
        forall|k: int|
            0 <= k < plain.len() ==> (#[trigger] plain[k]) != '"' && plain[k] != '\\' && plain[k]
                as u32 >= 0x20,
    ensures
        grammar::string_at(s, i, Seq::empty()) == Ok::<(Seq<char>, int), Fault>(
            (plain, i + plain.len() + 1),
        ),
{
    lemma_plain_string(s, i, Seq::empty(), plain);
    assert(Seq::<char>::empty() + plain =~= plain);
}

proof fn lemma_plain_string(s: Seq<char>, i: int, done: Seq<char>, plain: Seq<char>)
    requires
        0 <= i,
        i + plain.len() < s.len(),
        s.subrange(i, i + plain.len()) == plain,
        s[i + plain.len()] == '"',
        forall|k: int|
            0 <= k < plain.len() ==> (#[trigger] plain[k]) != '"' && plain[k] != '\\' && plain[k]
                as u32 >= 0x20,
    ensures
        grammar::string_at(s, i, done) == Ok::<(Seq<char>, int), Fault>(
            (done + plain, i + plain.len() + 1),
        ),
    decreases plain.len(),
{
    if plain.len() == 0 {
        assert(done + plain =~= done);
    } else {
        let rest = plain.drop_first();
        assert(plain[0] == s[i]);
        assert(s.subrange(i + 1, i + 1 + rest.len()) =~= rest) by {
            assert(s.subrange(i, i + plain.len()).drop_first() =~= s.subrange(
                i + 1,
                i + plain.len(),
            ));
        }
        assert forall|k: int| 0 <= k < rest.len() implies (#[trigger] rest[k]) != '"' && rest[k]
            != '\\' && rest[k] as u32 >= 0x20 by {
            assert(rest[k] == plain[k + 1]);
        }
        lemma_plain_string(s, i + 1, done.push(plain[0]), rest);
        assert(done.push(plain[0]) + rest =~= done + plain);
    }
}

/// No string holds a control character that is not escaped.
pub proof fn law_strings_hold_no_control_characters(s: Seq<char>, i: int, done: Seq<char>)
    requires
        0 <= i <= s.len(),
    ensures
        grammar::string_at(s, i, done) matches Ok((_, j)) ==> i < j <= s.len() && s[j - 1] == '"'
            && forall|k: int| i <= k < j ==> (#[trigger] s[k]) as u32 >= 0x20,
    decreases s.len() - i,
{
    if i < s.len() && s[i] != '"' {
        if s[i] == '\\' {
            if let Some((c, e)) = grammar::escape_at(s, i) {
                law_strings_hold_no_control_characters(s, e, done.push(c));
                if let Ok((_, j)) = grammar::string_at(s, i, done) {
                    assert forall|k: int| i <= k < j implies (#[trigger] s[k]) as u32 >= 0x20 by {
                        if k < e {
                            lemma_escape_is_solid(s, i, k);
                        }
                    }
                }
            }
        } else {
            law_strings_hold_no_control_characters(s, i + 1, done.push(s[i]));
        }
    }
}

proof fn lemma_escape_is_solid(s: Seq<char>, i: int, k: int)
    requires
        0 <= i < s.len(),
        s[i] == '\\',
        grammar::escape_at(s, i) matches Some((_, e)) && i <= k < e,
    ensures
        s[k] as u32 >= 0x20,
{
}

/// Whether a text is a value from one position to another, and white space
/// else.
pub open spec fn is_value_alone(s: Seq<char>, i: int, value: Json, j: int) -> bool {
    &&& spaces(s, 0, i)
    &&& spaces(s, j, s.len() as int)
    &&& grammar::value_at(s, i, 512) == Ok::<(Json, int), Fault>((value, j))
}

/// A document is one value with white space around it, which nests no more than
/// 512 levels deep.
pub proof fn law_documents_are_one_value(s: Seq<char>, value: Json)
    ensures
        grammar::document(s) == Ok::<Json, Fault>(value) <==> exists|i: int, j: int|
            is_value_alone(s, i, value, j),
{
    grammar::lemma_skip_space(s, 0);
    lemma_skipped(s, 0);
    let from = grammar::skip_space(s, 0);
    grammar::lemma_value_at(s, from, 512);
    if let Ok((found, end)) = grammar::value_at(s, from, 512) {
        grammar::lemma_skip_space(s, end);
        lemma_skipped(s, end);
        if grammar::document(s) == Ok::<Json, Fault>(value) {
            assert(is_value_alone(s, from, value, end));
        }
    }
    if exists|i: int, j: int| is_value_alone(s, i, value, j) {
        let (i, j) = choose|i: int, j: int| is_value_alone(s, i, value, j);
        lemma_value_is_solid(s, i, 512);
        lemma_skips(s, 0, i);
        lemma_skips(s, j, s.len() as int);
    }
}

proof fn lemma_digits(s: Seq<char>, i: int)
    requires
        0 <= i <= s.len(),
    ensures
        i <= grammar::digits_end(s, i) <= s.len(),
        forall|k: int| i <= k < grammar::digits_end(s, i) ==> text::is_digit(#[trigger] s[k]),
        grammar::digits_end(s, i) < s.len() ==> !text::is_digit(s[grammar::digits_end(s, i)]),
    decreases s.len() - i,
{
    if i < s.len() && text::is_digit(s[i]) {
        lemma_digits(s, i + 1);
    }
}

/// Whether the character at a position may stand there in a number that starts
/// at `first`: a digit anywhere, a point between digits, an exponent mark behind
/// a digit, and a sign behind an exponent mark.
pub open spec fn fits_number(s: Seq<char>, first: int, k: int, end: int) -> bool {
    ||| text::is_digit(s[k])
    ||| first < k < end - 1 && s[k] == '.' && text::is_digit(s[k - 1]) && text::is_digit(s[k + 1])
    ||| first < k < end - 1 && (s[k] == 'e' || s[k] == 'E') && text::is_digit(s[k - 1])
    ||| first < k < end - 1 && (s[k] == '+' || s[k] == '-') && (s[k - 1] == 'e' || s[k - 1] == 'E')
        && text::is_digit(s[k + 1])
}

/// A number is digits, with a minus sign before them or not, without a leading
/// zero, with a point and an exponent where they may stand. It is an integer
/// exactly if it has no other characters than digits and fits an `i64`; then it
/// is the number that the digits stand for.
pub proof fn law_numbers_have_their_shape(s: Seq<char>, i: int)
    requires
        0 <= i < s.len(),
    ensures
        grammar::number_at(s, i) matches Ok((value, j)) ==> {
            let first = if s[i] == '-' {
                i + 1
            } else {
                i
            };
            let digits = s.subrange(first, j);
            let n = if s[i] == '-' {
                -(text::numeral(digits) as int)
            } else {
                text::numeral(digits) as int
            };
            &&& first < j <= s.len()
            &&& text::is_digit(s[first]) && text::is_digit(s[j - 1])
            &&& s[first] == '0' && first + 1 < j ==> !text::is_digit(s[first + 1])
            &&& forall|k: int|
                first <= k < j ==> #[trigger] fits_number(s, first, k, j)
            &&& value is Int || value is Float
            &&& value is Int <==> text::all_digits(digits) && i64::MIN <= n <= i64::MAX
            &&& value matches Json::Int(m) ==> m == n
        },
{
    if let Ok((value, j)) = grammar::number_at(s, i) {
        let a = if s[i] == '-' {
            i + 1
        } else {
            i
        };
        lemma_digits(s, a);
        let b = if a < s.len() && s[a] == '0' {
            a + 1
        } else {
            grammar::digits_end(s, a)
        };
        if b < s.len() {
            lemma_digits(s, b + 1);
        }
        let c = if b < s.len() && s[b] == '.' {
            grammar::digits_end(s, b + 1)
        } else {
            b
        };
        if c < s.len() {
            lemma_digits(s, c + 1);
            if c + 1 < s.len() {
                lemma_digits(s, c + 2);
            }
        }
        let digits = s.subrange(a, j);
        assert(text::is_digit(s[a]));
        if b < j {
            assert(!text::is_digit(s[b]));
            assert(digits[b - a] == s[b]);
            assert(!text::all_digits(digits));
        } else {
            assert forall|k: int| 0 <= k < digits.len() implies text::is_digit(
                #[trigger] digits[k],
            ) by {
                assert(digits[k] == s[a + k]);
            }
        }
        assert forall|k: int| a <= k < j implies #[trigger] fits_number(s, a, k, j) by {}
    }
}

/// Whether a word stands at a position.
pub open spec fn has(s: Seq<char>, i: int, word: Seq<char>) -> bool {
    &&& i + word.len() <= s.len()
    &&& s.subrange(i, i + word.len()) == word
}

/// A string is what stands between quotes, and nothing nests deeper than
/// allowed.
pub proof fn law_strings_stand_between_quotes(s: Seq<char>, i: int, depth: nat)
    requires
        0 <= i < s.len(),
    ensures
        s[i] == '"' ==> grammar::value_at(s, i, depth) == (match grammar::string_at(
            s,
            i + 1,
            Seq::empty(),
        ) {
            Ok((found, j)) => Ok::<(Json, int), Fault>((Json::Str(found), j)),
            Err(fault) => Err(fault),
        }),
        s[i] != '"' ==> !(grammar::value_at(s, i, depth) matches Ok((Json::Str(_), _))),
        s[i] == '[' || s[i] == '{' ==> grammar::value_at(s, i, 0) == Err::<(Json, int), Fault>(
            (Fault { at: i, kind: ErrorKind::TooDeep }),
        ),
{
    lemma_number_is_number(s, i);
    if depth > 0 && s[i] == '[' {
        grammar::lemma_skip_space(s, i + 1);
        lemma_items_have_spans(
            s,
            grammar::skip_space(s, i + 1),
            (depth - 1) as nat,
            Seq::empty(),
        );
    }
    if depth > 0 && s[i] == '{' {
        grammar::lemma_skip_space(s, i + 1);
        lemma_members_make_object(
            s,
            grammar::skip_space(s, i + 1),
            (depth - 1) as nat,
            Seq::empty(),
        );
    }
}

/// Four hexadecimal digits after `\\u` stand for the character with that code,
/// or are half of a surrogate pair, which stands for one character beyond the
/// basic plane. Half a pair alone stands for nothing.
pub proof fn law_unicode_escapes_stand_for_their_codes(
    s: Seq<char>,
    i: int,
    unit: u32,
    low: u32,
)
    requires
        0 <= i,
        i + 6 <= s.len(),
        s[i + 1] == 'u',
        grammar::hex4_at(s, i + 2) == Some(unit),
    ensures
        unit < 0xd800 || unit >= 0xe000 ==> grammar::escape_at(s, i) == Some(
            (unit as char, i + 6),
        ),
        0xdc00 <= unit < 0xe000 ==> grammar::escape_at(s, i) is None,
        0xd800 <= unit < 0xdc00 && !(i + 12 <= s.len() && s[i + 6] == '\\' && s[i + 7] == 'u')
            ==> grammar::escape_at(s, i) is None,
        0xd800 <= unit < 0xdc00 && i + 12 <= s.len() && s[i + 6] == '\\' && s[i + 7] == 'u'
            && grammar::hex4_at(s, i + 8) == Some(low) ==> grammar::escape_at(s, i) == (if 0xdc00
            <= low < 0xe000 {
            Some(((0x10000 + (unit - 0xd800) * 0x400 + (low - 0xdc00)) as u32 as char, i + 12))
        } else {
            None
        }),
{
}

/// The words `true`, `false` and `null` stand for their values.
pub proof fn law_words_stand_for_their_values(s: Seq<char>, i: int, depth: nat)
    requires
        0 <= i < s.len(),
    ensures
        has(s, i, seq!['t', 'r', 'u', 'e']) ==> grammar::value_at(s, i, depth) == Ok::<
            (Json, int),
            Fault,
        >((Json::Bool(true), i + 4)),
        has(s, i, seq!['f', 'a', 'l', 's', 'e']) ==> grammar::value_at(s, i, depth)
            == Ok::<(Json, int), Fault>((Json::Bool(false), i + 5)),
        has(s, i, seq!['n', 'u', 'l', 'l']) ==> grammar::value_at(s, i, depth) == Ok::<
            (Json, int),
            Fault,
        >((Json::Null, i + 4)),
        grammar::value_at(s, i, depth) matches Ok((Json::Bool(true), _)) ==> has(
            s,
            i,
            seq!['t', 'r', 'u', 'e'],
        ),
        grammar::value_at(s, i, depth) matches Ok((Json::Bool(false), _)) ==> has(
            s,
            i,
            seq!['f', 'a', 'l', 's', 'e'],
        ),
        grammar::value_at(s, i, depth) matches Ok((Json::Null, _)) ==> has(
            s,
            i,
            seq!['n', 'u', 'l', 'l'],
        ),
{
    reveal_strlit("true");
    reveal_strlit("false");
    reveal_strlit("null");
    assert("true"@ =~= seq!['t', 'r', 'u', 'e']);
    assert("false"@ =~= seq!['f', 'a', 'l', 's', 'e']);
    assert("null"@ =~= seq!['n', 'u', 'l', 'l']);
    if i + 4 <= s.len() {
        assert(s.subrange(i, i + 4)[0] == s[i]);
    }
    if i + 5 <= s.len() {
        assert(s.subrange(i, i + 5)[0] == s[i]);
    }
    lemma_number_is_number(s, i);
    if depth > 0 && s[i] == '[' {
        grammar::lemma_skip_space(s, i + 1);
        lemma_items_have_spans(
            s,
            grammar::skip_space(s, i + 1),
            (depth - 1) as nat,
            Seq::empty(),
        );
    }
    if depth > 0 && s[i] == '{' {
        grammar::lemma_skip_space(s, i + 1);
        lemma_members_make_object(
            s,
            grammar::skip_space(s, i + 1),
            (depth - 1) as nat,
            Seq::empty(),
        );
    }
}

/// What hexadecimal digits and escapes of one letter stand for.
pub proof fn law_escapes_stand_for_their_characters(c: char)
    ensures
        grammar::hex_value(c) == (if '0' <= c <= '9' {
            Some((c as u32 - 48) as u32)
        } else if 'a' <= c <= 'f' {
            Some((c as u32 - 87) as u32)
        } else if 'A' <= c <= 'F' {
            Some((c as u32 - 55) as u32)
        } else {
            None
        }),
        grammar::short_escape('"') == Some('"'),
        grammar::short_escape('\\') == Some('\\'),
        grammar::short_escape('/') == Some('/'),
        grammar::short_escape('b') == Some('\x08'),
        grammar::short_escape('f') == Some('\x0c'),
        grammar::short_escape('n') == Some('\n'),
        grammar::short_escape('r') == Some('\r'),
        grammar::short_escape('t') == Some('\t'),
        c != '"' && c != '\\' && c != '/' && c != 'b' && c != 'f' && c != 'n' && c != 'r' && c != 't'
            ==> grammar::short_escape(c) is None,
{
}

} // verus!
