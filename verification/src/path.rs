//! Field paths: the `meta.source` / `messages[].role` selector syntax.
//!
//! A path names a location inside a JSON record without a full query
//! language. It is a dotted chain of object keys, each optionally followed by
//! one or more `[...]` array selectors: `[N]` for a fixed index (negative
//! counts from the end), or `[]` to fan out over every element. A path may
//! also start with a bare `[N]` for records that are themselves arrays.

use vstd::prelude::*;

use crate::json;
use crate::json::Json;
use crate::json::Value;
use crate::text;
use crate::text::characters;
use crate::text::excerpt;
use crate::text::read_integer;

verus! {

/// One step of a [`FieldPath`].
#[derive(Debug, PartialEq, Eq)]
pub enum Segment {
    /// An object member, by name.
    Key(String),
    /// A single array element. Negative indices count from the end, so `-1`
    /// is the last element.
    Index(i64),
    /// Every element of an array.
    All,
}

/// What a [`Segment`] stands for.
pub enum Step {
    Key(Seq<char>),
    Index(i64),
    All,
}

impl View for Segment {
    type V = Step;

    open spec fn view(&self) -> Step {
        match self {
            Segment::Key(key) => Step::Key(key@),
            Segment::Index(index) => Step::Index(*index),
            Segment::All => Step::All,
        }
    }
}

/// What the segments of a path stand for.
pub open spec fn steps_of(segments: Seq<Segment>) -> Seq<Step> {
    segments.map_values(|segment: Segment| segment@)
}

/// Why a text is no field path.
pub enum PathFault {
    Empty,
    EmptySegment,
    UnexpectedClose,
    ExpectedOpen,
    Unterminated,
    InvalidIndex(Seq<char>),
}

/// The message for a fault in the path text `full`.
pub open spec fn message_of(fault: PathFault, full: Seq<char>) -> Seq<char> {
    match fault {
        PathFault::Empty => "field path is empty"@,
        PathFault::EmptySegment => "empty segment in '"@ + full + seq!['\''],
        PathFault::UnexpectedClose => "unexpected ']' in '"@ + full + seq!['\''],
        PathFault::ExpectedOpen => "expected '[' in '"@ + full + seq!['\''],
        PathFault::Unterminated => "unterminated '[' in '"@ + full + seq!['\''],
        PathFault::InvalidIndex(inner) => "invalid array index '"@ + inner + "' in '"@ + full
            + seq!['\''],
    }
}

/// The first position from `i` on that holds `c`, or the length if none does.
pub open spec fn find(s: Seq<char>, c: char, i: int) -> int
    decreases s.len() - i,
{
    if 0 <= i < s.len() && s[i] != c {
        find(s, c, i + 1)
    } else if i < 0 || i >= s.len() {
        s.len() as int
    } else {
        i
    }
}

/// `find` stays between its start and the end.
pub proof fn lemma_find(s: Seq<char>, c: char, i: int)
    requires
        0 <= i <= s.len(),
    ensures
        i <= find(s, c, i) <= s.len(),
        find(s, c, i) < s.len() ==> s[find(s, c, i)] == c,
        forall|k: int| i <= k < find(s, c, i) ==> s[k] != c,
    decreases s.len() - i,
{
    if i < s.len() && s[i] != c {
        lemma_find(s, c, i + 1);
    }
}

/// The texts between the dots of a path, from `start` on.
pub open spec fn parts_from(s: Seq<char>, start: int) -> Seq<Seq<char>>
    decreases s.len() - start,
{
    let dot = find(s, '.', start);
    if 0 <= start <= dot < s.len() {
        seq![s.subrange(start, dot)] + parts_from(s, dot + 1)
    } else {
        seq![s.subrange(start, s.len() as int)]
    }
}

/// The index that a bracketed text denotes: an optional sign and digits.
pub open spec fn index_of(inner: Seq<char>) -> Option<i64> {
    let signed = inner.len() > 0 && (inner[0] == '-' || inner[0] == '+');
    let digits = if signed {
        inner.skip(1)
    } else {
        inner
    };
    if digits.len() > 0 && text::all_digits(digits) {
        text::signed_numeral(inner[0] == '-', digits)
    } else {
        None
    }
}

/// The `[...]` groups of a part, from `i` on.
pub open spec fn groups_from(part: Seq<char>, i: int) -> Result<Seq<Step>, PathFault>
    decreases part.len() - i,
{
    if i >= part.len() {
        Ok(Seq::empty())
    } else if part[i] != '[' {
        Err(PathFault::ExpectedOpen)
    } else {
        let close = find(part, ']', i + 1);
        if !(i < close < part.len()) {
            Err(PathFault::Unterminated)
        } else {
            let inner = part.subrange(i + 1, close);
            let step = if inner.len() == 0 {
                Some(Step::All)
            } else {
                match index_of(inner) {
                    Some(index) => Some(Step::Index(index)),
                    None => None,
                }
            };
            match step {
                None => Err(PathFault::InvalidIndex(inner)),
                Some(step) => match groups_from(part, close + 1) {
                    Ok(rest) => Ok(seq![step] + rest),
                    Err(fault) => Err(fault),
                },
            }
        }
    }
}

/// The steps that one part denotes: a key, `[...]` groups, or both.
pub open spec fn part_steps(part: Seq<char>) -> Result<Seq<Step>, PathFault> {
    let open = find(part, '[', 0);
    let key = part.take(open);
    if part.len() == 0 {
        Err(PathFault::EmptySegment)
    } else if open == 0 {
        groups_from(part, 0)
    } else if key.contains(']') {
        Err(PathFault::UnexpectedClose)
    } else {
        match groups_from(part, open) {
            Ok(groups) => Ok(seq![Step::Key(key)] + groups),
            Err(fault) => Err(fault),
        }
    }
}

/// The steps that the parts denote one after the other, or the fault of the
/// first part that has one.
pub open spec fn all_steps(parts: Seq<Seq<char>>) -> Result<Seq<Step>, PathFault>
    decreases parts.len(),
{
    if parts.len() == 0 {
        Ok(Seq::empty())
    } else {
        match part_steps(parts[0]) {
            Err(fault) => Err(fault),
            Ok(first) => match all_steps(parts.drop_first()) {
                Err(fault) => Err(fault),
                Ok(rest) => Ok(first + rest),
            },
        }
    }
}

/// The steps that a path text denotes.
pub open spec fn path_steps(path: Seq<char>) -> Result<Seq<Step>, PathFault> {
    if path.len() == 0 {
        Err(PathFault::Empty)
    } else {
        all_steps(parts_from(path, 0))
    }
}

/// Why a field path failed to parse.
#[derive(Debug, Clone, PartialEq, Eq)]
pub struct PathError {
    message: String,
}

impl PathError {
    /// The message of this error.
    pub closed spec fn text(&self) -> Seq<char> {
        self.message@
    }

    fn new(message: String) -> (r: Self)
        ensures
            r.text() == message@,
    {
        PathError { message }
    }

    /// What is wrong with the path.
    pub fn message(&self) -> (r: &str)
        ensures
            r@ == self.text(),
    {
        self.message.as_str()
    }
}

/// A parsed field path, e.g. `messages[].role`.
#[derive(Debug, PartialEq, Eq)]
pub struct FieldPath {
    raw: String,
    segments: Vec<Segment>,
}

fn position(s: &[char], c: char, from: usize) -> (r: usize)
    requires
        from <= s@.len(),
    ensures
        r == find(s@, c, from as int),
        from <= r <= s@.len(),
{
    let mut i: usize = from;
    while i < s.len() && s[i] != c
        invariant
            from <= i <= s@.len(),
            find(s@, c, from as int) == find(s@, c, i as int),
        decreases s.len() - i,
    {
        i = i + 1;
    }
    i
}

fn quoting(before: &str, full: &str) -> (r: PathError)
    ensures
        r.text() == before@ + full@ + seq!['\''],
{
    let mut message = before.to_string();
    message.append(full);
    message.push('\'');
    assert(message@ =~= before@ + full@ + seq!['\'']);
    PathError::new(message)
}

fn parse_index(inner: &[char]) -> (r: Option<i64>)
    ensures
        r == index_of(inner@),
{
    if inner.len() == 0 {
        return None;
    }
    let from: usize = if inner[0] == '-' || inner[0] == '+' {
        1
    } else {
        0
    };
    let ghost digits = inner@.subrange(from as int, inner@.len() as int);
    assert(from == 0 ==> digits =~= inner@);
    assert(from == 1 ==> digits =~= inner@.skip(1));
    if inner.len() == from {
        return None;
    }
    let mut i: usize = from;
    while i < inner.len()
        invariant
            from <= i <= inner@.len(),
            digits == inner@.subrange(from as int, inner@.len() as int),
            digits.len() > 0,
            index_of(inner@) == (if text::all_digits(digits) {
                text::signed_numeral(inner@[0] == '-', digits)
            } else {
                None
            }),
            forall|k: int| from <= k < i ==> text::is_digit(#[trigger] inner@[k]),
        decreases inner.len() - i,
    {
        if inner[i] < '0' || inner[i] > '9' {
            assert(!text::is_digit(digits[i - from]));
            return None;
        }
        i = i + 1;
    }
    read_integer(inner, from, inner.len(), inner[0] == '-')
}

/// Parses one dot-separated part of the path `full`, and appends its steps.
fn parse_part(full: &str, part: &[char], segments: &mut Vec<Segment>) -> (r: Result<
    (),
    PathError,
>)
    ensures
        match (r, part_steps(part@)) {
            (Ok(_), Ok(steps)) => steps_of(final(segments)@) == steps_of(old(segments)@) + steps,
            (Err(e), Err(fault)) => e.text() == message_of(fault, full@),
            _ => false,
        },
        steps_of(old(segments)@).is_prefix_of(steps_of(final(segments)@)),
{
    let ghost before = steps_of(segments@);
    let key_end: usize = position(part, '[', 0);
    if key_end == 0 {
        if part.len() == 0 {
            return Err(quoting("empty segment in '", full));
        }
    } else {
        let close: usize = position(part, ']', 0);
        proof {
            text_contains_close(part@, key_end as int);
        }
        if close < key_end {
            return Err(quoting("unexpected ']' in '", full));
        }
        let key = excerpt(part, 0, key_end);
        assert(key@ =~= part@.take(key_end as int));
        segments.push(Segment::Key(key));
        assert(steps_of(segments@) =~= before.push(Step::Key(key@)));
    }
    let ghost keyed = steps_of(segments@);
    let mut i: usize = key_end;
    let ghost mut groups: Seq<Step> = Seq::empty();
    assert(steps_of(segments@) =~= keyed + groups);
    while i < part.len()
        invariant
            key_end <= i <= part@.len(),
            steps_of(segments@) == keyed + groups,
            match (groups_from(part@, key_end as int), groups_from(part@, i as int)) {
                (Ok(all), Ok(rest)) => all == groups + rest,
                (Err(a), Err(b)) => a == b,
                _ => false,
            },
            before == steps_of(old(segments)@),
            before.is_prefix_of(keyed),
            keyed == (if key_end == 0 {
                before
            } else {
                before.push(Step::Key(part@.take(key_end as int)))
            }),
            part@.len() > 0,
            key_end == find(part@, '[', 0),
            key_end > 0 ==> !part@.take(key_end as int).contains(']'),
        decreases part.len() - i,
    {
        assert(before.is_prefix_of(keyed + groups));
        if part[i] != '[' {
            return Err(quoting("expected '[' in '", full));
        }
        let close: usize = position(part, ']', i + 1);
        if close >= part.len() {
            return Err(quoting("unterminated '[' in '", full));
        }
        let inner: &[char] = vstd::slice::slice_subrange(part, i + 1, close);
        let segment = if inner.len() == 0 {
            Segment::All
        } else {
            match parse_index(inner) {
                Some(index) => Segment::Index(index),
                None => {
                    let inner_text = excerpt(inner, 0, inner.len());
                    assert(inner_text@ =~= inner@);
                    let mut message = "invalid array index '".to_string();
                    message.append(inner_text.as_str());
                    message.append("' in '");
                    return Err(quoting(message.as_str(), full));
                },
            }
        };
        let ghost step = segment@;
        let ghost prior = steps_of(segments@);
        segments.push(segment);
        proof {
            if let Ok(rest) = groups_from(part@, close + 1) {
                assert(groups + (seq![step] + rest) =~= groups.push(step) + rest);
            }
            assert(steps_of(segments@) =~= prior.push(step));
            assert(prior.push(step) =~= keyed + groups.push(step));
            groups = groups.push(step);
        }
        i = close + 1;
    }
    assert(groups + Seq::<Step>::empty() =~= groups);
    assert(keyed + groups =~= before + part_steps(part@)->Ok_0);
    Ok(())
}

proof fn text_contains_close(part: Seq<char>, end: int)
    requires
        0 <= end <= part.len(),
    ensures
        part.take(end).contains(']') <==> find(part, ']', 0) < end,
{
    lemma_find(part, ']', 0);
    let close = find(part, ']', 0);
    if close < end {
        assert(part.take(end)[close] == ']');
    }
}

/// What one step selects inside a value. A step that does not fit the value
/// selects nothing.
pub open spec fn step_into(value: Json, step: Step) -> Seq<Json> {
    match (step, value) {
        (Step::Key(key), Json::Object(members)) => match json::member(members, key) {
            Some(found) => seq![found],
            None => Seq::empty(),
        },
        (Step::Index(index), Json::Array(items)) => {
            let at = if index < 0 {
                items.len() + index
            } else {
                index as int
            };
            if 0 <= at < items.len() {
                seq![items[at]]
            } else {
                Seq::empty()
            }
        },
        (Step::All, Json::Array(items)) => items,
        _ => Seq::empty(),
    }
}

/// What one step selects inside several values, in their order.
pub open spec fn step_into_all(values: Seq<Json>, step: Step) -> Seq<Json>
    decreases values.len(),
{
    if values.len() == 0 {
        Seq::empty()
    } else {
        step_into_all(values.drop_last(), step) + step_into(values.last(), step)
    }
}

/// What the steps select one after the other, starting from several values.
pub open spec fn selected(values: Seq<Json>, steps: Seq<Step>) -> Seq<Json>
    decreases steps.len(),
{
    if steps.len() == 0 {
        values
    } else {
        selected(step_into_all(values, steps[0]), steps.drop_first())
    }
}

/// What references to values stand for.
pub open spec fn found_views(found: Seq<&Value>) -> Seq<Json> {
    found.map_values(|value: &Value| value@)
}

/// Whether all values are ones that a document can hold.
pub open spec fn all_plain(values: Seq<Json>) -> bool {
    forall|i: int| 0 <= i < values.len() ==> json::is_plain(#[trigger] values[i])
}

proof fn lemma_step_size(value: Json, step: Step)
    ensures
        json::item_nodes(step_into(value, step)) <= json::nodes(value),
        json::is_plain(value) ==> all_plain(step_into(value, step)),
{
    let found = step_into(value, step);
    match (step, value) {
        (Step::Key(key), Json::Object(members)) => {
            json::lemma_member(members, key);
            if let Some(one) = json::member(members, key) {
                let i = choose|i: int|
                    0 <= i < members.len() && (#[trigger] members[i]).0 == key && members[i].1
                        == one;
                json::lemma_member_nodes_at(members, i);
                if json::is_plain(value) {
                    json::lemma_plain_member(members, i);
                }
                assert(found.drop_last() =~= Seq::empty());
                assert(json::item_nodes(found.drop_last()) == 0);
            }
        },
        (Step::Index(index), Json::Array(items)) => {
            let at = if index < 0 {
                items.len() + index
            } else {
                index as int
            };
            if 0 <= at < items.len() {
                json::lemma_item_nodes_at(items, at);
                if json::is_plain(value) {
                    json::lemma_plain_item(items, at);
                }
                assert(found.drop_last() =~= Seq::empty());
                assert(json::item_nodes(found.drop_last()) == 0);
            }
        },
        (Step::All, Json::Array(items)) => {
            assert forall|i: int| json::is_plain(value) && 0 <= i < found.len() implies json::is_plain(
                #[trigger] found[i],
            ) by {
                json::lemma_plain_item(items, i);
            }
        },
        _ => {},
    }
}

proof fn lemma_step_all_size(values: Seq<Json>, step: Step)
    ensures
        json::item_nodes(step_into_all(values, step)) <= json::item_nodes(values),
        all_plain(values) ==> all_plain(step_into_all(values, step)),
    decreases values.len(),
{
    if values.len() > 0 {
        let init = values.drop_last();
        lemma_step_all_size(init, step);
        lemma_step_size(values.last(), step);
        json::lemma_item_nodes_concat(
            step_into_all(init, step),
            step_into(values.last(), step),
        );
        if all_plain(values) {
            assert(json::is_plain(values[values.len() - 1]));
            assert forall|i: int| 0 <= i < init.len() implies json::is_plain(
                #[trigger] init[i],
            ) by {
                assert(json::is_plain(values[i]));
            }
        }
    }
}

/// What a path selects is no larger than what it selects from, and plain if
/// that is.
pub proof fn lemma_selected_size(values: Seq<Json>, steps: Seq<Step>)
    ensures
        json::item_nodes(selected(values, steps)) <= json::item_nodes(values),
        selected(values, steps).len() <= json::item_nodes(values),
        all_plain(values) ==> all_plain(selected(values, steps)),
    decreases steps.len(),
{
    if steps.len() > 0 {
        lemma_step_all_size(values, steps[0]);
        lemma_selected_size(step_into_all(values, steps[0]), steps.drop_first());
    }
    json::lemma_item_nodes_len(selected(values, steps));
}

/// A path that goes on from where another ends selects, inside what the first
/// selects, what the second selects.
pub proof fn law_paths_compose(values: Seq<Json>, first: Seq<Step>, second: Seq<Step>)
    ensures
        selected(values, first + second) == selected(selected(values, first), second),
    decreases first.len(),
{
    if first.len() == 0 {
        assert(first + second =~= second);
    } else {
        assert((first + second).drop_first() =~= first.drop_first() + second);
        law_paths_compose(step_into_all(values, first[0]), first.drop_first(), second);
    }
}

/// A path without a fan-out names at most one value of a record.
pub proof fn law_one_value_without_fan_out(root: Json, steps: Seq<Step>)
    requires
        forall|i: int| 0 <= i < steps.len() ==> !((#[trigger] steps[i]) is All),
    ensures
        selected(seq![root], steps).len() <= 1,
{
    lemma_at_most_one(seq![root], steps);
}

proof fn lemma_at_most_one(values: Seq<Json>, steps: Seq<Step>)
    requires
        values.len() <= 1,
        forall|i: int| 0 <= i < steps.len() ==> !((#[trigger] steps[i]) is All),
    ensures
        selected(values, steps).len() <= 1,
    decreases steps.len(),
{
    if steps.len() > 0 {
        let step = steps[0];
        assert(!(step is All));
        if values.len() == 1 {
            assert(values.drop_last() =~= Seq::empty());
            assert(step_into_all(values.drop_last(), step) =~= Seq::empty());
        }
        assert forall|i: int| 0 <= i < steps.drop_first().len() implies !((
        #[trigger] steps.drop_first()[i]) is All) by {
            assert(!(steps[i + 1] is All));
        }
        lemma_at_most_one(step_into_all(values, step), steps.drop_first());
    }
}

/// Two texts joined by a dot are a path exactly if both are, and then denote
/// the steps of the one and then those of the other. A fault in either is a
/// fault of the whole, the first one counting; an empty side is an empty
/// segment of the whole.
pub proof fn law_dot_joins_paths(first: Seq<char>, second: Seq<char>)
    ensures
        path_steps(first + seq!['.'] + second) == match (path_steps(first), path_steps(second)) {
            (Ok(a), Ok(b)) => Ok::<Seq<Step>, PathFault>(a + b),
            (Err(fault), _) => Err(as_segment(fault)),
            (_, Err(fault)) => Err(as_segment(fault)),
        },
{
    lemma_parts_join(first, second, 0);
    lemma_all_steps_concat(parts_from(first, 0), parts_from(second, 0));
    lemma_as_segment(first);
    lemma_as_segment(second);
}

/// The fault that the fault of a text is where the text is one side of a dot.
pub open spec fn as_segment(fault: PathFault) -> PathFault {
    match fault {
        PathFault::Empty => PathFault::EmptySegment,
        _ => fault,
    }
}

proof fn lemma_as_segment(s: Seq<char>)
    ensures
        all_steps(parts_from(s, 0)) == match path_steps(s) {
            Ok(steps) => Ok::<Seq<Step>, PathFault>(steps),
            Err(fault) => Err(as_segment(fault)),
        },
{
    let parts = parts_from(s, 0);
    if s.len() == 0 {
        assert(parts[0] =~= s);
    } else {
        lemma_never_empty(parts);
    }
}

/// Parts have every fault but that of an empty path.
proof fn lemma_never_empty(parts: Seq<Seq<char>>)
    ensures
        all_steps(parts) matches Err(fault) ==> !(fault is Empty),
    decreases parts.len(),
{
    if parts.len() > 0 {
        let part = parts[0];
        lemma_groups_never_empty(part, 0);
        lemma_groups_never_empty(part, find(part, '[', 0));
        lemma_never_empty(parts.drop_first());
    }
}

proof fn lemma_groups_never_empty(part: Seq<char>, i: int)
    ensures
        groups_from(part, i) matches Err(fault) ==> !(fault is Empty),
    decreases part.len() - i,
{
    if i < part.len() && part[i] == '[' {
        let close = find(part, ']', i + 1);
        if i < close < part.len() {
            lemma_groups_never_empty(part, close + 1);
        }
    }
}

proof fn lemma_find_prefix(first: Seq<char>, second: Seq<char>, start: int)
    requires
        0 <= start <= first.len(),
    ensures
        find(first + seq!['.'] + second, '.', start) == find(first, '.', start),
    decreases first.len() - start,
{
    if start < first.len() && first[start] != '.' {
        lemma_find_prefix(first, second, start + 1);
    }
}

proof fn lemma_find_suffix(before: Seq<char>, s: Seq<char>, i: int)
    requires
        0 <= i <= s.len(),
    ensures
        find(before + s, '.', before.len() + i) == before.len() + find(s, '.', i),
    decreases s.len() - i,
{
    if i < s.len() && s[i] != '.' {
        lemma_find_suffix(before, s, i + 1);
    }
}

proof fn lemma_parts_suffix(before: Seq<char>, s: Seq<char>, i: int)
    requires
        0 <= i <= s.len(),
    ensures
        parts_from(before + s, before.len() + i) == parts_from(s, i),
    decreases s.len() - i,
{
    let whole = before + s;
    lemma_find_suffix(before, s, i);
    lemma_find(s, '.', i);
    let dot = find(s, '.', i);
    if dot < s.len() {
        lemma_parts_suffix(before, s, dot + 1);
        assert(whole.subrange(before.len() + i, before.len() + dot) =~= s.subrange(i, dot));
    } else {
        assert(whole.subrange(before.len() + i, whole.len() as int) =~= s.subrange(
            i,
            s.len() as int,
        ));
    }
}

proof fn lemma_parts_join(first: Seq<char>, second: Seq<char>, start: int)
    requires
        0 <= start <= first.len(),
    ensures
        parts_from(first + seq!['.'] + second, start) == parts_from(first, start) + parts_from(
            second,
            0,
        ),
    decreases first.len() - start,
{
    let whole = first + seq!['.'] + second;
    lemma_find_prefix(first, second, start);
    lemma_find(first, '.', start);
    let dot = find(first, '.', start);
    if dot < first.len() {
        lemma_parts_join(first, second, dot + 1);
        assert(whole.subrange(start, dot) =~= first.subrange(start, dot));
        assert(parts_from(whole, start) =~= parts_from(first, start) + parts_from(second, 0));
    } else {
        lemma_parts_suffix(first + seq!['.'], second, 0);
        assert(whole.subrange(start, dot) =~= first.subrange(start, first.len() as int));
        assert(parts_from(whole, start) =~= parts_from(first, start) + parts_from(second, 0));
    }
}

proof fn lemma_all_steps_concat(a: Seq<Seq<char>>, b: Seq<Seq<char>>)
    ensures
        all_steps(a + b) == match (all_steps(a), all_steps(b)) {
            (Ok(x), Ok(y)) => Ok::<Seq<Step>, PathFault>(x + y),
            (Err(fault), _) => Err(fault),
            (_, Err(fault)) => Err(fault),
        },
    decreases a.len(),
{
    if a.len() == 0 {
        assert(a + b =~= b);
        if let Ok(y) = all_steps(b) {
            assert(Seq::<Step>::empty() + y =~= y);
        }
    } else {
        lemma_all_steps_concat(a.drop_first(), b);
        assert((a + b).drop_first() =~= a.drop_first() + b);
        if let (Ok(first), Ok(x), Ok(y)) = (
            part_steps(a[0]),
            all_steps(a.drop_first()),
            all_steps(b),
        ) {
            assert(first + (x + y) =~= (first + x) + y);
        }
    }
}

fn index_array(value: &Value, index: i64) -> (r: Option<&Value>)
    ensures
        match r {
            Some(item) => step_into(value@, Step::Index(index)) == seq![item@],
            None => step_into(value@, Step::Index(index)) == Seq::<Json>::empty(),
        },
{
    let items: &[Value] = match value.as_array() {
        Some(items) => items,
        None => {
            return None;
        },
    };
    let ghost all = json::views(items@);
    assert(all.len() == items@.len());
    let at: usize = if index < 0 {
        let back: u64 = (-(index + 1)) as u64 + 1;
        if back > items.len() as u64 {
            return None;
        }
        items.len() - back as usize
    } else {
        if index as u64 >= items.len() as u64 {
            return None;
        }
        index as usize
    };
    if at < items.len() {
        assert(all[at as int] == items@[at as int]@);
        Some(&items[at])
    } else {
        None
    }
}

impl Segment {
    fn duplicate(&self) -> (r: Segment)
        ensures
            r@ == self@,
    {
        match self {
            Segment::Key(key) => Segment::Key(key.clone()),
            Segment::Index(index) => Segment::Index(*index),
            Segment::All => Segment::All,
        }
    }
}

impl Clone for Segment {
    fn clone(&self) -> (r: Segment)
        ensures
            r@ == self@,
    {
        self.duplicate()
    }
}

impl Clone for FieldPath {
    fn clone(&self) -> (r: FieldPath)
        ensures
            r.text() == self.text(),
            r.steps() == self.steps(),
    {
        let mut segments: Vec<Segment> = Vec::new();
        let mut i: usize = 0;
        while i < self.segments.len()
            invariant
                i <= self.segments@.len(),
                segments@.len() == i,
                forall|k: int| 0 <= k < i ==> (#[trigger] segments@[k])@ == self.segments@[k]@,
            decreases self.segments.len() - i,
        {
            segments.push(self.segments[i].duplicate());
            i = i + 1;
        }
        assert(steps_of(segments@) =~= steps_of(self.segments@));
        FieldPath { raw: self.raw.clone(), segments }
    }
}

impl FieldPath {
    /// The path text this was parsed from.
    pub closed spec fn text(&self) -> Seq<char> {
        self.raw@
    }

    /// What the parsed segments stand for.
    pub closed spec fn steps(&self) -> Seq<Step> {
        steps_of(self.segments@)
    }

    /// Parses a field path in the syntax documented on the module.
    pub fn parse(path: &str) -> (r: Result<FieldPath, PathError>)
        ensures
            match (r, path_steps(path@)) {
                (Ok(parsed), Ok(steps)) => parsed.text() == path@ && parsed.steps() == steps,
                (Err(e), Err(fault)) => e.text() == message_of(fault, path@),
                _ => false,
            },
    {
        if path.is_empty() {
            return Err(PathError::new("field path is empty".to_string()));
        }
        let chars = characters(path);
        let s: &[char] = chars.as_slice();
        let mut segments: Vec<Segment> = Vec::new();
        let mut start: usize = 0;
        assert(steps_of(segments@) =~= Seq::empty());
        loop
            invariant
                s@ == path@,
                0 < path@.len(),
                start <= s@.len(),
                match (path_steps(path@), all_steps(parts_from(s@, start as int))) {
                    (Ok(all), Ok(rest)) => all == steps_of(segments@) + rest,
                    (Err(a), Err(b)) => a == b,
                    _ => false,
                },
            decreases s.len() - start,
        {
            let dot: usize = position(s, '.', start);
            let part: &[char] = vstd::slice::slice_subrange(s, start, dot);
            let ghost before = steps_of(segments@);
            let ghost parts = parts_from(s@, start as int);
            assert(parts[0] == part@);
            parse_part(path, part, &mut segments)?;
            let ghost first = part_steps(part@)->Ok_0;
            if dot >= s.len() {
                assert(parts.drop_first() =~= Seq::empty());
                assert(all_steps(parts.drop_first()) == Ok::<Seq<Step>, PathFault>(Seq::empty()));
                assert(before + (first + Seq::<Step>::empty()) =~= steps_of(segments@));
                return Ok(FieldPath { raw: path.to_string(), segments });
            }
            proof {
                let rest = parts_from(s@, dot + 1);
                assert(parts.drop_first() =~= rest);
                if let Ok(more) = all_steps(rest) {
                    assert(before + (first + more) =~= (before + first) + more);
                }
            }
            start = dot + 1;
        }
    }

    /// The path text this was parsed from.
    pub fn as_str(&self) -> (r: &str)
        ensures
            r@ == self.text(),
    {
        self.raw.as_str()
    }

    /// The path text this was parsed from, as a text of its own.
    pub fn to_string(&self) -> (r: String)
        ensures
            r@ == self.text(),
    {
        self.raw.clone()
    }

    /// The parsed steps, in order.
    pub fn segments(&self) -> (r: &[Segment])
        ensures
            steps_of(r@) == self.steps(),
    {
        self.segments.as_slice()
    }

    /// Selects every value inside `root` that this path names.
    ///
    /// A `Key` segment that misses, or an `Index`/`All` segment applied to
    /// something other than an array, simply drops that branch instead of
    /// erroring: most records in a dataset only partially match a path.
    pub fn resolve<'v>(&self, root: &'v Value) -> (r: Vec<&'v Value>)
        ensures
            found_views(r@) == selected(seq![root@], self.steps()),
    {
        let mut current: Vec<&'v Value> = Vec::new();
        current.push(root);
        let ghost steps = self.steps();
        assert(found_views(current@) =~= seq![root@]);
        assert(steps.skip(0) =~= steps);
        let mut i: usize = 0;
        while i < self.segments.len()
            invariant
                i <= self.segments@.len(),
                steps == steps_of(self.segments@),
                selected(seq![root@], steps) == selected(
                    found_views(current@),
                    steps.skip(i as int),
                ),
            decreases self.segments.len() - i,
        {
            let segment: &Segment = &self.segments[i];
            let ghost step = segment@;
            let ghost values = found_views(current@);
            let mut next: Vec<&'v Value> = Vec::new();
            let mut j: usize = 0;
            assert(found_views(next@) =~= step_into_all(values.take(0), step));
            while j < current.len()
                invariant
                    j <= current@.len(),
                    values == found_views(current@),
                    step == segment@,
                    found_views(next@) == step_into_all(values.take(j as int), step),
                decreases current.len() - j,
            {
                let value: &'v Value = current[j];
                let ghost done = found_views(next@);
                assert(values.take(j + 1).drop_last() =~= values.take(j as int));
                assert(values.take(j + 1).last() == value@);
                match segment {
                    Segment::Key(key) => {
                        match value.get(key.as_str()) {
                            Some(found) => {
                                next.push(found);
                                assert(found_views(next@) =~= done + seq![found@]);
                            },
                            None => {
                                assert(found_views(next@) =~= done + Seq::<Json>::empty());
                            },
                        }
                    },
                    Segment::Index(index) => {
                        match index_array(value, *index) {
                            Some(item) => {
                                next.push(item);
                                assert(found_views(next@) =~= done + seq![item@]);
                            },
                            None => {
                                assert(found_views(next@) =~= done + Seq::<Json>::empty());
                            },
                        }
                    },
                    Segment::All => {
                        match value.as_array() {
                            Some(items) => {
                                let ghost all = json::views(items@);
                                let mut k: usize = 0;
                                assert(found_views(next@) =~= done + all.take(0));
                                while k < items.len()
                                    invariant
                                        k <= items@.len(),
                                        all == json::views(items@),
                                        found_views(next@) == done + all.take(k as int),
                                    decreases items.len() - k,
                                {
                                    let ghost before = found_views(next@);
                                    next.push(&items[k]);
                                    assert(found_views(next@) =~= before.push(all[k as int]));
                                    k = k + 1;
                                    assert(found_views(next@) =~= done + all.take(k as int));
                                }
                                assert(all.take(k as int) =~= all);
                            },
                            None => {
                                assert(found_views(next@) =~= done + Seq::<Json>::empty());
                            },
                        }
                    },
                }
                assert(found_views(next@) == done + step_into(value@, step));
                j = j + 1;
            }
            assert(values.take(j as int) =~= values);
            assert(steps.skip(i as int).drop_first() =~= steps.skip(i + 1));
            assert(steps.skip(i as int)[0] == step);
            current = next;
            i = i + 1;
        }
        current
    }
}

} // verus!
