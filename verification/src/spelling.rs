//! How steps are spelled as a path, and that every spelling is read back.

use vstd::prelude::*;

use crate::path;
use crate::path::PathFault;
use crate::path::Step;
use crate::text;
use crate::walk;

verus! {

/// Whether a key can stand in a path: it is not empty, and holds none of the
/// characters that structure a path.
pub open spec fn is_simple(key: Seq<char>) -> bool {
    &&& key.len() > 0
    &&& forall|i: int|
        0 <= i < key.len() ==> (#[trigger] key[i]) != '.' && key[i] != '[' && key[i] != ']'
}

/// Whether all keys among the steps can stand in a path.
pub open spec fn all_simple(steps: Seq<Step>) -> bool {
    forall|i: int|
        0 <= i < steps.len() ==> ((#[trigger] steps[i]) matches Step::Key(key) ==> is_simple(key))
}

/// The path that denotes the steps.
pub open spec fn spelled(steps: Seq<Step>) -> Seq<char>
    decreases steps.len(),
{
    if steps.len() == 0 {
        Seq::empty()
    } else {
        let before = spelled(steps.drop_last());
        match steps.last() {
            Step::Key(key) => walk::member_path(before, key),
            Step::All => walk::element_path(before),
            Step::Index(index) => before + bracketed(index),
        }
    }
}

/// The selector of one array element.
pub open spec fn bracketed(index: i64) -> Seq<char> {
    seq!['['] + text::signed_decimal(index as int) + seq![']']
}

/// The steps that a path text denotes, if it denotes some.
pub open spec fn reads_as(path: Seq<char>, steps: Seq<Step>) -> bool {
    path::path_steps(path) == Ok::<Seq<Step>, PathFault>(steps)
}

/// The selector that stands for a step into an array.
spec fn selector(step: Step) -> Seq<char> {
    match step {
        Step::Index(index) => bracketed(index),
        _ => seq!['[', ']'],
    }
}

proof fn lemma_selector(step: Step)
    requires
        !(step is Key),
    ensures
        ({
            let s = selector(step);
            let inner = s.subrange(1, s.len() - 1);
            &&& s.len() >= 2
            &&& s[0] == '['
            &&& s.last() == ']'
            &&& forall|i: int|
                0 < i < s.len() - 1 ==> (#[trigger] s[i]) != ']' && s[i] != '.'
            &&& step is All ==> inner.len() == 0
            &&& step matches Step::Index(index) ==> inner.len() > 0 && path::index_of(inner)
                == Some(index)
        }),
{
    let s = selector(step);
    if let Step::Index(index) = step {
        let n = index as int;
        let inner = s.subrange(1, s.len() - 1);
        assert(inner =~= text::signed_decimal(n));
        let size = if n < 0 {
            (-n) as nat
        } else {
            n as nat
        };
        text::lemma_decimal(size);
        let digits = text::decimal(size);
        assert(text::all_digits(digits));
        if n < 0 {
            assert(inner[0] == '-');
            assert(inner.skip(1) =~= digits);
        } else {
            assert(text::is_digit(digits[0]));
            assert(inner =~= digits);
        }
        assert forall|i: int| 0 < i < s.len() - 1 implies (#[trigger] s[i]) != ']' && s[i]
            != '.' by {
            assert(s[i] == inner[i - 1]);
            if n < 0 {
                if i - 1 > 0 {
                    assert(inner[i - 1] == digits[i - 2]);
                    assert(text::is_digit(digits[i - 2]));
                }
            } else {
                assert(text::is_digit(digits[i - 1]));
            }
        }
    }
}

proof fn lemma_find_at(s: Seq<char>, c: char, from: int, at: int)
    requires
        0 <= from <= at <= s.len(),
        at < s.len() ==> s[at] == c,
        forall|k: int| from <= k < at ==> (#[trigger] s[k]) != c,
    ensures
        path::find(s, c, from) == at,
    decreases at - from,
{
    if from < at {
        assert(s[from] != c);
        lemma_find_at(s, c, from + 1, at);
    }
}

/// A selector at the end of a part adds its step.
proof fn lemma_groups_extend(part: Seq<char>, step: Step, i: int)
    requires
        !(step is Key),
        0 <= i <= part.len(),
        path::groups_from(part, i) is Ok,
    ensures
        path::groups_from(part + selector(step), i) == Ok::<Seq<Step>, PathFault>(
            path::groups_from(part, i)->Ok_0.push(step),
        ),
    decreases part.len() - i,
{
    let s = selector(step);
    let ext = part + s;
    lemma_selector(step);
    if i == part.len() {
        let close = ext.len() - 1;
        assert(ext[i] == '[');
        assert forall|k: int| i + 1 <= k < close implies (#[trigger] ext[k]) != ']' by {
            assert(ext[k] == s[k - i]);
        }
        lemma_find_at(ext, ']', i + 1, close as int);
        assert(ext.subrange(i + 1, close as int) =~= s.subrange(1, s.len() - 1));
        assert(path::groups_from(ext, close + 1) == Ok::<Seq<Step>, PathFault>(Seq::empty()));
        assert(seq![step] + Seq::<Step>::empty() =~= Seq::<Step>::empty().push(step));
        assert(path::groups_from(part, i) == Ok::<Seq<Step>, PathFault>(Seq::empty()));
    } else {
        let close = path::find(part, ']', i + 1);
        path::lemma_find(part, ']', i + 1);
        assert(ext[i] == part[i]);
        assert forall|k: int| i + 1 <= k < close implies (#[trigger] ext[k]) != ']' by {
            assert(ext[k] == part[k]);
        }
        assert(ext[close] == part[close]);
        lemma_find_at(ext, ']', i + 1, close);
        assert(ext.subrange(i + 1, close) =~= part.subrange(i + 1, close));
        lemma_groups_extend(part, step, close + 1);
        let rest = path::groups_from(part, close + 1)->Ok_0;
        let first = path::groups_from(part, i)->Ok_0[0];
        assert(seq![first] + rest.push(step) =~= (seq![first] + rest).push(step));
    }
}

/// A selector at the end of a part adds its step.
proof fn lemma_part_extend(part: Seq<char>, step: Step)
    requires
        !(step is Key),
        path::part_steps(part) is Ok,
    ensures
        path::part_steps(part + selector(step)) == Ok::<Seq<Step>, PathFault>(
            path::part_steps(part)->Ok_0.push(step),
        ),
{
    let s = selector(step);
    let ext = part + s;
    let open = path::find(part, '[', 0);
    lemma_selector(step);
    path::lemma_find(part, '[', 0);
    assert forall|k: int| 0 <= k < open implies (#[trigger] ext[k]) != '[' by {
        assert(ext[k] == part[k]);
    }
    assert(ext[open] == '[') by {
        if open < part.len() {
            assert(ext[open] == part[open]);
        } else {
            assert(ext[open] == s[0]);
        }
    }
    lemma_find_at(ext, '[', 0, open);
    assert(ext.take(open) =~= part.take(open));
    if open < part.len() {
        lemma_groups_extend(part, step, open);
    } else {
        assert(path::groups_from(part, open) == Ok::<Seq<Step>, PathFault>(Seq::empty()));
        lemma_groups_extend(part, step, open);
    }
    let groups = path::groups_from(part, open)->Ok_0;
    let key = Step::Key(part.take(open));
    assert(seq![key] + groups.push(step) =~= (seq![key] + groups).push(step));
}

/// A dotless text at the end of a path lengthens its last part.
proof fn lemma_parts_extend(path: Seq<char>, more: Seq<char>, start: int)
    requires
        0 <= start <= path.len(),
        forall|i: int| 0 <= i < more.len() ==> (#[trigger] more[i]) != '.',
    ensures
        ({
            let parts = path::parts_from(path, start);
            &&& parts.len() > 0
            &&& path::parts_from(path + more, start) == parts.drop_last().push(
                parts.last() + more,
            )
        }),
    decreases path.len() - start,
{
    let ext = path + more;
    let parts = path::parts_from(path, start);
    let dot = path::find(path, '.', start);
    path::lemma_find(path, '.', start);
    if dot < path.len() {
        assert forall|k: int| start <= k < dot implies (#[trigger] ext[k]) != '.' by {
            assert(ext[k] == path[k]);
        }
        assert(ext[dot] == path[dot]);
        lemma_find_at(ext, '.', start, dot);
        lemma_parts_extend(path, more, dot + 1);
        let rest = path::parts_from(path, dot + 1);
        assert(ext.subrange(start, dot) =~= path.subrange(start, dot));
        assert(parts.drop_last() =~= seq![path.subrange(start, dot)] + rest.drop_last());
        assert(path::parts_from(ext, start) =~= parts.drop_last().push(parts.last() + more));
    } else {
        assert forall|k: int| start <= k < ext.len() implies (#[trigger] ext[k]) != '.' by {
            if k < path.len() {
                assert(ext[k] == path[k]);
            } else {
                assert(ext[k] == more[k - path.len()]);
            }
        }
        lemma_find_at(ext, '.', start, ext.len() as int);
        assert(ext.subrange(start, ext.len() as int) =~= path.subrange(
            start,
            path.len() as int,
        ) + more);
        assert(path::parts_from(ext, start) =~= parts.drop_last().push(parts.last() + more));
    }
}

proof fn lemma_all_steps_last(parts: Seq<Seq<char>>, longer: Seq<char>, step: Step)
    requires
        parts.len() > 0,
        path::all_steps(parts) is Ok,
        path::part_steps(longer) == Ok::<Seq<Step>, PathFault>(
            path::part_steps(parts.last())->Ok_0.push(step),
        ),
        path::part_steps(parts.last()) is Ok,
    ensures
        path::all_steps(parts.drop_last().push(longer)) == Ok::<Seq<Step>, PathFault>(
            path::all_steps(parts)->Ok_0.push(step),
        ),
    decreases parts.len(),
{
    let changed = parts.drop_last().push(longer);
    let first = path::part_steps(parts[0])->Ok_0;
    if parts.len() == 1 {
        assert(parts.drop_first() =~= Seq::empty());
        assert(changed.drop_first() =~= Seq::empty());
        let nothing = Seq::<Step>::empty();
        assert(path::all_steps(parts.drop_first()) == Ok::<Seq<Step>, PathFault>(nothing));
        assert(first + nothing =~= first);
        assert(first.push(step) + nothing =~= first.push(step));
    } else {
        let rest = parts.drop_first();
        assert(rest.last() == parts.last());
        assert(changed.drop_first() =~= rest.drop_last().push(longer));
        lemma_all_steps_last(rest, longer, step);
        let more = path::all_steps(rest)->Ok_0;
        assert(first + more.push(step) =~= (first + more).push(step));
    }
}

proof fn lemma_last_part_is_ok(parts: Seq<Seq<char>>)
    requires
        parts.len() > 0,
        path::all_steps(parts) is Ok,
    ensures
        path::part_steps(parts.last()) is Ok,
    decreases parts.len(),
{
    if parts.len() > 1 {
        assert(parts.drop_first().last() == parts.last());
        lemma_last_part_is_ok(parts.drop_first());
    }
}

/// A selector at the end of a path adds its step.
proof fn lemma_path_extend(path: Seq<char>, steps: Seq<Step>, step: Step)
    requires
        !(step is Key),
        reads_as(path, steps),
    ensures
        reads_as(path + selector(step), steps.push(step)),
{
    let s = selector(step);
    lemma_selector(step);
    assert forall|i: int| 0 <= i < s.len() implies (#[trigger] s[i]) != '.' by {
        if 0 < i < s.len() - 1 {
            assert(s[i] != '.');
        }
    }
    let parts = path::parts_from(path, 0);
    lemma_parts_extend(path, s, 0);
    lemma_last_part_is_ok(parts);
    lemma_part_extend(parts.last(), step);
    lemma_all_steps_last(parts, parts.last() + s, step);
}

/// A selector alone is a path.
proof fn lemma_selector_reads(step: Step)
    requires
        !(step is Key),
    ensures
        reads_as(selector(step), seq![step]),
{
    let s = selector(step);
    let nothing = Seq::<char>::empty();
    lemma_selector(step);
    assert forall|i: int| 0 <= i < s.len() implies (#[trigger] s[i]) != '.' by {
        if 0 < i < s.len() - 1 {
            assert(s[i] != '.');
        }
    }
    lemma_find_at(s, '.', 0, s.len() as int);
    assert(s.subrange(0, s.len() as int) =~= s);
    assert(path::parts_from(s, 0) =~= seq![s]);
    lemma_find_at(s, '[', 0, 0);
    assert(path::groups_from(nothing, 0) == Ok::<Seq<Step>, PathFault>(Seq::empty()));
    lemma_groups_extend(nothing, step, 0);
    assert(nothing + s =~= s);
    assert(Seq::<Step>::empty().push(step) =~= seq![step]);
    assert(path::part_steps(s) == Ok::<Seq<Step>, PathFault>(seq![step]));
    lemma_single_part(s, seq![step]);
}

proof fn lemma_single_part(s: Seq<char>, steps: Seq<Step>)
    requires
        s.len() > 0,
        path::parts_from(s, 0) == seq![s],
        path::part_steps(s) == Ok::<Seq<Step>, PathFault>(steps),
    ensures
        reads_as(s, steps),
{
    let nothing = Seq::<Step>::empty();
    assert(seq![s].drop_first() =~= Seq::empty());
    assert(path::all_steps(seq![s].drop_first()) == Ok::<Seq<Step>, PathFault>(nothing));
    assert(steps + nothing =~= steps);
}

/// A simple key alone is a path.
proof fn lemma_key_reads(key: Seq<char>)
    requires
        is_simple(key),
    ensures
        reads_as(key, seq![Step::Key(key)]),
{
    let n = key.len() as int;
    lemma_find_at(key, '.', 0, n);
    assert(key.subrange(0, n) =~= key);
    assert(path::parts_from(key, 0) =~= seq![key]);
    lemma_find_at(key, '[', 0, n);
    assert(key.take(n) =~= key);
    assert(path::groups_from(key, n) == Ok::<Seq<Step>, PathFault>(Seq::empty()));
    assert(seq![Step::Key(key)] + Seq::<Step>::empty() =~= seq![Step::Key(key)]);
    lemma_single_part(key, seq![Step::Key(key)]);
}

/// Every sequence of steps whose keys are simple is denoted by its spelling,
/// so that different steps have different spellings.
pub proof fn law_spelling_is_read_back(steps: Seq<Step>)
    requires
        steps.len() > 0,
        all_simple(steps),
    ensures
        path::path_steps(spelled(steps)) == Ok::<Seq<Step>, PathFault>(steps),
        spelled(steps).len() > 0,
    decreases steps.len(),
{
    let init = steps.drop_last();
    let step = steps.last();
    let before = spelled(init);
    assert(steps =~= init.push(step));
    assert(steps[steps.len() - 1] == step);
    reveal_strlit("[]");
    reveal_strlit(".");
    assert("[]"@ =~= seq!['[', ']']);
    assert("."@ =~= seq!['.']);
    if init.len() == 0 {
        assert(steps =~= seq![step]);
        match step {
            Step::Key(key) => {
                lemma_key_reads(key);
            },
            _ => {
                lemma_selector(step);
                lemma_selector_reads(step);
                assert(before + selector(step) =~= selector(step));
            },
        }
    } else {
        assert forall|i: int| 0 <= i < init.len() implies ((#[trigger] init[i]) matches Step::Key(
            key,
        ) ==> is_simple(key)) by {
            assert(init[i] == steps[i]);
        }
        law_spelling_is_read_back(init);
        match step {
            Step::Key(key) => {
                lemma_key_reads(key);
                path::law_dot_joins_paths(before, key);
                assert(init + seq![step] =~= steps);
            },
            _ => {
                lemma_selector(step);
                lemma_path_extend(before, init, step);
            },
        }
    }
}

/// How often a character occurs in a text.
pub open spec fn count_char(s: Seq<char>, c: char) -> nat
    decreases s.len(),
{
    if s.len() == 0 {
        0
    } else {
        count_char(s.drop_last(), c) + (if s.last() == c {
            1nat
        } else {
            0nat
        })
    }
}

/// How many of the steps are keys.
pub open spec fn count_keys(steps: Seq<Step>) -> nat
    decreases steps.len(),
{
    if steps.len() == 0 {
        0
    } else {
        count_keys(steps.drop_last()) + (if steps.last() is Key {
            1nat
        } else {
            0nat
        })
    }
}

/// How many parts do not start with a selector.
pub open spec fn named_parts(parts: Seq<Seq<char>>) -> nat
    decreases parts.len(),
{
    if parts.len() == 0 {
        0
    } else {
        named_parts(parts.drop_first()) + (if parts[0].len() > 0 && parts[0][0] == '[' {
            0nat
        } else {
            1nat
        })
    }
}

proof fn lemma_count_concat(a: Seq<char>, b: Seq<char>, c: char)
    ensures
        count_char(a + b, c) == count_char(a, c) + count_char(b, c),
    decreases b.len(),
{
    if b.len() == 0 {
        assert(a + b =~= a);
    } else {
        assert((a + b).drop_last() =~= a + b.drop_last());
        lemma_count_concat(a, b.drop_last(), c);
    }
}

proof fn lemma_count_none(s: Seq<char>, c: char)
    requires
        forall|i: int| 0 <= i < s.len() ==> (#[trigger] s[i]) != c,
    ensures
        count_char(s, c) == 0,
    decreases s.len(),
{
    if s.len() > 0 {
        assert(s[s.len() - 1] != c);
        lemma_count_none(s.drop_last(), c);
    }
}

proof fn lemma_count_one(c: char, d: char)
    ensures
        count_char(seq![c], d) == (if c == d {
            1nat
        } else {
            0nat
        }),
{
    assert(seq![c].drop_last() =~= Seq::empty());
    assert(count_char(seq![c].drop_last(), d) == 0);
}

proof fn lemma_keys_concat(a: Seq<Step>, b: Seq<Step>)
    ensures
        count_keys(a + b) == count_keys(a) + count_keys(b),
        all_simple(a) && all_simple(b) ==> all_simple(a + b),
    decreases b.len(),
{
    if b.len() == 0 {
        assert(a + b =~= a);
    } else {
        assert((a + b).drop_last() =~= a + b.drop_last());
        lemma_keys_concat(a, b.drop_last());
    }
    if all_simple(a) && all_simple(b) {
        assert forall|i: int| 0 <= i < (a + b).len() implies ((#[trigger] (a
            + b)[i]) matches Step::Key(key) ==> is_simple(key)) by {
            if i < a.len() {
                assert((a + b)[i] == a[i]);
            } else {
                assert((a + b)[i] == b[i - a.len()]);
            }
        }
    }
}

proof fn lemma_one_step(step: Step)
    ensures
        count_keys(seq![step]) == (if step is Key {
            1nat
        } else {
            0nat
        }),
{
    assert(seq![step].drop_last() =~= Seq::empty());
    assert(count_keys(seq![step].drop_last()) == 0);
}

/// An index is written without brackets.
proof fn lemma_index_has_no_bracket(inner: Seq<char>)
    requires
        inner.len() == 0 || path::index_of(inner) is Some,
    ensures
        count_char(inner, '[') == 0,
{
    assert forall|i: int| 0 <= i < inner.len() implies (#[trigger] inner[i]) != '[' by {
        let signed = inner[0] == '-' || inner[0] == '+';
        if signed {
            if i > 0 {
                assert(text::is_digit(inner.skip(1)[i - 1]));
            }
        } else {
            assert(text::is_digit(inner[i]));
        }
    }
    lemma_count_none(inner, '[');
}

/// The groups of a part give one selector per bracket.
proof fn lemma_groups_shape(part: Seq<char>, i: int)
    requires
        0 <= i <= part.len(),
        path::groups_from(part, i) is Ok,
    ensures
        ({
            let steps = path::groups_from(part, i)->Ok_0;
            &&& count_keys(steps) == 0
            &&& all_simple(steps)
            &&& steps.len() == count_char(part.skip(i), '[')
            &&& i < part.len() ==> steps.len() > 0
        }),
    decreases part.len() - i,
{
    if i < part.len() {
        let close = path::find(part, ']', i + 1);
        path::lemma_find(part, ']', i + 1);
        let inner = part.subrange(i + 1, close);
        let rest = path::groups_from(part, close + 1)->Ok_0;
        let steps = path::groups_from(part, i)->Ok_0;
        let first = steps[0];
        lemma_groups_shape(part, close + 1);
        lemma_index_has_no_bracket(inner);
        assert(steps =~= seq![first] + rest);
        lemma_one_step(first);
        lemma_keys_concat(seq![first], rest);
        let tail = part.skip(close + 1);
        assert(part.skip(i) =~= seq!['['] + inner + seq![']'] + tail);
        lemma_count_concat(seq!['['] + inner + seq![']'], tail, '[');
        lemma_count_concat(seq!['['] + inner, seq![']'], '[');
        lemma_count_concat(seq!['['], inner, '[');
        lemma_count_one('[', '[');
        lemma_count_one(']', '[');
    }
}

/// A part gives a key, if it does not start with a selector, and one selector
/// per bracket.
proof fn lemma_part_shape(part: Seq<char>)
    requires
        path::part_steps(part) is Ok,
        forall|i: int| 0 <= i < part.len() ==> (#[trigger] part[i]) != '.',
    ensures
        ({
            let steps = path::part_steps(part)->Ok_0;
            &&& steps.len() >= 1
            &&& all_simple(steps)
            &&& count_keys(steps) == (if part[0] == '[' {
                0nat
            } else {
                1nat
            })
            &&& steps.len() == count_keys(steps) + count_char(part, '[')
        }),
{
    let open = path::find(part, '[', 0);
    path::lemma_find(part, '[', 0);
    lemma_groups_shape(part, open);
    let steps = path::part_steps(part)->Ok_0;
    let groups = path::groups_from(part, open)->Ok_0;
    if open == 0 {
        assert(part.skip(0) =~= part);
        assert(part[0] == '[');
    } else {
        let key = part.take(open);
        let one = seq![Step::Key(key)];
        assert forall|i: int| 0 <= i < key.len() implies (#[trigger] key[i]) != '.' && key[i]
            != '[' && key[i] != ']' by {
            assert(key[i] == part[i]);
            if key[i] == ']' {
                assert(key.contains(']'));
            }
        }
        assert(is_simple(key));
        lemma_one_step(Step::Key(key));
        lemma_keys_concat(one, groups);
        lemma_count_none(key, '[');
        assert(part =~= key + part.skip(open));
        lemma_count_concat(key, part.skip(open), '[');
        assert(part[0] == key[0]);
    }
}

proof fn lemma_parts_shape(s: Seq<char>, start: int)
    requires
        0 <= start <= s.len(),
        path::all_steps(path::parts_from(s, start)) is Ok,
    ensures
        ({
            let parts = path::parts_from(s, start);
            let steps = path::all_steps(parts)->Ok_0;
            &&& parts.len() == 1 + count_char(s.skip(start), '.')
            &&& steps.len() >= parts.len()
            &&& all_simple(steps)
            &&& count_keys(steps) == named_parts(parts)
            &&& steps.len() == count_keys(steps) + count_char(s.skip(start), '[')
        }),
    decreases s.len() - start,
{
    let parts = path::parts_from(s, start);
    let dot = path::find(s, '.', start);
    path::lemma_find(s, '.', start);
    let part = s.subrange(start, dot);
    let first = path::part_steps(part)->Ok_0;
    assert(parts[0] =~= part);
    assert forall|i: int| 0 <= i < part.len() implies (#[trigger] part[i]) != '.' by {
        assert(part[i] == s[start + i]);
    }
    lemma_part_shape(part);
    lemma_count_none(part, '.');
    if dot < s.len() {
        let rest = path::parts_from(s, dot + 1);
        assert(parts.drop_first() =~= rest);
        lemma_parts_shape(s, dot + 1);
        let more = path::all_steps(rest)->Ok_0;
        lemma_keys_concat(first, more);
        let tail = s.skip(dot + 1);
        assert(s.skip(start) =~= part + seq!['.'] + tail);
        lemma_count_concat(part + seq!['.'], tail, '[');
        lemma_count_concat(part, seq!['.'], '[');
        lemma_count_concat(part + seq!['.'], tail, '.');
        lemma_count_concat(part, seq!['.'], '.');
        lemma_count_one('.', '[');
        lemma_count_one('.', '.');
    } else {
        let nothing = Seq::<Step>::empty();
        assert(parts.drop_first() =~= Seq::empty());
        assert(path::all_steps(parts.drop_first()) == Ok::<Seq<Step>, PathFault>(nothing));
        assert(first + nothing =~= first);
        assert(named_parts(parts.drop_first()) == 0);
        assert(s.skip(start) =~= part);
    }
}

/// The steps of a path have the shape of its text. There is at least one step
/// for each of its dot-separated parts, of which there is one more than dots.
/// Every key is simple, there is one key for each part that does not start
/// with a selector, and one index or fan-out for each opening bracket.
pub proof fn law_steps_have_the_shape_of_the_path(path: Seq<char>)
    requires
        path::path_steps(path) is Ok,
    ensures
        ({
            let steps = path::path_steps(path)->Ok_0;
            let parts = path::parts_from(path, 0);
            &&& steps.len() >= parts.len() >= 1
            &&& parts.len() == 1 + count_char(path, '.')
            &&& all_simple(steps)
            &&& count_keys(steps) == named_parts(parts)
            &&& steps.len() - count_keys(steps) == count_char(path, '[')
        }),
{
    lemma_parts_shape(path, 0);
    assert(path.skip(0) =~= path);
}

/// An index is digits, a minus sign making it negative and a plus sign changing
/// nothing, as far as an `i64` goes. Nothing else is an index.
pub proof fn law_indices_are_signed_numerals(digits: Seq<char>, other: Seq<char>)
    requires
        digits.len() > 0,
        text::all_digits(digits),
    ensures
        path::index_of(digits) == (if text::numeral(digits) <= i64::MAX {
            Some(text::numeral(digits) as i64)
        } else {
            None
        }),
        path::index_of(seq!['+'] + digits) == path::index_of(digits),
        path::index_of(seq!['-'] + digits) == (if -(text::numeral(digits) as int) >= i64::MIN {
            Some((-(text::numeral(digits) as int)) as i64)
        } else {
            None
        }),
        path::index_of(other) is Some ==> {
            &&& other.len() > 0
            &&& text::is_digit(other[0]) || (other.len() > 1 && (other[0] == '-' || other[0]
                == '+'))
            &&& forall|i: int| 0 < i < other.len() ==> text::is_digit(#[trigger] other[i])
        },
{
    assert(text::is_digit(digits[0]));
    assert((seq!['+'] + digits).skip(1) =~= digits);
    assert((seq!['-'] + digits).skip(1) =~= digits);
    if path::index_of(other) is Some {
        let signed = other.len() > 0 && (other[0] == '-' || other[0] == '+');
        let rest = other.skip(1);
        assert forall|i: int| 0 < i < other.len() implies text::is_digit(#[trigger] other[i]) by {
            if signed {
                assert(rest[i - 1] == other[i]);
                assert(text::is_digit(rest[i - 1]));
            } else {
                assert(text::is_digit(other[i]));
            }
        }
    }
}

/// Whether a text holds none of three characters.
pub open spec fn free_of(s: Seq<char>, a: char, b: char, c: char) -> bool {
    forall|i: int| 0 <= i < s.len() ==> (#[trigger] s[i]) != a && s[i] != b && s[i] != c
}

proof fn lemma_one_part(s: Seq<char>)
    requires
        s.len() > 0,
        forall|i: int| 0 <= i < s.len() ==> (#[trigger] s[i]) != '.',
    ensures
        path::path_steps(s) == path::part_steps(s),
{
    let n = s.len() as int;
    lemma_find_at(s, '.', 0, n);
    assert(s.subrange(0, n) =~= s);
    let parts = path::parts_from(s, 0);
    assert(parts =~= seq![s]);
    assert(parts.drop_first() =~= Seq::empty());
    assert(path::all_steps(parts.drop_first()) == Ok::<Seq<Step>, PathFault>(Seq::empty()));
    if let Ok(steps) = path::part_steps(s) {
        assert(steps + Seq::<Step>::empty() =~= steps);
    }
}

/// A closing bracket in a key is a fault, wherever a selector may follow.
pub proof fn law_keys_hold_no_closing_bracket(key: Seq<char>, rest: Seq<char>)
    requires
        free_of(key, '.', '[', '['),
        key.contains(']'),
        free_of(rest, '.', '.', '.'),
        rest.len() > 0 ==> rest[0] == '[',
    ensures
        path::path_steps(key + rest) == Err::<Seq<Step>, PathFault>(PathFault::UnexpectedClose),
{
    let whole = key + rest;
    lemma_one_part(whole);
    lemma_find_at(whole, '[', 0, key.len() as int);
    assert(whole.take(key.len() as int) =~= key);
}

/// What comes of a path that goes on with an opening bracket behind a key, or
/// starts with one: it is a fault if nothing closes the bracket; if what is
/// between the brackets is neither empty nor an index, which the fault names; and
/// if what follows the brackets opens none. An empty path is a fault too.
pub proof fn law_faulty_selectors_are_told_apart(
    key: Seq<char>,
    inner: Seq<char>,
    rest: Seq<char>,
)
    requires
        free_of(key, '.', '[', ']'),
        free_of(inner, '.', ']', ']'),
        free_of(rest, '.', '.', '.'),
    ensures
        path::path_steps(Seq::empty()) == Err::<Seq<Step>, PathFault>(PathFault::Empty),
        path::path_steps(key + seq!['['] + inner) == Err::<Seq<Step>, PathFault>(
            PathFault::Unterminated,
        ),
        inner.len() > 0 && path::index_of(inner) is None ==> path::path_steps(
            key + seq!['['] + inner + seq![']'] + rest,
        ) == Err::<Seq<Step>, PathFault>(PathFault::InvalidIndex(inner)),
        (inner.len() == 0 || path::index_of(inner) is Some) && rest.len() > 0 && rest[0] != '['
            ==> path::path_steps(key + seq!['['] + inner + seq![']'] + rest) == Err::<
            Seq<Step>,
            PathFault,
        >(PathFault::ExpectedOpen),
{
    let n = key.len() as int;
    let open = key + seq!['['] + inner;
    lemma_one_part(open);
    lemma_find_at(open, '[', 0, n);
    assert(open.take(n) =~= key);
    assert(!key.contains(']'));
    lemma_find_at(open, ']', n + 1, open.len() as int);
    assert(path::groups_from(open, n) == Err::<Seq<Step>, PathFault>(PathFault::Unterminated));
    let whole = key + seq!['['] + inner + seq![']'] + rest;
    let close = n + 1 + inner.len();
    lemma_one_part(whole);
    lemma_find_at(whole, '[', 0, n);
    assert(whole.take(n) =~= key);
    lemma_find_at(whole, ']', n + 1, close);
    assert(whole.subrange(n + 1, close) =~= inner);
    if rest.len() > 0 {
        assert(whole[close + 1] == rest[0]);
        if rest[0] != '[' {
            assert(path::groups_from(whole, close + 1) == Err::<Seq<Step>, PathFault>(
                PathFault::ExpectedOpen,
            ));
        }
    }
}

/// The message for a fault quotes the whole path at its end, and what is wrong
/// before it; that for an empty path quotes nothing.
pub proof fn law_messages_quote_the_path(fault: PathFault, full: Seq<char>)
    ensures
        ({
            let message = path::message_of(fault, full);
            let quoted = seq!['\''] + full + seq!['\''];
            match fault {
                PathFault::Empty => message == "field path is empty"@,
                PathFault::EmptySegment => message == "empty segment in "@ + quoted,
                PathFault::UnexpectedClose => message == "unexpected ']' in "@ + quoted,
                PathFault::ExpectedOpen => message == "expected '[' in "@ + quoted,
                PathFault::Unterminated => message == "unterminated '[' in "@ + quoted,
                PathFault::InvalidIndex(inner) => message == "invalid array index "@ + (seq!['\'']
                    + inner + seq!['\'']) + " in "@ + quoted,
            }
        }),
{
    reveal_strlit("empty segment in '");
    reveal_strlit("empty segment in ");
    reveal_strlit("unexpected ']' in '");
    reveal_strlit("unexpected ']' in ");
    reveal_strlit("expected '[' in '");
    reveal_strlit("expected '[' in ");
    reveal_strlit("unterminated '[' in '");
    reveal_strlit("unterminated '[' in ");
    reveal_strlit("invalid array index '");
    reveal_strlit("invalid array index ");
    reveal_strlit("' in '");
    reveal_strlit(" in ");
    let q = seq!['\''];
    assert("empty segment in '"@ =~= "empty segment in "@ + q);
    assert("unexpected ']' in '"@ =~= "unexpected ']' in "@ + q);
    assert("expected '[' in '"@ =~= "expected '[' in "@ + q);
    assert("unterminated '[' in '"@ =~= "unterminated '[' in "@ + q);
    assert("invalid array index '"@ =~= "invalid array index "@ + q);
    assert("' in '"@ =~= q + " in "@ + q);
    match fault {
        PathFault::Empty => {},
        PathFault::EmptySegment => {
            assert("empty segment in "@ + q + full + q =~= "empty segment in "@ + (q + full + q));
        },
        PathFault::UnexpectedClose => {
            assert("unexpected ']' in "@ + q + full + q =~= "unexpected ']' in "@ + (q + full
                + q));
        },
        PathFault::ExpectedOpen => {
            assert("expected '[' in "@ + q + full + q =~= "expected '[' in "@ + (q + full + q));
        },
        PathFault::Unterminated => {
            assert("unterminated '[' in "@ + q + full + q =~= "unterminated '[' in "@ + (q + full
                + q));
        },
        PathFault::InvalidIndex(inner) => {
            assert("invalid array index "@ + q + inner + (q + " in "@ + q) + full + q
                =~= "invalid array index "@ + (q + inner + q) + " in "@ + (q + full + q));
        },
    }
}

proof fn lemma_find_shift(before: Seq<char>, s: Seq<char>, c: char, i: int)
    requires
        0 <= i <= s.len(),
    ensures
        path::find(before + s, c, before.len() + i) == before.len() + path::find(s, c, i),
    decreases s.len() - i,
{
    if i < s.len() && s[i] != c {
        lemma_find_shift(before, s, c, i + 1);
    }
}

proof fn lemma_groups_shift(before: Seq<char>, rest: Seq<char>, i: int)
    requires
        0 <= i <= rest.len(),
    ensures
        path::groups_from(before + rest, before.len() + i) == path::groups_from(rest, i),
    decreases rest.len() - i,
{
    let whole = before + rest;
    let n = before.len() as int;
    if i < rest.len() && rest[i] == '[' {
        lemma_find_shift(before, rest, ']', i + 1);
        path::lemma_find(rest, ']', i + 1);
        let close = path::find(rest, ']', i + 1);
        assert(whole[n + i] == rest[i]);
        if close < rest.len() {
            assert(whole.subrange(n + i + 1, n + close) =~= rest.subrange(i + 1, close));
            lemma_groups_shift(before, rest, close + 1);
        }
    }
}

proof fn lemma_groups_append(part: Seq<char>, rest: Seq<char>, i: int)
    requires
        0 <= i <= part.len(),
        path::groups_from(part, i) is Ok,
    ensures
        path::groups_from(part + rest, i) == (match path::groups_from(rest, 0) {
            Ok(more) => Ok::<Seq<Step>, PathFault>(path::groups_from(part, i)->Ok_0 + more),
            Err(fault) => Err(fault),
        }),
    decreases part.len() - i,
{
    let whole = part + rest;
    if i == part.len() {
        lemma_groups_shift(part, rest, 0);
        if let Ok(more) = path::groups_from(rest, 0) {
            assert(Seq::<Step>::empty() + more =~= more);
        }
    } else {
        let close = path::find(part, ']', i + 1);
        path::lemma_find(part, ']', i + 1);
        assert forall|k: int| i + 1 <= k < close implies (#[trigger] whole[k]) != ']' by {
            assert(whole[k] == part[k]);
        }
        assert(whole[close] == part[close]);
        lemma_find_at(whole, ']', i + 1, close);
        assert(whole.subrange(i + 1, close) =~= part.subrange(i + 1, close));
        lemma_groups_append(part, rest, close + 1);
        let first = path::groups_from(part, i)->Ok_0[0];
        let others = path::groups_from(part, close + 1)->Ok_0;
        if let Ok(more) = path::groups_from(rest, 0) {
            assert(seq![first] + (others + more) =~= (seq![first] + others) + more);
        }
    }
}

/// Selectors that follow a path without a dot add their steps to its steps, and
/// a fault in them is a fault of the whole.
pub proof fn law_selectors_follow_one_another(first: Seq<char>, second: Seq<char>)
    requires
        free_of(first, '.', '.', '.'),
        free_of(second, '.', '.', '.'),
        second.len() > 0,
        second[0] == '[',
        path::path_steps(first) is Ok,
    ensures
        path::path_steps(first + second) == (match path::path_steps(second) {
            Ok(more) => Ok::<Seq<Step>, PathFault>(path::path_steps(first)->Ok_0 + more),
            Err(fault) => Err(fault),
        }),
{
    let whole = first + second;
    lemma_one_part(first);
    lemma_one_part(second);
    lemma_one_part(whole);
    let open = path::find(first, '[', 0);
    path::lemma_find(first, '[', 0);
    assert forall|k: int| 0 <= k < open implies (#[trigger] whole[k]) != '[' by {
        assert(whole[k] == first[k]);
    }
    assert(whole[open] == '[') by {
        if open < first.len() {
            assert(whole[open] == first[open]);
        } else {
            assert(whole[open] == second[0]);
        }
    }
    lemma_find_at(whole, '[', 0, open);
    assert(whole.take(open) =~= first.take(open));
    lemma_find_at(second, '[', 0, 0);
    if open == first.len() {
        assert(path::groups_from(first, open) == Ok::<Seq<Step>, PathFault>(Seq::empty()));
    }
    lemma_groups_append(first, second, open);
    let key = seq![Step::Key(first.take(open))];
    if let Ok(more) = path::groups_from(second, 0) {
        let groups = path::groups_from(first, open)->Ok_0;
        assert(key + (groups + more) =~= (key + groups) + more);
    }
}

/// A dot with nothing before it or behind it makes an empty segment.
pub proof fn law_dots_stand_between_segments(s: Seq<char>)
    ensures
        path::path_steps(seq!['.'] + s) == Err::<Seq<Step>, PathFault>(PathFault::EmptySegment),
        path::path_steps(s) is Ok ==> path::path_steps(s + seq!['.']) == Err::<
            Seq<Step>,
            PathFault,
        >(PathFault::EmptySegment),
{
    let none = Seq::<char>::empty();
    path::law_dot_joins_paths(none, s);
    path::law_dot_joins_paths(s, none);
    assert(none + seq!['.'] + s =~= seq!['.'] + s);
    assert(s + seq!['.'] + none =~= s + seq!['.']);
}

/// Empty brackets are a fan-out, and brackets around an index, however it is
/// written, are that index.
pub proof fn law_selectors_denote_their_steps(inner: Seq<char>)
    requires
        free_of(inner, '.', ']', ']'),
    ensures
        inner.len() == 0 ==> path::path_steps(seq!['['] + inner + seq![']']) == Ok::<
            Seq<Step>,
            PathFault,
        >(seq![Step::All]),
        inner.len() > 0 ==> (path::index_of(inner) matches Some(index) ==> path::path_steps(
            seq!['['] + inner + seq![']'],
        ) == Ok::<Seq<Step>, PathFault>(seq![Step::Index(index)])),
{
    let whole = seq!['['] + inner + seq![']'];
    let close = 1 + inner.len() as int;
    let none = Seq::<Step>::empty();
    lemma_one_part(whole);
    lemma_find_at(whole, '[', 0, 0);
    lemma_find_at(whole, ']', 1, close);
    assert(whole.subrange(1, close) =~= inner);
    assert(path::groups_from(whole, close + 1) == Ok::<Seq<Step>, PathFault>(none));
    assert(seq![Step::All] + none =~= seq![Step::All]);
    if let Some(index) = path::index_of(inner) {
        assert(seq![Step::Index(index)] + none =~= seq![Step::Index(index)]);
    }
}

} // verus!
