//! A schema says of a path what profiling that path as a field says.

use vstd::prelude::*;

use crate::field;
use crate::json;
use crate::json::Json;
use crate::path;
use crate::path::Step;
use crate::spelling;
use crate::table;
use crate::walk;

verus! {

/// Whether every path into a value can be spelled without loss: all object
/// keys inside it are simple, and no object repeats a key.
pub open spec fn is_tidy(json: Json) -> bool
    decreases json,
{
    match json {
        Json::Array(items) => forall|i: int|
            0 <= i < items.len() ==> is_tidy(#[trigger] items[i]),
        Json::Object(members) => {
            &&& forall|i: int|
                0 <= i < members.len() ==> spelling::is_simple((#[trigger] members[i]).0)
                    && is_tidy(members[i].1)
            &&& forall|i: int, j: int|
                0 <= i < j < members.len() ==> (#[trigger] members[i]).0 != (
                #[trigger] members[j]).0
        },
        _ => true,
    }
}

/// Whether members have simple and distinct keys and tidy values.
spec fn tidy_members(members: Seq<(Seq<char>, Json)>) -> bool {
    &&& forall|i: int|
        0 <= i < members.len() ==> spelling::is_simple((#[trigger] members[i]).0) && is_tidy(
            members[i].1,
        )
    &&& forall|i: int, j: int|
        0 <= i < j < members.len() ==> (#[trigger] members[i]).0 != (#[trigger] members[j]).0
}

/// Whether steps are ones that a walk takes: simple keys and fan-outs.
pub open spec fn walkable(steps: Seq<Step>) -> bool {
    forall|i: int|
        0 <= i < steps.len() ==> match #[trigger] steps[i] {
            Step::Key(key) => spelling::is_simple(key),
            Step::All => true,
            Step::Index(_) => false,
        }
}

proof fn lemma_walkable_simple(steps: Seq<Step>)
    requires
        walkable(steps),
    ensures
        spelling::all_simple(steps),
{
    assert forall|i: int| 0 <= i < steps.len() implies ((#[trigger] steps[i]) matches Step::Key(
        key,
    ) ==> spelling::is_simple(key)) by {}
}

proof fn lemma_walkable_concat(a: Seq<Step>, b: Seq<Step>)
    requires
        walkable(a),
        walkable(b),
    ensures
        walkable(a + b),
{
    assert forall|i: int| 0 <= i < (a + b).len() implies match #[trigger] (a + b)[i] {
        Step::Key(key) => spelling::is_simple(key),
        Step::All => true,
        Step::Index(_) => false,
    } by {
        if i < a.len() {
            assert((a + b)[i] == a[i]);
        } else {
            assert((a + b)[i] == b[i - a.len()]);
        }
    }
}

/// Different steps are spelled differently.
proof fn lemma_spelled_differs(a: Seq<Step>, b: Seq<Step>)
    requires
        walkable(a),
        walkable(b),
        a.len() > 0,
        b.len() > 0,
        a != b,
    ensures
        spelling::spelled(a) != spelling::spelled(b),
{
    lemma_walkable_simple(a);
    lemma_walkable_simple(b);
    spelling::law_spelling_is_read_back(a);
    spelling::law_spelling_is_read_back(b);
}

/// Whether a text spells steps that go on from `from`.
spec fn goes_on(from: Seq<Step>, s: Seq<char>) -> bool {
    exists|more: Seq<Step>|
        #![trigger from + more]
        more.len() > 0 && walkable(more) && s == spelling::spelled(from + more)
}

spec fn all_go_on(from: Seq<Step>, seen: Seq<(Seq<char>, Seq<char>)>) -> bool {
    forall|i: int| 0 <= i < seen.len() ==> goes_on(from, (#[trigger] seen[i]).0)
}

proof fn lemma_goes_on_step(from: Seq<Step>, step: Step, s: Seq<char>)
    requires
        walkable(seq![step]),
        s == spelling::spelled(from.push(step)) || goes_on(from.push(step), s),
    ensures
        goes_on(from, s),
{
    let next = from.push(step);
    if s == spelling::spelled(next) {
        assert(from + seq![step] =~= next);
    } else {
        let more = choose|more: Seq<Step>|
            #![trigger next + more]
            more.len() > 0 && walkable(more) && s == spelling::spelled(next + more);
        lemma_walkable_concat(seq![step], more);
        assert(next + more =~= from + (seq![step] + more));
    }
}

proof fn lemma_spelled_push(from: Seq<Step>, step: Step)
    ensures
        from.push(step).drop_last() == from,
        step matches Step::Key(key) ==> spelling::spelled(from.push(step)) == walk::member_path(
            spelling::spelled(from),
            key,
        ),
        step is All ==> spelling::spelled(from.push(step)) == walk::element_path(
            spelling::spelled(from),
        ),
{
    assert(from.push(step).drop_last() =~= from);
}

proof fn lemma_visit_goes_on(json: Json, from: Seq<Step>, budget: nat)
    requires
        is_tidy(json),
    ensures
        all_go_on(from, walk::visit(json, spelling::spelled(from), budget)),
    decreases json,
{
    if budget > 0 {
        match json {
            Json::Object(members) => {
                assert(tidy_members(members)) by {
                    let whole = Json::Object(members);
                    assert(is_tidy(whole) && whole->Object_0 == members);
                }
                lemma_members_go_on(members, from, (budget - 1) as nat);
            },
            Json::Array(items) => {
                let whole = Json::Array(items);
                assert(is_tidy(whole) && whole->Array_0 == items);
                lemma_spelled_push(from, Step::All);
                lemma_items_go_on(items, from, (budget - 1) as nat);
            },
            _ => {},
        }
    }
}

proof fn lemma_members_go_on(members: Seq<(Seq<char>, Json)>, from: Seq<Step>, left: nat)
    requires
        tidy_members(members),
    ensures
        all_go_on(from, walk::visit_members(members, spelling::spelled(from), left)),
    decreases members,
{
    if members.len() > 0 {
        let init = members.drop_last();
        let (key, value) = members.last();
        assert(members[members.len() - 1] == (key, value));
        let step = Step::Key(key);
        let prefix = spelling::spelled(from);
        let child = walk::member_path(prefix, key);
        let before = walk::visit_members(init, prefix, left);
        let one = (child, json::type_of(value));
        let inner = walk::visit(value, child, left);
        lemma_init_tidy(members);
        lemma_members_go_on(init, from, left);
        lemma_spelled_push(from, step);
        lemma_visit_goes_on(value, from.push(step), left);
        let all = before.push(one) + inner;
        assert forall|i: int| 0 <= i < all.len() implies goes_on(from, (#[trigger] all[i]).0) by {
            if i < before.len() {
                assert(all[i] == before[i]);
            } else {
                if i > before.len() {
                    assert(all[i] == inner[i - before.len() - 1]);
                }
                lemma_goes_on_step(from, step, all[i].0);
            }
        }
    }
}

proof fn lemma_items_go_on(items: Seq<Json>, from: Seq<Step>, left: nat)
    requires
        forall|i: int| 0 <= i < items.len() ==> is_tidy(#[trigger] items[i]),
    ensures
        all_go_on(
            from,
            walk::visit_items(items, spelling::spelled(from.push(Step::All)), left),
        ),
    decreases items,
{
    if items.len() > 0 {
        let init = items.drop_last();
        let step = Step::All;
        let child = spelling::spelled(from.push(step));
        let before = walk::visit_items(init, child, left);
        let one = (child, json::type_of(items.last()));
        let inner = walk::visit(items.last(), child, left);
        assert(is_tidy(items[items.len() - 1]));
        assert forall|i: int| 0 <= i < init.len() implies is_tidy(#[trigger] init[i]) by {
            assert(init[i] == items[i]);
        }
        lemma_items_go_on(init, from, left);
        lemma_visit_goes_on(items.last(), from.push(step), left);
        let all = before.push(one) + inner;
        assert forall|i: int| 0 <= i < all.len() implies goes_on(from, (#[trigger] all[i]).0) by {
            if i < before.len() {
                assert(all[i] == before[i]);
            } else {
                if i > before.len() {
                    assert(all[i] == inner[i - before.len() - 1]);
                }
                lemma_goes_on_step(from, step, all[i].0);
            }
        }
    }
}

proof fn lemma_init_tidy(members: Seq<(Seq<char>, Json)>)
    requires
        members.len() > 0,
        tidy_members(members),
    ensures
        tidy_members(members.drop_last()),
{
    let init = members.drop_last();
    assert forall|i: int| 0 <= i < init.len() implies spelling::is_simple((#[trigger] init[i]).0)
        && is_tidy(init[i].1) by {
        assert(init[i] == members[i]);
    }
    assert forall|i: int, j: int| 0 <= i < j < init.len() implies (#[trigger] init[i]).0 != (
    #[trigger] init[j]).0 by {
        assert(init[i] == members[i] && init[j] == members[j]);
    }
}

/// Nothing is found under a name that does not occur.
proof fn lemma_nothing_under(seen: Seq<(Seq<char>, Seq<char>)>, name: Seq<char>)
    requires
        forall|i: int| 0 <= i < seen.len() ==> (#[trigger] seen[i]).0 != name,
    ensures
        table::types_under(seen, name) == Seq::<Seq<char>>::empty(),
    decreases seen.len(),
{
    if seen.len() > 0 {
        let init = seen.drop_last();
        assert forall|i: int| 0 <= i < init.len() implies (#[trigger] init[i]).0 != name by {
            assert(init[i] == seen[i]);
        }
        lemma_nothing_under(init, name);
        assert(seen[seen.len() - 1].0 != name);
    }
}

proof fn lemma_under_concat(
    a: Seq<(Seq<char>, Seq<char>)>,
    b: Seq<(Seq<char>, Seq<char>)>,
    name: Seq<char>,
)
    ensures
        table::types_under(a + b, name) == table::types_under(a, name) + table::types_under(
            b,
            name,
        ),
    decreases b.len(),
{
    if b.len() == 0 {
        assert(a + b =~= a);
        assert(table::types_under(a, name) + table::types_under(b, name) =~= table::types_under(
            a,
            name,
        ));
    } else {
        assert((a + b).drop_last() =~= a + b.drop_last());
        lemma_under_concat(a, b.drop_last(), name);
        assert(table::types_under(a + b, name) =~= table::types_under(a, name)
            + table::types_under(b, name));
    }
}

/// What goes on from other steps does not spell `target`.
proof fn lemma_elsewhere(
    from: Seq<Step>,
    seen: Seq<(Seq<char>, Seq<char>)>,
    target: Seq<Step>,
)
    requires
        walkable(from),
        walkable(target),
        target.len() > 0,
        all_go_on(from, seen),
        target.len() <= from.len() || target.take(from.len() as int) != from,
    ensures
        table::types_under(seen, spelling::spelled(target)) == Seq::<Seq<char>>::empty(),
{
    assert forall|i: int| 0 <= i < seen.len() implies (#[trigger] seen[i]).0
        != spelling::spelled(target) by {
        assert(goes_on(from, seen[i].0));
        let more = choose|more: Seq<Step>|
            #![trigger from + more]
            more.len() > 0 && walkable(more) && seen[i].0 == spelling::spelled(from + more);
        let other = from + more;
        lemma_walkable_concat(from, more);
        if other == target {
            assert(target.take(from.len() as int) =~= from);
        }
        lemma_spelled_differs(other, target);
    }
    lemma_nothing_under(seen, spelling::spelled(target));
}

/// Selection goes through several values one by one.
/// What a path selects from several values it selects from each, in order.
pub proof fn lemma_selected_concat(a: Seq<Json>, b: Seq<Json>, steps: Seq<Step>)
    ensures
        path::selected(a + b, steps) == path::selected(a, steps) + path::selected(b, steps),
    decreases steps.len(),
{
    if steps.len() > 0 {
        lemma_step_all_concat(a, b, steps[0]);
        lemma_selected_concat(
            path::step_into_all(a, steps[0]),
            path::step_into_all(b, steps[0]),
            steps.drop_first(),
        );
    }
}

proof fn lemma_step_all_concat(a: Seq<Json>, b: Seq<Json>, step: Step)
    ensures
        path::step_into_all(a + b, step) == path::step_into_all(a, step) + path::step_into_all(
            b,
            step,
        ),
    decreases b.len(),
{
    if b.len() == 0 {
        assert(a + b =~= a);
        assert(path::step_into_all(a, step) + path::step_into_all(b, step)
            =~= path::step_into_all(a, step));
    } else {
        assert((a + b).drop_last() =~= a + b.drop_last());
        lemma_step_all_concat(a, b.drop_last(), step);
        assert(path::step_into_all(a + b, step) =~= path::step_into_all(a, step)
            + path::step_into_all(b, step));
    }
}

proof fn lemma_selected_nothing(steps: Seq<Step>)
    ensures
        path::selected(Seq::empty(), steps) == Seq::<Json>::empty(),
    decreases steps.len(),
{
    if steps.len() > 0 {
        lemma_selected_nothing(steps.drop_first());
    }
}

proof fn lemma_step_into_one(value: Json, step: Step)
    ensures
        path::step_into_all(seq![value], step) == path::step_into(value, step),
{
    assert(seq![value].drop_last() =~= Seq::empty());
    assert(path::step_into_all(seq![value].drop_last(), step) =~= Seq::empty());
    assert(path::step_into_all(seq![value], step) =~= path::step_into(value, step));
}

/// The types that a walk sees where `suffix` leads from a value, that is, in
/// what the steps select there.
spec fn found(value: Json, suffix: Seq<Step>) -> Seq<Seq<char>> {
    field::types_in(path::selected(seq![value], suffix))
}

/// The child that a walk enters by `step`: it is seen itself if no steps are
/// left, and otherwise by what is inside it.
proof fn lemma_child(value: Json, from: Seq<Step>, step: Step, rest: Seq<Step>, left: nat)
    requires
        is_tidy(value),
        walkable(from),
        walkable(seq![step]),
        walkable(rest),
        rest.len() <= left,
        rest.len() > 0 ==> table::types_under(
            walk::visit(value, spelling::spelled(from.push(step)), left),
            spelling::spelled(from.push(step) + rest),
        ) == found(value, rest),
    ensures
        table::types_under(
            seq![(spelling::spelled(from.push(step)), json::type_of(value))] + walk::visit(
                value,
                spelling::spelled(from.push(step)),
                left,
            ),
            spelling::spelled(from.push(step) + rest),
        ) == found(value, rest),
{
    let next = from.push(step);
    let here = spelling::spelled(next);
    let target = next + rest;
    let name = spelling::spelled(target);
    let one = seq![(here, json::type_of(value))];
    let inner = walk::visit(value, here, left);
    assert(next =~= from + seq![step]);
    lemma_walkable_concat(from, seq![step]);
    lemma_walkable_concat(next, rest);
    lemma_under_concat(one, inner, name);
    assert(one.drop_last() =~= Seq::empty());
    assert(table::types_under(one.drop_last(), name) =~= Seq::empty());
    if rest.len() == 0 {
        assert(target =~= next);
        lemma_visit_goes_on(value, next, left);
        lemma_elsewhere(next, inner, target);
        assert(path::selected(seq![value], rest) =~= seq![value]);
        assert(found(value, rest) =~= seq![json::type_of(value)]);
        assert(table::types_under(one, name) =~= seq![json::type_of(value)]);
        assert(table::types_under(one, name) + table::types_under(inner, name) =~= found(
            value,
            rest,
        ));
    } else {
        assert(target.len() != next.len());
        lemma_spelled_differs(next, target);
        assert(table::types_under(one, name) =~= Seq::empty());
        assert(table::types_under(one, name) + table::types_under(inner, name)
            =~= table::types_under(inner, name));
    }
}

/// A child that a walk enters by another step is not on the way.
proof fn lemma_other_child(
    value: Json,
    from: Seq<Step>,
    step: Step,
    suffix: Seq<Step>,
    left: nat,
)
    requires
        is_tidy(value),
        walkable(from),
        walkable(seq![step]),
        walkable(suffix),
        suffix.len() > 0,
        suffix[0] != step,
    ensures
        table::types_under(
            seq![(spelling::spelled(from.push(step)), json::type_of(value))] + walk::visit(
                value,
                spelling::spelled(from.push(step)),
                left,
            ),
            spelling::spelled(from + suffix),
        ) == Seq::<Seq<char>>::empty(),
{
    let next = from.push(step);
    let here = spelling::spelled(next);
    let target = from + suffix;
    let name = spelling::spelled(target);
    let one = seq![(here, json::type_of(value))];
    let inner = walk::visit(value, here, left);
    assert(next =~= from + seq![step]);
    lemma_walkable_concat(from, seq![step]);
    lemma_walkable_concat(from, suffix);
    lemma_under_concat(one, inner, name);
    lemma_visit_goes_on(value, next, left);
    assert(target[from.len() as int] == suffix[0] && next[from.len() as int] == step);
    assert(target.take(next.len() as int) != next) by {
        assert(target.take(next.len() as int)[from.len() as int] == suffix[0]);
    }
    lemma_elsewhere(next, inner, target);
    lemma_spelled_differs(next, target);
    assert(one.drop_last() =~= Seq::empty());
    assert(table::types_under(one.drop_last(), name) =~= Seq::empty());
    assert(table::types_under(one, name) =~= Seq::empty());
    assert(table::types_under(one, name) + table::types_under(inner, name) =~= Seq::empty());
}

/// A walk sees at the spelling of some steps what the steps select.
proof fn lemma_visit_selects(json: Json, from: Seq<Step>, suffix: Seq<Step>, budget: nat)
    requires
        is_tidy(json),
        walkable(from),
        walkable(suffix),
        0 < suffix.len() <= budget,
    ensures
        table::types_under(
            walk::visit(json, spelling::spelled(from), budget),
            spelling::spelled(from + suffix),
        ) == found(json, suffix),
    decreases json,
{
    let left = (budget - 1) as nat;
    let name = spelling::spelled(from + suffix);
    let rest = suffix.drop_first();
    lemma_step_into_one(json, suffix[0]);
    lemma_selected_nothing(rest);
    match json {
        Json::Object(members) => {
            assert(tidy_members(members)) by {
                let whole = Json::Object(members);
                assert(is_tidy(whole) && whole->Object_0 == members);
            }
            lemma_members_select(members, from, suffix, left);
            match suffix[0] {
                Step::Key(key) => {},
                _ => {
                    assert(found(json, suffix) =~= Seq::empty());
                },
            }
        },
        Json::Array(items) => {
            let whole = Json::Array(items);
            assert(is_tidy(whole) && whole->Array_0 == items);
            lemma_spelled_push(from, Step::All);
            lemma_items_select(items, from, suffix, left);
            match suffix[0] {
                Step::All => {},
                _ => {
                    assert(found(json, suffix) =~= Seq::empty());
                },
            }
        },
        _ => {
            assert(found(json, suffix) =~= Seq::empty());
            assert(walk::visit(json, spelling::spelled(from), budget) =~= Seq::empty());
        },
    }
}

/// What is found below the members of an object.
spec fn found_in_members(
    members: Seq<(Seq<char>, Json)>,
    suffix: Seq<Step>,
) -> Seq<Seq<char>> {
    match suffix[0] {
        Step::Key(key) => match json::member(members, key) {
            Some(value) => found(value, suffix.drop_first()),
            None => Seq::empty(),
        },
        _ => Seq::empty(),
    }
}

proof fn lemma_member_last(members: Seq<(Seq<char>, Json)>, key: Seq<char>)
    requires
        members.len() > 0,
        tidy_members(members),
    ensures
        members.last().0 == key ==> json::member(members, key) == Some(members.last().1)
            && json::member(members.drop_last(), key) is None,
        members.last().0 != key ==> json::member(members, key) == json::member(
            members.drop_last(),
            key,
        ),
    decreases members.len(),
{
    let init = members.drop_last();
    if members.len() == 1 {
        assert(members.drop_first() =~= Seq::empty());
        assert(json::member(members.drop_first(), key) is None);
    } else {
        let rest = members.drop_first();
        assert(rest.drop_last() =~= init.drop_first());
        assert(rest.last() == members.last());
        assert(init[0] == members[0]);
        assert(members[0].0 != members[members.len() - 1].0);
        assert(tidy_members(rest)) by {
            assert forall|i: int| 0 <= i < rest.len() implies spelling::is_simple(
                (#[trigger] rest[i]).0,
            ) && is_tidy(rest[i].1) by {
                assert(rest[i] == members[i + 1]);
            }
            assert forall|i: int, j: int| 0 <= i < j < rest.len() implies (#[trigger] rest[i]).0
                != (#[trigger] rest[j]).0 by {
                assert(rest[i] == members[i + 1] && rest[j] == members[j + 1]);
            }
        }
        lemma_member_last(rest, key);
    }
}

proof fn lemma_members_select(
    members: Seq<(Seq<char>, Json)>,
    from: Seq<Step>,
    suffix: Seq<Step>,
    left: nat,
)
    requires
        tidy_members(members),
        walkable(from),
        walkable(suffix),
        0 < suffix.len() <= left + 1,
    ensures
        table::types_under(
            walk::visit_members(members, spelling::spelled(from), left),
            spelling::spelled(from + suffix),
        ) == found_in_members(members, suffix),
    decreases members,
{
    let name = spelling::spelled(from + suffix);
    if members.len() == 0 {
        assert(table::types_under(Seq::empty(), name) =~= Seq::empty());
    } else {
        let init = members.drop_last();
        let (key, value) = members.last();
        let step = Step::Key(key);
        let rest = suffix.drop_first();
        let prefix = spelling::spelled(from);
        let child = walk::member_path(prefix, key);
        let before = walk::visit_members(init, prefix, left);
        let one = seq![(child, json::type_of(value))];
        let inner = walk::visit(value, child, left);
        assert(members[members.len() - 1] == (key, value));
        lemma_init_tidy(members);
        lemma_members_select(init, from, suffix, left);
        lemma_spelled_push(from, step);
        assert(before.push((child, json::type_of(value))) + inner =~= before + (one + inner));
        lemma_under_concat(before, one + inner, name);
        assert(walkable(seq![step]));
        lemma_rest_walkable(suffix);
        if suffix[0] == step {
            assert(from + suffix =~= from.push(step) + rest);
            if rest.len() > 0 {
                assert(walkable(from.push(step))) by {
                    lemma_walkable_concat(from, seq![step]);
                    assert(from + seq![step] =~= from.push(step));
                }
                lemma_visit_selects(value, from.push(step), rest, left);
            }
            lemma_child(value, from, step, rest, left);
            lemma_member_last(members, key);
            assert(found_in_members(init, suffix) + found(value, rest) =~= found(value, rest));
        } else {
            lemma_other_child(value, from, step, suffix, left);
            if let Step::Key(wanted) = suffix[0] {
                lemma_member_last(members, wanted);
            }
            assert(found_in_members(init, suffix) + Seq::<Seq<char>>::empty()
                =~= found_in_members(init, suffix));
        }
    }
}

proof fn lemma_rest_walkable(steps: Seq<Step>)
    requires
        walkable(steps),
        steps.len() > 0,
    ensures
        walkable(steps.drop_first()),
{
    let rest = steps.drop_first();
    assert forall|i: int| 0 <= i < rest.len() implies match #[trigger] rest[i] {
        Step::Key(key) => spelling::is_simple(key),
        Step::All => true,
        Step::Index(_) => false,
    } by {
        assert(rest[i] == steps[i + 1]);
    }
}

/// What is found below the elements of an array.
spec fn found_in_items(items: Seq<Json>, suffix: Seq<Step>) -> Seq<Seq<char>> {
    match suffix[0] {
        Step::All => field::types_in(path::selected(items, suffix.drop_first())),
        _ => Seq::empty(),
    }
}

proof fn lemma_items_select(
    items: Seq<Json>,
    from: Seq<Step>,
    suffix: Seq<Step>,
    left: nat,
)
    requires
        forall|i: int| 0 <= i < items.len() ==> is_tidy(#[trigger] items[i]),
        walkable(from),
        walkable(suffix),
        0 < suffix.len() <= left + 1,
    ensures
        table::types_under(
            walk::visit_items(items, spelling::spelled(from.push(Step::All)), left),
            spelling::spelled(from + suffix),
        ) == found_in_items(items, suffix),
    decreases items,
{
    let name = spelling::spelled(from + suffix);
    let rest = suffix.drop_first();
    let step = Step::All;
    if items.len() == 0 {
        assert(items =~= Seq::empty());
        lemma_selected_nothing(rest);
        assert(found_in_items(items, suffix) =~= Seq::empty());
        assert(table::types_under(Seq::empty(), name) =~= Seq::empty());
    } else {
        let init = items.drop_last();
        let value = items.last();
        let child = spelling::spelled(from.push(step));
        let before = walk::visit_items(init, child, left);
        let one = seq![(child, json::type_of(value))];
        let inner = walk::visit(value, child, left);
        assert(is_tidy(items[items.len() - 1]));
        assert forall|i: int| 0 <= i < init.len() implies is_tidy(#[trigger] init[i]) by {
            assert(init[i] == items[i]);
        }
        lemma_items_select(init, from, suffix, left);
        assert(before.push((child, json::type_of(value))) + inner =~= before + (one + inner));
        lemma_under_concat(before, one + inner, name);
        assert(walkable(seq![step]));
        lemma_rest_walkable(suffix);
        if suffix[0] == step {
            assert(from + suffix =~= from.push(step) + rest);
            if rest.len() > 0 {
                assert(walkable(from.push(step))) by {
                    lemma_walkable_concat(from, seq![step]);
                    assert(from + seq![step] =~= from.push(step));
                }
                lemma_visit_selects(value, from.push(step), rest, left);
            }
            lemma_child(value, from, step, rest, left);
            assert(items =~= init + seq![value]);
            lemma_selected_concat(init, seq![value], rest);
            assert(found_in_items(items, suffix) =~= found_in_items(init, suffix) + found(
                value,
                rest,
            ));
        } else {
            lemma_other_child(value, from, step, suffix, left);
            assert(found_in_items(init, suffix) + Seq::<Seq<char>>::empty()
                =~= found_in_items(init, suffix));
        }
    }
}

/// A schema says of a path what profiling that path as a field says: in how
/// many records it is present, how many values it has, and of which types.
/// This holds for paths no longer than the walk is deep, made of keys and
/// fan-outs, over records whose objects have distinct keys that can be spelled
/// in a path.
pub proof fn law_schema_agrees_with_field_profiles(
    records: Seq<Json>,
    depth: nat,
    steps: Seq<Step>,
)
    requires
        forall|i: int| 0 <= i < records.len() ==> is_tidy(#[trigger] records[i]),
        walkable(steps),
        0 < steps.len() <= depth,
    ensures
        path::path_steps(spelling::spelled(steps)) == Ok::<Seq<Step>, path::PathFault>(steps),
        ({
            let listed = walk::path_entry(records, depth, spelling::spelled(steps));
            let profile = field::field_profile(records, steps);
            &&& listed.present == profile.present
            &&& listed.count == profile.values
            &&& listed.types == profile.types
        }),
{
    lemma_walkable_simple(steps);
    spelling::law_spelling_is_read_back(steps);
    lemma_records_agree(records, depth, steps);
    table::lemma_types_under_len(walk::visits(records, depth), spelling::spelled(steps));
}

proof fn lemma_records_agree(records: Seq<Json>, depth: nat, steps: Seq<Step>)
    requires
        forall|i: int| 0 <= i < records.len() ==> is_tidy(#[trigger] records[i]),
        walkable(steps),
        0 < steps.len() <= depth,
    ensures
        table::types_under(walk::visits(records, depth), spelling::spelled(steps))
            == field::types_in(field::matches_in(records, steps)),
        walk::holders(records, depth, spelling::spelled(steps)) == field::present_in(
            records,
            steps,
        ),
    decreases records.len(),
{
    let name = spelling::spelled(steps);
    if records.len() == 0 {
        assert(field::types_in(field::matches_in(records, steps)) =~= Seq::empty());
    } else {
        let init = records.drop_last();
        let last = records.last();
        let none = Seq::<Step>::empty();
        let seen = walk::record_visits(last, depth);
        assert(is_tidy(records[records.len() - 1]));
        assert forall|i: int| 0 <= i < init.len() implies is_tidy(#[trigger] init[i]) by {
            assert(init[i] == records[i]);
        }
        lemma_records_agree(init, depth, steps);
        lemma_under_concat(walk::visits(init, depth), seen, name);
        assert(none + steps =~= steps);
        lemma_visit_selects(last, none, steps, depth);
        table::lemma_types_under_len(seen, name);
        table::lemma_occurrences(table::names_of(seen), name);
        let before = field::matches_in(init, steps);
        let more = path::selected(seq![last], steps);
        assert(field::types_in(before + more) =~= field::types_in(before) + field::types_in(
            more,
        ));
    }
}

} // verus!
