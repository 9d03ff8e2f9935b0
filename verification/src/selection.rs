//! Which values of a record a path selects.

use vstd::prelude::*;

use crate::agreement;
use crate::json;
use crate::json::Json;
use crate::path;
use crate::path::Step;

verus! {

proof fn lemma_one_step(value: Json, step: Step)
    ensures
        path::selected(seq![value], seq![step]) == path::step_into(value, step),
{
    let found = path::step_into(value, step);
    reveal_with_fuel(path::selected, 2);
    assert(seq![step].drop_first() =~= Seq::empty());
    assert(seq![value].drop_last() =~= Seq::empty());
    assert(path::step_into_all(seq![value].drop_last(), step) =~= Seq::empty());
    assert(path::step_into_all(seq![value], step) =~= found);
}

/// The item of an array that has `before` items before it and `after` items
/// after it is selected by the index `before`, which counts from the start, and
/// by the index `-1 - after`, which counts from the end.
pub proof fn law_indices_count_from_either_end(items: Seq<Json>, before: int, after: int)
    requires
        before >= 0,
        after >= 0,
        before + 1 + after == items.len(),
        items.len() <= i64::MAX,
    ensures
        path::selected(seq![Json::Array(items)], seq![Step::Index(before as i64)])
            == items.subrange(before, before + 1),
        path::selected(seq![Json::Array(items)], seq![Step::Index((-1 - after) as i64)])
            == items.subrange(before, before + 1),
{
    lemma_one_step(Json::Array(items), Step::Index(before as i64));
    lemma_one_step(Json::Array(items), Step::Index((-1 - after) as i64));
    assert(items.subrange(before, before + 1) =~= seq![items[before]]);
}

/// An index with no item, counted from either end, selects nothing.
pub proof fn law_index_out_of_range_selects_nothing(items: Seq<Json>, index: i64)
    requires
        index >= items.len() || index < -(items.len() as int),
    ensures
        path::selected(seq![Json::Array(items)], seq![Step::Index(index)]).len() == 0,
{
    lemma_one_step(Json::Array(items), Step::Index(index));
}

/// A fan-out selects what the indices select one after the other, from the
/// start or, counting down, from the end.
pub proof fn law_fan_out_selects_every_item(items: Seq<Json>)
    requires
        items.len() <= i64::MAX,
    ensures
        path::selected(seq![Json::Array(items)], seq![Step::All]) == items,
        ({
            let all = path::selected(seq![Json::Array(items)], seq![Step::All]);
            let n = items.len() as int;
            &&& forall|i: int|
                0 <= i < n ==> path::selected(
                    seq![Json::Array(items)],
                    seq![Step::Index(i as i64)],
                ) == seq![#[trigger] all[i]]
            &&& forall|i: int|
                0 <= i < n ==> path::selected(
                    seq![Json::Array(items)],
                    seq![Step::Index((i - n) as i64)],
                ) == seq![#[trigger] all[i]]
        }),
{
    let n = items.len() as int;
    lemma_one_step(Json::Array(items), Step::All);
    assert forall|i: int| 0 <= i < n implies path::selected(
        seq![Json::Array(items)],
        seq![Step::Index(i as i64)],
    ) == seq![#[trigger] items[i]] && path::selected(
        seq![Json::Array(items)],
        seq![Step::Index((i - n) as i64)],
    ) == seq![items[i]] by {
        law_indices_count_from_either_end(items, i, n - 1 - i);
        assert(items.subrange(i, i + 1) =~= seq![items[i]]);
    }
}

/// A key selects the value of the first member of that name.
pub proof fn law_key_selects_the_first_member(
    before: Seq<(Seq<char>, Json)>,
    key: Seq<char>,
    value: Json,
    after: Seq<(Seq<char>, Json)>,
)
    requires
        forall|i: int| 0 <= i < before.len() ==> (#[trigger] before[i]).0 != key,
    ensures
        json::member(before + seq![(key, value)] + after, key) == Some(value),
        path::selected(
            seq![Json::Object(before + seq![(key, value)] + after)],
            seq![Step::Key(key)],
        ) == seq![value],
    decreases before.len(),
{
    let members = before + seq![(key, value)] + after;
    if before.len() == 0 {
        assert(members[0] == (key, value));
    } else {
        let rest = before.drop_first();
        assert forall|i: int| 0 <= i < rest.len() implies (#[trigger] rest[i]).0 != key by {
            assert(rest[i] == before[i + 1]);
        }
        law_key_selects_the_first_member(rest, key, value, after);
        assert(members.drop_first() =~= rest + seq![(key, value)] + after);
        assert(members[0] == before[0]);
    }
    lemma_one_step(Json::Object(members), Step::Key(key));
}

/// A key that no member has selects nothing.
pub proof fn law_missing_key_selects_nothing(members: Seq<(Seq<char>, Json)>, key: Seq<char>)
    requires
        forall|i: int| 0 <= i < members.len() ==> (#[trigger] members[i]).0 != key,
    ensures
        json::member(members, key) is None,
        path::selected(seq![Json::Object(members)], seq![Step::Key(key)]).len() == 0,
    decreases members.len(),
{
    if members.len() > 0 {
        let rest = members.drop_first();
        assert forall|i: int| 0 <= i < rest.len() implies (#[trigger] rest[i]).0 != key by {
            assert(rest[i] == members[i + 1]);
        }
        law_missing_key_selects_nothing(rest, key);
        assert(members[0].0 != key);
    }
    lemma_one_step(Json::Object(members), Step::Key(key));
}

/// A key selects inside objects only, an index and a fan-out inside arrays
/// only; elsewhere they select nothing.
pub proof fn law_steps_that_do_not_fit_select_nothing(value: Json, step: Step)
    requires
        step is Key ==> !(value is Object),
        !(step is Key) ==> !(value is Array),
    ensures
        path::selected(seq![value], seq![step]).len() == 0,
{
    lemma_one_step(value, step);
}

/// A path selects from several values what it selects from each, in their
/// order; no steps select the value itself.
pub proof fn law_branches_are_followed_in_order(a: Seq<Json>, b: Seq<Json>, steps: Seq<Step>)
    ensures
        path::selected(a + b, steps) == path::selected(a, steps) + path::selected(b, steps),
        path::selected(Seq::empty(), steps).len() == 0,
        path::selected(a, Seq::empty()) == a,
    decreases steps.len(),
{
    agreement::lemma_selected_concat(a, b, steps);
    let none = Seq::<Json>::empty();
    agreement::lemma_selected_concat(none, none, steps);
    assert(none + none =~= none);
}

} // verus!
