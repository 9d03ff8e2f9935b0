//! Value distributions for one field path.

use vstd::prelude::*;

use crate::json;
use crate::json::Json;
use crate::json::Value;
use crate::path;
use crate::path::FieldPath;
use crate::path::Step;
use crate::ratio;
use crate::ratio::Ratio;
use crate::render;
use crate::table;
use crate::table::record_type;
use crate::text;
use crate::text::compare;
use crate::text::Order;

verus! {

/// Value table cap: past this many distinct values, a field keeps counting
/// `values`/`present` but stops remembering individual values.
pub const MAX_FIELD_VALUES: usize = 10_000;

/// Each of the first `cap` distinct texts with the number of its occurrences.
pub open spec fn counted(texts: Seq<Seq<char>>, cap: nat) -> Map<Seq<char>, nat> {
    Map::new(
        |one: Seq<char>| table::kept(texts, cap).contains(one),
        |one: Seq<char>| table::occurrences(texts, one),
    )
}

/// Whether every value in a value table was counted at least once.
pub open spec fn all_positive(counts: Map<Seq<char>, nat>) -> bool {
    forall|one: Seq<char>| #[trigger] counts.contains_key(one) ==> counts[one] >= 1
}

/// A value table after one more occurrence of a text.
pub open spec fn noted(
    counts: Map<Seq<char>, nat>,
    cap: nat,
    one: Seq<char>,
) -> Map<Seq<char>, nat> {
    if counts.contains_key(one) {
        counts.insert(one, counts[one] + 1)
    } else if counts.dom().len() < cap {
        counts.insert(one, 1)
    } else {
        counts
    }
}

/// The value distribution of a field path.
#[verifier::ext_equal]
pub struct Profile {
    /// Number of records with at least one match.
    pub present: nat,
    /// Total number of matched values.
    pub values: nat,
    /// Value types, in first-seen order.
    pub types: Seq<(Seq<char>, nat)>,
    /// How often each value occurs, by its JSON text.
    pub counts: Map<Seq<char>, nat>,
    /// Whether the value table is incomplete.
    pub truncated: bool,
}

/// The values that a path selects from records, in order.
pub open spec fn matches_in(records: Seq<Json>, steps: Seq<Step>) -> Seq<Json>
    decreases records.len(),
{
    if records.len() == 0 {
        Seq::empty()
    } else {
        matches_in(records.drop_last(), steps) + path::selected(seq![records.last()], steps)
    }
}

/// How many records hold at least one value that a path selects.
pub open spec fn present_in(records: Seq<Json>, steps: Seq<Step>) -> nat
    decreases records.len(),
{
    if records.len() == 0 {
        0
    } else {
        present_in(records.drop_last(), steps) + (if path::selected(
            seq![records.last()],
            steps,
        ).len() > 0 {
            1nat
        } else {
            0nat
        })
    }
}

/// The type names of values.
pub open spec fn types_in(values: Seq<Json>) -> Seq<Seq<char>> {
    values.map_values(|value: Json| json::type_of(value))
}

/// The JSON texts of values.
pub open spec fn texts_in(values: Seq<Json>) -> Seq<Seq<char>> {
    values.map_values(|value: Json| render::rendered(value))
}

/// The distribution of the given values, which `present` records hold.
pub open spec fn profile_of(present: nat, values: Seq<Json>) -> Profile {
    Profile {
        present,
        values: values.len(),
        types: table::tally(types_in(values)),
        counts: counted(texts_in(values), MAX_FIELD_VALUES as nat),
        truncated: table::overflows(texts_in(values), MAX_FIELD_VALUES as nat),
    }
}

/// The distribution of a field path over records.
pub open spec fn field_profile(records: Seq<Json>, steps: Seq<Step>) -> Profile {
    profile_of(present_in(records, steps), matches_in(records, steps))
}

/// A distribution after one more value.
pub open spec fn after_value(profile: Profile, value: Json) -> Profile {
    let one = render::rendered(value);
    Profile {
        present: profile.present,
        values: profile.values + 1,
        types: table::bump(profile.types, json::type_of(value)),
        counts: noted(profile.counts, MAX_FIELD_VALUES as nat, one),
        truncated: profile.truncated || (!profile.counts.contains_key(one)
            && profile.counts.dom().len() >= MAX_FIELD_VALUES),
    }
}

/// A distribution after several more values.
pub open spec fn after_values(profile: Profile, values: Seq<Json>) -> Profile
    decreases values.len(),
{
    if values.len() == 0 {
        profile
    } else {
        after_value(after_values(profile, values.drop_last()), values.last())
    }
}

/// A distribution after one more record.
pub open spec fn after_record(profile: Profile, record: Json, steps: Seq<Step>) -> Profile {
    let found = path::selected(seq![record], steps);
    if found.len() == 0 {
        profile
    } else {
        let after = after_values(profile, found);
        Profile { present: profile.present + 1, ..after }
    }
}

/// The value table remembers as many texts as it keeps.
pub proof fn lemma_counted_len(texts: Seq<Seq<char>>, cap: nat)
    ensures
        counted(texts, cap).dom().finite(),
        counted(texts, cap).dom().len() == table::kept(texts, cap).len(),
{
    let k = table::kept(texts, cap);
    table::lemma_distinct(texts);
    assert(k.no_duplicates());
    assert(counted(texts, cap).dom() =~= k.to_set());
    k.unique_seq_to_set();
}

/// One more text enters the value table.
pub proof fn lemma_counted_push(texts: Seq<Seq<char>>, cap: nat, one: Seq<char>)
    ensures
        counted(texts.push(one), cap) == noted(counted(texts, cap), cap, one),
        table::overflows(texts.push(one), cap) <==> table::overflows(texts, cap) || (!counted(
            texts,
            cap,
        ).contains_key(one) && counted(texts, cap).dom().len() >= cap),
{
    let more = texts.push(one);
    assert(more.drop_last() =~= texts);
    let d = table::distinct(texts);
    let k = table::kept(texts, cap);
    table::lemma_distinct(texts);
    table::lemma_occurrences(texts, one);
    lemma_counted_len(texts, cap);
    if d.contains(one) {
        assert(table::distinct(more) == d);
        assert(table::kept(more, cap) == k);
        if !k.contains(one) && d.len() <= cap {
            assert(k =~= d);
        }
        assert(counted(more, cap) =~= noted(counted(texts, cap), cap, one));
    } else {
        assert(table::distinct(more) == d.push(one));
        assert(!k.contains(one)) by {
            if k.contains(one) {
                let i = choose|i: int| 0 <= i < k.len() && k[i] == one;
                assert(d[i] == one);
            }
        }
        if d.len() < cap {
            assert(table::kept(more, cap) =~= k.push(one));
            assert forall|other: Seq<char>| #[trigger]
                k.push(one).contains(other) <==> k.contains(other) || other == one by {
                if k.contains(other) {
                    let i = choose|i: int| 0 <= i < k.len() && k[i] == other;
                    assert(k.push(one)[i] == other);
                }
                assert(k.push(one)[k.len() as int] == one);
            }
            assert(counted(more, cap) =~= noted(counted(texts, cap), cap, one));
        } else {
            assert(table::kept(more, cap) =~= k);
            assert(counted(more, cap) =~= noted(counted(texts, cap), cap, one));
        }
    }
}

/// One more value enters the distribution.
pub proof fn lemma_profile_push(present: nat, values: Seq<Json>, value: Json)
    ensures
        profile_of(present, values.push(value)) == after_value(profile_of(present, values), value),
{
    assert(types_in(values.push(value)) =~= types_in(values).push(json::type_of(value)));
    assert(texts_in(values.push(value)) =~= texts_in(values).push(render::rendered(value)));
    table::lemma_tally_push(types_in(values), json::type_of(value));
    lemma_counted_push(texts_in(values), MAX_FIELD_VALUES as nat, render::rendered(value));
}

/// More values enter the distribution one by one.
pub proof fn lemma_profile_concat(present: nat, values: Seq<Json>, more: Seq<Json>)
    ensures
        profile_of(present, values + more) == after_values(profile_of(present, values), more),
    decreases more.len(),
{
    if more.len() == 0 {
        assert(values + more =~= values);
    } else {
        let init = more.drop_last();
        lemma_profile_concat(present, values, init);
        lemma_profile_push(present, values + init, more.last());
        assert(values + more =~= (values + init).push(more.last()));
    }
}

/// `after_values` leaves the number of records alone and does not depend on it.
proof fn lemma_after_values_present(profile: Profile, present: nat, values: Seq<Json>)
    ensures
        after_values(profile, values).present == profile.present,
        after_values((Profile { present, ..profile }), values) == (Profile {
            present,
            ..after_values(profile, values)
        }),
    decreases values.len(),
{
    if values.len() > 0 {
        lemma_after_values_present(profile, present, values.drop_last());
    }
}

/// One more record enters the distribution of a field path.
pub proof fn lemma_field_profile_push(records: Seq<Json>, steps: Seq<Step>, record: Json)
    ensures
        field_profile(records.push(record), steps) == after_record(
            field_profile(records, steps),
            record,
            steps,
        ),
{
    let found = path::selected(seq![record], steps);
    let before = field_profile(records, steps);
    assert(records.push(record).drop_last() =~= records);
    let values = matches_in(records, steps);
    if found.len() == 0 {
        assert(values + found =~= values);
    } else {
        let present = present_in(records, steps);
        lemma_profile_concat(present + 1, values, found);
        lemma_after_values_present(before, present + 1, found);
        assert(profile_of(present + 1, values) == (Profile { present: present + 1, ..before }));
    }
}

/// Whether no counter of a distribution exceeds `n`.
pub open spec fn profile_within(profile: Profile, n: int) -> bool {
    &&& profile.values <= n
    &&& table::tally_within(profile.types, n)
    &&& forall|one: Seq<char>|
        profile.counts.contains_key(one) ==> #[trigger] profile.counts[one] <= n
}

/// Values are counted no more often than there are values.
pub proof fn lemma_profile_within(present: nat, values: Seq<Json>)
    ensures
        profile_within(profile_of(present, values), values.len() as int),
{
    let profile = profile_of(present, values);
    table::lemma_tally_within(types_in(values));
    assert forall|one: Seq<char>|
        profile.counts.contains_key(one) implies #[trigger] profile.counts[one]
        <= values.len() by {
        table::lemma_occurrences(texts_in(values), one);
    }
}

proof fn lemma_after_value_within(profile: Profile, value: Json, n: int)
    requires
        profile_within(profile, n),
        n >= 0,
    ensures
        profile_within(after_value(profile, value), n + 1),
{
    table::lemma_bump_within(profile.types, json::type_of(value), n);
    let after = after_value(profile, value);
    let one = render::rendered(value);
    assert forall|other: Seq<char>|
        after.counts.contains_key(other) implies #[trigger] after.counts[other] <= n + 1 by {
        if other != one {
            assert(after.counts[other] == profile.counts[other]);
        } else if profile.counts.contains_key(one) {
            assert(profile.counts[one] <= n);
        }
    }
}

/// A bound on counters can be raised.
pub proof fn lemma_profile_widen(profile: Profile, n: int, m: int)
    requires
        profile_within(profile, n),
        n <= m,
    ensures
        profile_within(profile, m),
{
    assert forall|one: Seq<char>|
        profile.counts.contains_key(one) implies #[trigger] profile.counts[one] <= m by {
        assert(profile.counts[one] <= n);
    }
}

proof fn lemma_after_values_within(profile: Profile, values: Seq<Json>, n: int)
    requires
        profile_within(profile, n),
        n >= 0,
    ensures
        profile_within(after_values(profile, values), n + values.len()),
    decreases values.len(),
{
    if values.len() > 0 {
        lemma_after_values_within(profile, values.drop_last(), n);
        lemma_after_value_within(
            after_values(profile, values.drop_last()),
            values.last(),
            n + values.len() - 1,
        );
    }
}

/// One more record raises counters by no more than its number of values.
pub proof fn lemma_after_record_within(
    profile: Profile,
    record: Json,
    steps: Seq<Step>,
    n: int,
)
    requires
        profile_within(profile, n),
        n >= 0,
    ensures
        profile_within(after_record(profile, record, steps), n + json::nodes(record)),
        after_record(profile, record, steps).present <= profile.present + 1,
{
    let found = path::selected(seq![record], steps);
    let size = json::nodes(record) as int;
    lemma_selected_count(record, steps);
    lemma_profile_widen(profile, n, n + size);
    if found.len() > 0 {
        let after = after_values(profile, found);
        lemma_after_values_within(profile, found, n);
        lemma_profile_widen(after, n + found.len(), n + size);
        assert forall|one: Seq<char>|
            after_record(profile, record, steps).counts.contains_key(
                one,
            ) implies #[trigger] after_record(profile, record, steps).counts[one] <= n + size by {
            assert(after.counts[one] <= n + size);
        }
    }
}

/// A path selects no more values than a record is made of.
pub proof fn lemma_selected_count(record: Json, steps: Seq<Step>)
    ensures
        path::selected(seq![record], steps).len() <= json::nodes(record),
{
    path::lemma_selected_size(seq![record], steps);
    assert(seq![record].drop_last() =~= Seq::empty());
    assert(json::item_nodes(seq![record].drop_last()) == 0);
}

/// The texts of a value table.
pub open spec fn counted_texts(counts: Seq<(String, u64)>) -> Seq<Seq<char>> {
    counts.map_values(|one: (String, u64)| one.0@)
}

/// What a value table stands for.
pub open spec fn counts_view(counts: Seq<(String, u64)>) -> Map<Seq<char>, nat> {
    Map::new(
        |one: Seq<char>| counted_texts(counts).contains(one),
        |one: Seq<char>| counts[table::slot(counted_texts(counts), one)].1 as nat,
    )
}

proof fn lemma_slot_unique(texts: Seq<Seq<char>>, at: int)
    requires
        texts.no_duplicates(),
        0 <= at < texts.len(),
    ensures
        table::slot(texts, texts[at]) == at,
{
    table::lemma_slot_found(texts, texts[at], at);
}

proof fn lemma_counts_view(counts: Seq<(String, u64)>)
    requires
        text::alphabetical(counted_texts(counts)),
    ensures
        forall|i: int|
            0 <= i < counts.len() ==> counts_view(counts).contains_key(
                (#[trigger] counts[i]).0@,
            ) && counts_view(counts)[counts[i].0@] == counts[i].1,
        counts_view(counts).dom().finite(),
        counts_view(counts).dom().len() == counts.len(),
{
    let texts = counted_texts(counts);
    text::lemma_alphabetical_distinct(texts);
    assert forall|i: int| 0 <= i < counts.len() implies counts_view(counts).contains_key(
        (#[trigger] counts[i]).0@,
    ) && counts_view(counts)[counts[i].0@] == counts[i].1 by {
        assert(texts[i] == counts[i].0@);
        lemma_slot_unique(texts, i);
    }
    assert(counts_view(counts).dom() =~= texts.to_set());
    texts.unique_seq_to_set();
}

/// Counts one more occurrence of a text in an alphabetical value table, and
/// tells whether the table was too full to remember it.
fn note_value(counts: &mut Vec<(String, u64)>, one: String) -> (spilled: bool)
    requires
        text::alphabetical(counted_texts(old(counts)@)),
        forall|i: int| 0 <= i < old(counts)@.len() ==> (#[trigger] old(counts)@[i]).1 < u64::MAX,
    ensures
        text::alphabetical(counted_texts(final(counts)@)),
        counts_view(final(counts)@) == noted(
            counts_view(old(counts)@),
            MAX_FIELD_VALUES as nat,
            one@,
        ),
        spilled == (!counts_view(old(counts)@).contains_key(one@) && counts_view(
            old(counts)@,
        ).dom().len() >= MAX_FIELD_VALUES),
{
    let ghost before = counts@;
    let ghost texts = counted_texts(before);
    proof {
        lemma_counts_view(before);
        text::lemma_alphabetical_distinct(texts);
    }
    let mut low: usize = 0;
    let mut high: usize = counts.len();
    while low < high
        invariant
            low <= high <= counts@.len(),
            *counts == *old(counts),
            before == counts@,
            texts == counted_texts(before),
            text::alphabetical(texts),
            forall|i: int| 0 <= i < low ==> text::order(#[trigger] texts[i], one@) == Order::Before,
            forall|i: int|
                high <= i < texts.len() ==> text::order(#[trigger] texts[i], one@) == Order::After,
            forall|i: int| 0 <= i < before.len() ==> (#[trigger] before[i]).1 < u64::MAX,
            forall|i: int|
                0 <= i < before.len() ==> counts_view(before).contains_key(
                    (#[trigger] before[i]).0@,
                ) && counts_view(before)[before[i].0@] == before[i].1,
        decreases high - low,
    {
        let mid: usize = low + (high - low) / 2;
        assert(texts[mid as int] == before[mid as int].0@);
        match compare(counts[mid].0.as_str(), one.as_str()) {
            Order::Before => {
                assert forall|i: int| 0 <= i < mid + 1 implies text::order(
                    #[trigger] texts[i],
                    one@,
                ) == Order::Before by {
                    if i < mid {
                        assert(text::order(texts[i], texts[mid as int]) == Order::Before);
                        text::lemma_order_transitive(texts[i], texts[mid as int], one@);
                    }
                }
                low = mid + 1;
            },
            Order::After => {
                assert forall|i: int| mid <= i < texts.len() implies text::order(
                    #[trigger] texts[i],
                    one@,
                ) == Order::After by {
                    text::lemma_order_swap(one@, texts[mid as int]);
                    if i > mid {
                        assert(text::order(texts[mid as int], texts[i]) == Order::Before);
                        text::lemma_order_transitive(one@, texts[mid as int], texts[i]);
                        text::lemma_order_swap(one@, texts[i]);
                    }
                }
                high = mid;
            },
            Order::Same => {
                proof {
                    text::lemma_order_same(texts[mid as int], one@);
                }
                let n: u64 = counts[mid].1;
                counts[mid] = (one, n + 1);
                proof {
                    let after = counts@;
                    assert(counted_texts(after) =~= texts);
                    lemma_counts_view(after);
                    assert(counts_view(before)[before[mid as int].0@] == n);
                    assert forall|other: Seq<char>|
                        counts_view(after).contains_key(other) && other
                            != texts[mid as int] implies counts_view(after)[other]
                        == counts_view(before)[other] by {
                        table::lemma_slot(texts, other);
                    }
                    assert(counts_view(after)[after[mid as int].0@] == n + 1);
                    assert(counts_view(after) =~= noted(
                        counts_view(before),
                        MAX_FIELD_VALUES as nat,
                        texts[mid as int],
                    ));
                }
                return false;
            },
        }
    }
    proof {
        if texts.contains(one@) {
            let i = choose|i: int| 0 <= i < texts.len() && texts[i] == one@;
            text::lemma_order_same(texts[i], one@);
        }
    }
    if counts.len() >= MAX_FIELD_VALUES {
        return true;
    }
    let ghost added = one@;
    counts.insert(low, (one, 1));
    proof {
        let after = counts@;
        let more = counted_texts(after);
        assert(more =~= texts.insert(low as int, added));
        assert forall|i: int, j: int|
            #![trigger more[i], more[j]]
            0 <= i < j < more.len() implies text::order(more[i], more[j]) == Order::Before by {
            let a = if i < low {
                i
            } else {
                i - 1
            };
            let b = if j < low {
                j
            } else {
                j - 1
            };
            if i == low {
                assert(more[j] == texts[b]);
                text::lemma_order_swap(added, texts[b]);
            } else if j == low {
                assert(more[i] == texts[a]);
            } else {
                assert(more[i] == texts[a] && more[j] == texts[b]);
            }
        }
        lemma_counts_view(after);
        text::lemma_alphabetical_distinct(more);
        assert(after[low as int].0@ == added);
        assert forall|other: Seq<char>| #[trigger]
            more.contains(other) <==> texts.contains(other) || other == added by {
            if texts.contains(other) {
                let i = choose|i: int| 0 <= i < texts.len() && texts[i] == other;
                assert(more[if i < low { i } else { i + 1 }] == other);
            }
            if more.contains(other) {
                let i = choose|i: int| 0 <= i < more.len() && more[i] == other;
                if i != low {
                    assert(texts[if i < low { i } else { i - 1 }] == other);
                }
            }
            assert(more[low as int] == added);
        }
        assert forall|other: Seq<char>| texts.contains(other) implies #[trigger] counts_view(
            after,
        )[other] == counts_view(before)[other] by {
            let i = choose|i: int| 0 <= i < texts.len() && texts[i] == other;
            let j = if i < low {
                i
            } else {
                i + 1
            };
            assert(before[i].0@ == other);
            assert(after[j] == before[i]);
        }
        assert(counts_view(after) =~= noted(counts_view(before), MAX_FIELD_VALUES as nat, added));
    }
    false
}

/// Whether a counted value is reported before another: the more common one,
/// and of equally common ones the alphabetically first.
pub open spec fn ranks_before(a: (Seq<char>, nat), b: (Seq<char>, nat)) -> bool {
    a.1 > b.1 || (a.1 == b.1 && text::order(a.0, b.0) == Order::Before)
}

/// Whether `top` lists the `n` most common values of a value table (all of
/// them if there are fewer), most common first and ties broken alphabetically.
pub open spec fn is_top(top: Seq<(Seq<char>, nat)>, counts: Map<Seq<char>, nat>, n: nat) -> bool {
    &&& top.len() == table::least(n, counts.dom().len())
    &&& forall|i: int|
        0 <= i < top.len() ==> counts.contains_key((#[trigger] top[i]).0) && counts[top[i].0]
            == top[i].1
    &&& forall|i: int, j: int|
        #![trigger top[i], top[j]]
        0 <= i < j < top.len() ==> ranks_before(top[i], top[j])
    &&& forall|one: Seq<char>, i: int|
        #![trigger counts.contains_key(one), top[i]]
        counts.contains_key(one) && !top.contains((one, counts[one])) && 0 <= i < top.len()
            ==> ranks_before(top[i], (one, counts[one]))
}

/// What listed values stand for.
pub open spec fn listed(top: Seq<(&str, u64)>) -> Seq<(Seq<char>, nat)> {
    top.map_values(|one: (&str, u64)| (one.0@, one.1 as nat))
}

spec fn pairs(counts: Seq<(String, u64)>) -> Seq<(Seq<char>, nat)> {
    counts.map_values(|one: (String, u64)| (one.0@, one.1 as nat))
}

spec fn is_best(best: Seq<(Seq<char>, nat)>, all: Seq<(Seq<char>, nat)>, n: nat) -> bool {
    &&& best.len() == table::least(n, all.len())
    &&& forall|i: int| 0 <= i < best.len() ==> all.contains(#[trigger] best[i])
    &&& forall|i: int, j: int|
        #![trigger best[i], best[j]]
        0 <= i < j < best.len() ==> ranks_before(best[i], best[j])
    &&& forall|k: int, i: int|
        #![trigger all[k], best[i]]
        0 <= k < all.len() && !best.contains(all[k]) && 0 <= i < best.len() ==> ranks_before(
            best[i],
            all[k],
        )
    &&& best.len() < n ==> forall|k: int|
        0 <= k < all.len() ==> best.contains(#[trigger] all[k])
}

proof fn lemma_ranks_transitive(
    a: (Seq<char>, nat),
    b: (Seq<char>, nat),
    c: (Seq<char>, nat),
)
    requires
        ranks_before(a, b),
        ranks_before(b, c),
    ensures
        ranks_before(a, c),
{
    if a.1 == b.1 && b.1 == c.1 {
        text::lemma_order_transitive(a.0, b.0, c.0);
    }
}

proof fn lemma_ranks_total(a: (Seq<char>, nat), b: (Seq<char>, nat))
    requires
        a.0 != b.0,
    ensures
        ranks_before(a, b) || ranks_before(b, a),
        !(ranks_before(a, b) && ranks_before(b, a)),
{
    text::lemma_order_same(a.0, b.0);
    text::lemma_order_swap(a.0, b.0);
    text::lemma_order_swap(b.0, a.0);
}

/// A new entry goes where it ranks, and the last one leaves a full list.
proof fn lemma_best_insert(
    best: Seq<(Seq<char>, nat)>,
    all: Seq<(Seq<char>, nat)>,
    n: nat,
    one: (Seq<char>, nat),
    at: int,
)
    requires
        is_best(best, all, n),
        0 <= at <= best.len(),
        at < n,
        forall|i: int| 0 <= i < at ==> ranks_before(#[trigger] best[i], one),
        forall|i: int| at <= i < best.len() ==> ranks_before(one, #[trigger] best[i]),
        !all.contains(one),
    ensures
        best.len() < n ==> is_best(best.insert(at, one), all.push(one), n),
        best.len() == n ==> is_best(best.insert(at, one).drop_last(), all.push(one), n),
{
    let longer = best.insert(at, one);
    let more = all.push(one);
    let after = if best.len() < n {
        longer
    } else {
        longer.drop_last()
    };
    assert forall|i: int| 0 <= i < after.len() implies more.contains(#[trigger] after[i]) by {
        if i == at {
            assert(more[all.len() as int] == one);
        } else {
            let old = best[if i < at { i } else { i - 1 }];
            assert(after[i] == old);
            assert(all.contains(old));
            let k = choose|k: int| 0 <= k < all.len() && all[k] == old;
            assert(more[k] == old);
        }
    }
    assert forall|i: int, j: int|
        #![trigger longer[i], longer[j]]
        0 <= i < j < longer.len() implies ranks_before(longer[i], longer[j]) by {
        let a = if i < at {
            i
        } else {
            i - 1
        };
        let b = if j < at {
            j
        } else {
            j - 1
        };
        if i == at {
            assert(longer[j] == best[b]);
        } else if j == at {
            assert(longer[i] == best[a]);
        } else {
            assert(longer[i] == best[a] && longer[j] == best[b]);
        }
    }
    assert forall|i: int, j: int|
        #![trigger after[i], after[j]]
        0 <= i < j < after.len() implies ranks_before(after[i], after[j]) by {
        assert(after[i] == longer[i] && after[j] == longer[j]);
    }
    assert forall|k: int| 0 <= k < best.len() implies longer.contains(#[trigger] best[k]) by {
        assert(longer[if k < at { k } else { k + 1 }] == best[k]);
    }
    assert(longer[at] == one);
    assert forall|k: int, i: int|
        #![trigger more[k], after[i]]
        0 <= k < more.len() && !after.contains(more[k]) && 0 <= i < after.len() implies ranks_before(
        after[i],
        more[k],
    ) by {
        let out = more[k];
        assert(after[i] == longer[i]);
        if out == one {
            assert(after[at] == one);
        } else if best.contains(out) {
            let b = choose|b: int| 0 <= b < best.len() && best[b] == out;
            let spot = if b < at {
                b
            } else {
                b + 1
            };
            assert(longer[spot] == out);
            if spot < after.len() {
                assert(after[spot] == out);
            }
            assert(spot == longer.len() - 1);
            assert(ranks_before(longer[i], longer[spot]));
        } else {
            assert(out == all[k]);
            assert(best.len() == n);
            if i == at {
                let last = best[best.len() - 1];
                assert(ranks_before(last, all[k]));
                assert(ranks_before(one, last));
                lemma_ranks_transitive(one, last, out);
            } else {
                let old = best[if i < at { i } else { i - 1 }];
                assert(after[i] == old);
                assert(ranks_before(old, all[k]));
            }
        }
    }
    assert forall|k: int| after.len() < n && 0 <= k < more.len() implies after.contains(
        #[trigger] more[k],
    ) by {
        if k < all.len() {
            assert(best.contains(all[k]));
            let b = choose|b: int| 0 <= b < best.len() && best[b] == all[k];
            assert(longer.contains(best[b]));
        }
    }
}

/// An entry that ranks after all of a full list stays outside.
proof fn lemma_best_skip(
    best: Seq<(Seq<char>, nat)>,
    all: Seq<(Seq<char>, nat)>,
    n: nat,
    one: (Seq<char>, nat),
)
    requires
        is_best(best, all, n),
        best.len() == n,
        forall|i: int| 0 <= i < best.len() ==> ranks_before(#[trigger] best[i], one),
    ensures
        is_best(best, all.push(one), n),
{
    let more = all.push(one);
    assert forall|i: int| 0 <= i < best.len() implies more.contains(#[trigger] best[i]) by {
        assert(all.contains(best[i]));
        let k = choose|k: int| 0 <= k < all.len() && all[k] == best[i];
        assert(more[k] == best[i]);
    }
    assert forall|k: int, i: int|
        #![trigger more[k], best[i]]
        0 <= k < more.len() && !best.contains(more[k]) && 0 <= i < best.len() implies ranks_before(
        best[i],
        more[k],
    ) by {
        if k < all.len() {
            assert(more[k] == all[k]);
        }
    }
}

/// The best entries of a whole value table are its top.
proof fn lemma_best_is_top(best: Seq<(Seq<char>, nat)>, counts: Seq<(String, u64)>, n: nat)
    requires
        text::alphabetical(counted_texts(counts)),
        is_best(best, pairs(counts), n),
    ensures
        is_top(best, counts_view(counts), n),
{
    lemma_counts_view(counts);
    let all = pairs(counts);
    let view = counts_view(counts);
    let texts = counted_texts(counts);
    assert forall|i: int| 0 <= i < best.len() implies view.contains_key((#[trigger] best[i]).0)
        && view[best[i].0] == best[i].1 by {
        assert(all.contains(best[i]));
        let k = choose|k: int| 0 <= k < all.len() && all[k] == best[i];
        assert(counts[k].0@ == best[i].0);
    }
    assert forall|one: Seq<char>, i: int|
        #![trigger view.contains_key(one), best[i]]
        view.contains_key(one) && !best.contains((one, view[one])) && 0 <= i
            < best.len() implies ranks_before(best[i], (one, view[one])) by {
        let k = choose|k: int| 0 <= k < texts.len() && texts[k] == one;
        assert(counts[k].0@ == one);
        assert(all[k] == (one, view[one]));
    }
}

/// The top values of a value table are determined by it.
pub proof fn law_top_is_unique(
    a: Seq<(Seq<char>, nat)>,
    b: Seq<(Seq<char>, nat)>,
    counts: Map<Seq<char>, nat>,
    n: nat,
)
    requires
        is_top(a, counts, n),
        is_top(b, counts, n),
    ensures
        a == b,
{
    assert forall|i: int| 0 <= i < a.len() implies a[i] == b[i] by {
        lemma_top_agrees(a, b, counts, n, i);
    }
    assert(a =~= b);
}

proof fn lemma_top_agrees(
    a: Seq<(Seq<char>, nat)>,
    b: Seq<(Seq<char>, nat)>,
    counts: Map<Seq<char>, nat>,
    n: nat,
    i: int,
)
    requires
        is_top(a, counts, n),
        is_top(b, counts, n),
        0 <= i < a.len(),
    ensures
        a[i] == b[i],
    decreases i,
{
    assert forall|k: int| 0 <= k < i implies a[k] == b[k] by {
        lemma_top_agrees(a, b, counts, n, k);
    }
    if a[i].0 == b[i].0 {
        assert(a[i].1 == b[i].1);
    } else {
        lemma_ranks_total(a[i], b[i]);
        if ranks_before(a[i], b[i]) {
            lemma_not_ranked_earlier(a, b, counts, n, i);
        } else {
            lemma_not_ranked_earlier(b, a, counts, n, i);
        }
    }
}

proof fn lemma_not_ranked_earlier(
    a: Seq<(Seq<char>, nat)>,
    b: Seq<(Seq<char>, nat)>,
    counts: Map<Seq<char>, nat>,
    n: nat,
    i: int,
)
    requires
        is_top(a, counts, n),
        is_top(b, counts, n),
        0 <= i < a.len(),
        forall|k: int| 0 <= k < i ==> a[k] == b[k],
        a[i].0 != b[i].0,
    ensures
        !ranks_before(a[i], b[i]),
{
    let one = a[i];
    assert(counts.contains_key(one.0) && (one.0, counts[one.0]) == one);
    lemma_ranks_total(one, b[i]);
    if b.contains(one) {
        let k = choose|k: int| 0 <= k < b.len() && b[k] == one;
        if k < i {
            assert(a[k] == one);
            assert(ranks_before(a[k], a[i]));
            text::lemma_order_same(one.0, one.0);
        } else {
            assert(k != i);
            assert(ranks_before(b[i], b[k]));
        }
    } else {
        assert(ranks_before(b[i], (one.0, counts[one.0])));
    }
}

/// Some value of a nonempty table ranks before all others.
proof fn lemma_first_exists(counts: Map<Seq<char>, nat>, among: Set<Seq<char>>) -> (first: Seq<
    char,
>)
    requires
        among.finite(),
        among.len() > 0,
    ensures
        among.contains(first),
        forall|other: Seq<char>| #[trigger]
            among.contains(other) && other != first ==> ranks_before(
                (first, counts[first]),
                (other, counts[other]),
            ),
    decreases among.len(),
{
    let one = among.choose();
    let rest = among.remove(one);
    if rest.len() == 0 {
        assert forall|other: Seq<char>| #[trigger]
            among.contains(other) && other != one implies ranks_before(
            (one, counts[one]),
            (other, counts[other]),
        ) by {
            assert(rest.contains(other));
            assert(rest =~= Set::empty());
        }
        one
    } else {
        let best = lemma_first_exists(counts, rest);
        let a = (one, counts[one]);
        let b = (best, counts[best]);
        lemma_ranks_total(a, b);
        if ranks_before(a, b) {
            assert forall|other: Seq<char>| #[trigger]
                among.contains(other) && other != one implies ranks_before(
                a,
                (other, counts[other]),
            ) by {
                if other != best {
                    assert(rest.contains(other));
                    lemma_ranks_transitive(a, b, (other, counts[other]));
                }
            }
            one
        } else {
            assert forall|other: Seq<char>| #[trigger]
                among.contains(other) && other != best implies ranks_before(
                b,
                (other, counts[other]),
            ) by {
                if other != one {
                    assert(rest.contains(other));
                }
            }
            best
        }
    }
}

/// Every value table has its most common values, as many as wanted or as there
/// are.
pub proof fn law_top_exists(counts: Map<Seq<char>, nat>, n: nat) -> (top: Seq<(Seq<char>, nat)>)
    requires
        counts.dom().finite(),
    ensures
        is_top(top, counts, n),
    decreases n,
{
    if n == 0 || counts.dom().len() == 0 {
        let top = Seq::<(Seq<char>, nat)>::empty();
        assert(is_top(top, counts, n));
        top
    } else {
        let first = lemma_first_exists(counts, counts.dom());
        let rest = counts.remove(first);
        let more = law_top_exists(rest, (n - 1) as nat);
        let one = (first, counts[first]);
        let top = seq![one] + more;
        assert(rest.dom() =~= counts.dom().remove(first));
        assert forall|i: int| 0 <= i < top.len() implies counts.contains_key(
            (#[trigger] top[i]).0,
        ) && counts[top[i].0] == top[i].1 by {
            if i > 0 {
                assert(top[i] == more[i - 1]);
                assert(rest.contains_key(more[i - 1].0));
            }
        }
        assert forall|i: int, j: int|
            #![trigger top[i], top[j]]
            0 <= i < j < top.len() implies ranks_before(top[i], top[j]) by {
            assert(top[j] == more[j - 1]);
            assert(rest.contains_key(more[j - 1].0));
            if i == 0 {
                assert(counts.dom().contains(top[j].0));
            } else {
                assert(top[i] == more[i - 1]);
            }
        }
        assert forall|other: Seq<char>, i: int|
            #![trigger counts.contains_key(other), top[i]]
            counts.contains_key(other) && !top.contains((other, counts[other])) && 0 <= i
                < top.len() implies ranks_before(top[i], (other, counts[other])) by {
            assert(top[0] == one);
            assert(other != first);
            assert(counts.dom().contains(other));
            if i > 0 {
                assert(top[i] == more[i - 1]);
                assert(rest.contains_key(other));
                if more.contains((other, rest[other])) {
                    let k = choose|k: int| 0 <= k < more.len() && more[k] == (other, rest[other]);
                    assert(top[k + 1] == (other, counts[other]));
                }
            }
        }
        top
    }
}

/// Value distribution for one field path.
#[derive(Debug, Clone)]
pub struct FieldStats {
    path: FieldPath,
    present: u64,
    values: u64,
    types: Vec<(&'static str, u64)>,
    counts: Vec<(String, u64)>,
    truncated: bool,
}

impl FieldStats {
    /// What always holds: the value table is in alphabetical order, and every
    /// value in it was counted at least once.
    pub closed spec fn wf(&self) -> bool {
        &&& text::alphabetical(counted_texts(self.counts@))
        &&& all_positive(counts_view(self.counts@))
    }

    /// Every value in the value table was counted at least once.
    pub proof fn law_counts_are_positive(&self)
        requires
            self.wf(),
        ensures
            all_positive(self.profile().counts),
    {
    }

    /// The distribution that this stands for.
    pub closed spec fn profile(&self) -> Profile {
        Profile {
            present: self.present as nat,
            values: self.values as nat,
            types: table::tally_view(self.types@),
            counts: counts_view(self.counts@),
            truncated: self.truncated,
        }
    }

    /// The steps of the profiled path.
    pub closed spec fn steps(&self) -> Seq<Step> {
        self.path.steps()
    }

    /// The text of the profiled path.
    pub closed spec fn path_text(&self) -> Seq<char> {
        self.path.text()
    }

    /// An empty distribution for a path.
    pub fn new(path: FieldPath) -> (r: Self)
        ensures
            r.wf(),
            r.steps() == path.steps(),
            r.path_text() == path.text(),
            r.profile() == profile_of(0, Seq::empty()),
    {
        let r = FieldStats {
            path,
            present: 0,
            values: 0,
            types: Vec::new(),
            counts: Vec::new(),
            truncated: false,
        };
        proof {
            let none = Seq::<Json>::empty();
            assert(types_in(none) =~= Seq::empty());
            assert(texts_in(none) =~= Seq::empty());
            assert(table::distinct(texts_in(none)) =~= Seq::empty());
            assert(r.profile().types =~= table::tally(types_in(none)));
            assert(counted_texts(r.counts@) =~= Seq::empty());
            assert(r.profile().counts =~= counted(texts_in(none), MAX_FIELD_VALUES as nat));
        }
        r
    }

    /// Counts the values that the path selects from one record; no counter
    /// may run over.
    pub fn record(&mut self, root: &Value)
        requires
            old(self).wf(),
            json::is_plain(root@),
            path::selected(seq![root@], old(self).steps()).len() > 0
                ==> old(self).profile().present < u64::MAX,
            profile_within(
                old(self).profile(),
                u64::MAX - path::selected(seq![root@], old(self).steps()).len(),
            ),
        ensures
            final(self).wf(),
            final(self).steps() == old(self).steps(),
            final(self).path_text() == old(self).path_text(),
            final(self).profile() == after_record(
                old(self).profile(),
                root@,
                old(self).steps(),
            ),
    {
        let found: Vec<&Value> = self.path.resolve(root);
        let ghost all = path::found_views(found@);
        let ghost steps = self.steps();
        let ghost start = self.profile();
        let ghost room = u64::MAX - all.len();
        proof {
            path::lemma_selected_size(seq![root@], steps);
        }
        if found.len() == 0 {
            assert(all =~= Seq::empty());
            return;
        }
        self.present = self.present + 1;
        let ghost counting = self.profile();
        proof {
            lemma_after_values_present(start, counting.present, all);
            assert(counting == (Profile { present: (start.present + 1) as nat, ..start }));
            assert(all.take(0) =~= Seq::empty());
        }
        let mut i: usize = 0;
        while i < found.len()
            invariant
                i <= found@.len(),
                all == path::found_views(found@),
                path::all_plain(all),
                self.wf(),
                self.steps() == steps,
                self.path_text() == old(self).path_text(),
                self.profile() == after_values(counting, all.take(i as int)),
                profile_within(self.profile(), room + i),
                room >= 0,
                room + found@.len() <= u64::MAX,
            decreases found.len() - i,
        {
            let value: &Value = found[i];
            let ghost before = self.profile();
            proof {
                assert(all[i as int] == value@);
                assert(all.take(i + 1).drop_last() =~= all.take(i as int));
                lemma_after_value_within(before, value@, room + i);
                lemma_counts_view(self.counts@);
                assert forall|k: int| 0 <= k < self.types@.len() implies (
                #[trigger] self.types@[k]).1 < u64::MAX by {
                    assert(before.types[k].1 <= room + i);
                }
                assert forall|k: int| 0 <= k < self.counts@.len() implies (
                #[trigger] self.counts@[k]).1 < u64::MAX by {
                    assert(before.counts[self.counts@[k].0@] <= room + i);
                }
            }
            self.values = self.values + 1;
            record_type(&mut self.types, value.kind_name());
            let spilled: bool = note_value(&mut self.counts, value.to_json());
            if spilled {
                self.truncated = true;
            }
            assert(self.profile() =~= after_value(before, value@));
            i = i + 1;
        }
        assert(all.take(i as int) =~= all);
    }

    /// The path this profiles.
    pub fn path(&self) -> (r: &FieldPath)
        ensures
            r.steps() == self.steps(),
            r.text() == self.path_text(),
    {
        &self.path
    }

    /// Number of records containing at least one match for the path.
    pub fn present(&self) -> (r: u64)
        ensures
            r == self.profile().present,
    {
        self.present
    }

    /// Total number of matched values, across all records (more than
    /// `present` for a wildcard path that fans out over an array).
    pub fn values(&self) -> (r: u64)
        ensures
            r == self.profile().values,
    {
        self.values
    }

    /// Value types seen at this path, in first-seen order.
    pub fn types(&self) -> (r: &[(&'static str, u64)])
        ensures
            table::tally_view(r@) == self.profile().types,
    {
        self.types.as_slice()
    }

    /// Number of distinct values seen (a lower bound once `truncated`).
    pub fn distinct(&self) -> (r: usize)
        requires
            self.wf(),
        ensures
            r == self.profile().counts.dom().len(),
    {
        proof {
            lemma_counts_view(self.counts@);
        }
        self.counts.len()
    }

    /// True once the value table hit [`MAX_FIELD_VALUES`] and stopped
    /// tracking new distinct values.
    pub fn truncated(&self) -> (r: bool)
        ensures
            r == self.profile().truncated,
    {
        self.truncated
    }

    /// Share of records containing this field.
    pub fn present_rate(&self, valid: u64) -> (r: Ratio)
        ensures
            r@ == ratio::share(self.profile().present, valid as nat),
    {
        Ratio::of(self.present, valid)
    }

    /// The `n` most common values, each rendered as compact JSON (so a
    /// string value reads as `"web"`), most common first and ties broken
    /// alphabetically for a stable order.
    pub fn top(&self, n: usize) -> (r: Vec<(&str, u64)>)
        requires
            self.wf(),
        ensures
            is_top(listed(r@), self.profile().counts, n as nat),
            forall|i: int| 0 <= i < r@.len() ==> (#[trigger] r@[i]).1 >= 1,
    {
        let mut best: Vec<(&str, u64)> = Vec::new();
        let ghost all = pairs(self.counts@);
        let ghost texts = counted_texts(self.counts@);
        proof {
            text::lemma_alphabetical_distinct(texts);
            assert(listed(best@) =~= Seq::empty());
            assert(all.take(0) =~= Seq::empty());
        }
        let mut i: usize = 0;
        while i < self.counts.len()
            invariant
                i <= self.counts@.len(),
                all == pairs(self.counts@),
                texts == counted_texts(self.counts@),
                texts.no_duplicates(),
                is_best(listed(best@), all.take(i as int), n as nat),
            decreases self.counts.len() - i,
        {
            let one: (&str, u64) = (self.counts[i].0.as_str(), self.counts[i].1);
            let ghost view = listed(best@);
            let ghost seen = all.take(i as int);
            let ghost new = (one.0@, one.1 as nat);
            proof {
                assert(all[i as int] == new);
                assert(all.take(i + 1) =~= seen.push(new));
                assert forall|k: int| 0 <= k < view.len() implies (#[trigger] view[k]).0
                    != new.0 by {
                    assert(seen.contains(view[k]));
                    let j = choose|j: int| 0 <= j < seen.len() && seen[j] == view[k];
                    assert(texts[j] == view[k].0 && texts[i as int] == new.0);
                }
                assert(!seen.contains(new)) by {
                    if seen.contains(new) {
                        let j = choose|j: int| 0 <= j < seen.len() && seen[j] == new;
                        assert(texts[j] == new.0 && texts[i as int] == new.0);
                    }
                }
            }
            let mut at: usize = best.len();
            while at > 0 && leads(&one, &best[at - 1])
                invariant
                    at <= best@.len(),
                    view == listed(best@),
                    new == (one.0@, one.1 as nat),
                    forall|k: int| at <= k < view.len() ==> ranks_before(new, #[trigger] view[k]),
                decreases at,
            {
                assert(view[at - 1] == (best@[at - 1].0@, best@[at - 1].1 as nat));
                at = at - 1;
            }
            proof {
                if at > 0 {
                    assert(view[at - 1] == (best@[at - 1].0@, best@[at - 1].1 as nat));
                    lemma_ranks_total(new, view[at - 1]);
                    assert forall|k: int| 0 <= k < at implies ranks_before(
                        #[trigger] view[k],
                        new,
                    ) by {
                        if k < at - 1 {
                            assert(ranks_before(view[k], view[at - 1]));
                            lemma_ranks_transitive(view[k], view[at - 1], new);
                        }
                    }
                }
                if at < n {
                    lemma_best_insert(view, seen, n as nat, new, at as int);
                } else {
                    lemma_best_skip(view, seen, n as nat, new);
                }
            }
            if at < n {
                best.insert(at, one);
                assert(listed(best@) =~= view.insert(at as int, new));
                if best.len() > n {
                    best.pop();
                    assert(listed(best@) =~= view.insert(at as int, new).drop_last());
                }
            }
            i = i + 1;
        }
        proof {
            assert(all.take(i as int) =~= all);
            lemma_best_is_top(listed(best@), self.counts@, n as nat);
            assert forall|k: int| 0 <= k < best@.len() implies (#[trigger] best@[k]).1 >= 1 by {
                let one = listed(best@)[k];
                assert(one == (best@[k].0@, best@[k].1 as nat));
                assert(self.profile().counts.contains_key(one.0));
            }
        }
        best
    }
}

fn leads(a: &(&str, u64), b: &(&str, u64)) -> (r: bool)
    ensures
        r == ranks_before((a.0@, a.1 as nat), (b.0@, b.1 as nat)),
{
    if a.1 == b.1 {
        match compare(a.0, b.0) {
            Order::Before => true,
            _ => false,
        }
    } else {
        a.1 > b.1
    }
}

} // verus!
