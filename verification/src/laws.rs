//! What holds of every pass, whatever the input.

use vstd::prelude::*;

use crate::field;
use crate::field::MAX_FIELD_VALUES;
use crate::json::Json;
use crate::keys;
use crate::keys::MAX_KEYS;
use crate::lines;
use crate::lines::Content;
use crate::path;
use crate::path::Step;
use crate::ratio;
use crate::render;
use crate::schema;
use crate::summary;
use crate::summary::Problem;
use crate::table;
use crate::text;
use crate::walk;
use crate::walk::PathEntry;
use crate::walk::MAX_PATHS;

verus! {

/// Every line is either blank, or holds a record, or is broken.
pub proof fn law_every_line_is_counted_once(
    lines: Seq<Seq<u8>>,
    paths: Seq<Seq<Step>>,
    max_errors: nat,
)
    ensures
        ({
            let s = summary::summary_of(lines, paths, max_errors);
            s.lines == s.blank + s.valid + s.invalid
        }),
{
    lemma_line_counts(lines);
}

proof fn lemma_line_counts(lines: Seq<Seq<u8>>)
    ensures
        lines.len() == summary::blank_lines(lines) + summary::records_of(lines).len()
            + summary::problems_of(lines).len(),
    decreases lines.len(),
{
    if lines.len() > 0 {
        lemma_line_counts(lines.drop_last());
    }
}

/// The reported issues are the first broken lines, at most as many as wanted:
/// in ascending order, each with the column and the reason of its line. All
/// broken lines are counted, and if there was room for all, every one of them
/// is reported.
pub proof fn law_issues_are_the_first_broken_lines(
    lines: Seq<Seq<u8>>,
    paths: Seq<Seq<Step>>,
    max_errors: nat,
)
    ensures
        ({
            let s = summary::summary_of(lines, paths, max_errors);
            &&& s.issues.len() == table::least(max_errors, s.invalid)
            &&& forall|i: int|
                0 <= i < s.issues.len() ==> is_problem_of(lines, #[trigger] s.issues[i])
            &&& forall|i: int, j: int|
                0 <= i < j < s.issues.len() ==> (#[trigger] s.issues[i]).line < (
                #[trigger] s.issues[j]).line
            &&& forall|i: int, k: int|
                0 <= i < s.issues.len() && 0 <= k < (#[trigger] s.issues[i]).line - 1 && (
                #[trigger] lines::content(lines[k])) is Invalid ==> exists|j: int|
                    0 <= j < i && (#[trigger] s.issues[j]).line == k + 1
            &&& s.invalid <= max_errors ==> forall|k: int|
                0 <= k < lines.len() && (#[trigger] lines::content(lines[k])) is Invalid
                    ==> exists|i: int|
                    0 <= i < s.issues.len() && (#[trigger] s.issues[i]).line == k + 1
        }),
{
    lemma_problems(lines);
    let s = summary::summary_of(lines, paths, max_errors);
    let all = summary::problems_of(lines);
    assert forall|i: int| 0 <= i < s.issues.len() implies is_problem_of(
        lines,
        #[trigger] s.issues[i],
    ) by {
        assert(s.issues[i] == all[i]);
    }
    assert forall|i: int, j: int| 0 <= i < j < s.issues.len() implies (#[trigger] s.issues[i]).line
        < (#[trigger] s.issues[j]).line by {
        assert(s.issues[i] == all[i] && s.issues[j] == all[j]);
    }
    assert forall|i: int, k: int|
        0 <= i < s.issues.len() && 0 <= k < (#[trigger] s.issues[i]).line - 1 && (
        #[trigger] lines::content(lines[k])) is Invalid implies exists|j: int|
        0 <= j < i && (#[trigger] s.issues[j]).line == k + 1 by {
        assert(s.issues[i] == all[i]);
        assert(is_problem_of(lines, all[i]));
        let j = choose|j: int| 0 <= j < all.len() && (#[trigger] all[j]).line == k + 1;
        assert(all[j].line < all[i].line);
        if j >= i {
            if j > i {
                assert(all[i].line < all[j].line);
            }
        }
        assert(s.issues[j] == all[j]);
    }
    assert forall|k: int|
        s.invalid <= max_errors && 0 <= k < lines.len() && (#[trigger] lines::content(
            lines[k],
        )) is Invalid implies exists|i: int|
        0 <= i < s.issues.len() && (#[trigger] s.issues[i]).line == k + 1 by {
        let i = choose|i: int| 0 <= i < all.len() && (#[trigger] all[i]).line == k + 1;
        assert(s.issues[i] == all[i]);
    }
}

/// Whether a problem is what is wrong with the line that it names.
pub open spec fn is_problem_of(lines: Seq<Seq<u8>>, problem: Problem) -> bool {
    &&& 1 <= problem.line <= lines.len()
    &&& lines::content(lines[problem.line - 1]) == (Content::Invalid {
        column: problem.column,
        reason: problem.reason,
    })
}

proof fn lemma_problems(lines: Seq<Seq<u8>>)
    ensures
        ({
            let all = summary::problems_of(lines);
            &&& forall|i: int| 0 <= i < all.len() ==> is_problem_of(lines, #[trigger] all[i])
            &&& forall|i: int, j: int|
                0 <= i < j < all.len() ==> (#[trigger] all[i]).line < (#[trigger] all[j]).line
            &&& forall|k: int|
                0 <= k < lines.len() && (#[trigger] lines::content(lines[k])) is Invalid
                    ==> exists|i: int| 0 <= i < all.len() && (#[trigger] all[i]).line == k + 1
        }),
{
    lemma_problems_ascend(lines);
    assert forall|k: int|
        0 <= k < lines.len() && (#[trigger] lines::content(lines[k])) is Invalid implies exists|
        i: int,
    |
        0 <= i < summary::problems_of(lines).len() && (#[trigger] summary::problems_of(
            lines,
        )[i]).line == k + 1 by {
        lemma_problem_is_listed(lines, k);
    }
}

proof fn lemma_problems_ascend(lines: Seq<Seq<u8>>)
    ensures
        ({
            let all = summary::problems_of(lines);
            &&& forall|i: int| 0 <= i < all.len() ==> is_problem_of(lines, #[trigger] all[i])
            &&& forall|i: int, j: int|
                0 <= i < j < all.len() ==> (#[trigger] all[i]).line < (#[trigger] all[j]).line
        }),
    decreases lines.len(),
{
    if lines.len() > 0 {
        let init = lines.drop_last();
        let before = summary::problems_of(init);
        let all = summary::problems_of(lines);
        lemma_problems_ascend(init);
        assert forall|i: int| 0 <= i < all.len() implies is_problem_of(
            lines,
            #[trigger] all[i],
        ) by {
            if i < before.len() {
                assert(all[i] == before[i]);
                assert(is_problem_of(init, before[i]));
                assert(init[before[i].line - 1] == lines[before[i].line - 1]);
            }
        }
        assert forall|i: int, j: int| 0 <= i < j < all.len() implies (#[trigger] all[i]).line < (
        #[trigger] all[j]).line by {
            assert(all[i] == before[i]);
            assert(is_problem_of(init, before[i]));
            if j < before.len() {
                assert(all[j] == before[j]);
            }
        }
    }
}

proof fn lemma_problem_is_listed(lines: Seq<Seq<u8>>, k: int)
    requires
        0 <= k < lines.len(),
        lines::content(lines[k]) is Invalid,
    ensures
        exists|i: int|
            0 <= i < summary::problems_of(lines).len() && (#[trigger] summary::problems_of(
                lines,
            )[i]).line == k + 1,
    decreases lines.len(),
{
    let init = lines.drop_last();
    let before = summary::problems_of(init);
    let all = summary::problems_of(lines);
    if k < init.len() {
        assert(init[k] == lines[k]);
        lemma_problem_is_listed(init, k);
        let i = choose|i: int| 0 <= i < before.len() && (#[trigger] before[i]).line == k + 1;
        assert(all[i] == before[i]);
    } else {
        assert(all[before.len() as int].line == k + 1);
    }
}

/// The sum of the counts of a tally.
pub open spec fn tally_total(counts: Seq<(Seq<char>, nat)>) -> nat
    decreases counts.len(),
{
    if counts.len() == 0 {
        0
    } else {
        tally_total(counts.drop_last()) + counts.last().1
    }
}

proof fn lemma_total_update(counts: Seq<(Seq<char>, nat)>, at: int, one: (Seq<char>, nat))
    requires
        0 <= at < counts.len(),
    ensures
        tally_total(counts.update(at, one)) + counts[at].1 == tally_total(counts) + one.1,
    decreases counts.len(),
{
    let after = counts.update(at, one);
    if at == counts.len() - 1 {
        assert(after.drop_last() =~= counts.drop_last());
    } else {
        assert(after.drop_last() =~= counts.drop_last().update(at, one));
        lemma_total_update(counts.drop_last(), at, one);
    }
}

/// The counts of a tally add up to the number of names.
pub proof fn law_tally_adds_up(names: Seq<Seq<char>>)
    ensures
        tally_total(table::tally(names)) == names.len(),
    decreases names.len(),
{
    if names.len() == 0 {
        assert(table::tally(names) =~= Seq::empty());
    } else {
        let init = names.drop_last();
        let before = table::tally(init);
        law_tally_adds_up(init);
        table::lemma_tally_push(init, names.last());
        assert(names =~= init.push(names.last()));
        let at = table::slot(table::tallied(before), names.last());
        table::lemma_slot(table::tallied(before), names.last());
        if at < before.len() {
            lemma_total_update(before, at, (before[at].0, before[at].1 + 1));
        } else {
            assert(before.push((names.last(), 1)).drop_last() =~= before);
        }
    }
}

/// The counts of the top level types add up to the number of records.
pub proof fn law_top_level_types_add_up(
    lines: Seq<Seq<u8>>,
    paths: Seq<Seq<Step>>,
    max_errors: nat,
)
    ensures
        ({
            let s = summary::summary_of(lines, paths, max_errors);
            tally_total(s.top_level) == s.valid
        }),
{
    law_tally_adds_up(field::types_in(summary::records_of(lines)));
}

/// Whether one of the members is named `key`.
pub open spec fn any_named(members: Seq<(Seq<char>, Json)>, key: Seq<char>) -> bool {
    exists|i: int| 0 <= i < members.len() && (#[trigger] members[i]).0 == key
}

/// Whether a record is an object with a member named `key`.
pub open spec fn has_key(record: Json, key: Seq<char>) -> bool {
    match record {
        Json::Object(members) => any_named(members, key),
        _ => false,
    }
}

/// How many records are objects with a member named `key`.
pub open spec fn owners(records: Seq<Json>, key: Seq<char>) -> nat
    decreases records.len(),
{
    if records.len() == 0 {
        0
    } else {
        owners(records.drop_last(), key) + (if has_key(records.last(), key) {
            1nat
        } else {
            0nat
        })
    }
}

proof fn lemma_fresh(members: Seq<(Seq<char>, Json)>, key: Seq<char>)
    ensures
        table::names_of(keys::fresh(members)).contains(key) <==> any_named(members, key),
        table::occurrences(table::names_of(keys::fresh(members)), key) <= 1,
    decreases members.len(),
{
    let names = table::names_of(keys::fresh(members));
    if members.len() > 0 {
        let init = members.drop_last();
        let before = keys::fresh(init);
        let last = members.last();
        let prior = table::names_of(before);
        lemma_fresh(init, key);
        table::lemma_occurrences(prior, key);
        if any_named(init, key) {
            let i = choose|i: int| 0 <= i < init.len() && (#[trigger] init[i]).0 == key;
            assert(members[i].0 == key);
        }
        if any_named(members, key) && last.0 != key {
            let i = choose|i: int| 0 <= i < members.len() && (#[trigger] members[i]).0 == key;
            assert(init[i].0 == key);
        }
        assert(members[members.len() - 1].0 == last.0);
        if !prior.contains(last.0) {
            assert(names =~= prior.push(last.0));
            assert(names.drop_last() =~= prior);
            assert(names[prior.len() as int] == last.0);
            if prior.contains(key) {
                let j = choose|j: int| 0 <= j < prior.len() && prior[j] == key;
                assert(names[j] == key);
            }
            if names.contains(key) && key != last.0 {
                let j = choose|j: int| 0 <= j < names.len() && names[j] == key;
                assert(prior[j] == key);
            }
        }
    }
}

/// Occurrences add up.
pub proof fn lemma_occurrences_concat(a: Seq<Seq<char>>, b: Seq<Seq<char>>, name: Seq<char>)
    ensures
        table::occurrences(a + b, name) == table::occurrences(a, name) + table::occurrences(b, name),
    decreases b.len(),
{
    if b.len() == 0 {
        assert(a + b =~= a);
    } else {
        assert((a + b).drop_last() =~= a + b.drop_last());
        lemma_occurrences_concat(a, b.drop_last(), name);
    }
}

proof fn lemma_owners(records: Seq<Json>, key: Seq<char>)
    ensures
        table::occurrences(table::names_of(keys::key_events(records)), key) == owners(
            records,
            key,
        ),
        owners(records, key) <= summary::objects_in(records) <= records.len(),
    decreases records.len(),
{
    if records.len() > 0 {
        let init = records.drop_last();
        let last = records.last();
        let before = table::names_of(keys::key_events(init));
        let found = table::names_of(keys::record_keys(last));
        lemma_owners(init, key);
        assert(table::names_of(keys::key_events(records)) =~= before + found);
        lemma_occurrences_concat(before, found, key);
        table::lemma_occurrences(found, key);
        match last {
            Json::Object(members) => {
                lemma_fresh(members, key);
            },
            _ => {
                assert(found =~= Seq::empty());
            },
        }
    }
}

/// A key is counted once for each object that has it, so that its share of
/// the objects never exceeds one, and the counts of its types add up to its
/// own. The table holds a key at most once, and at most `MAX_KEYS` keys.
pub proof fn law_keys_are_counted_once_per_object(
    lines: Seq<Seq<u8>>,
    paths: Seq<Seq<Step>>,
    max_errors: nat,
)
    ensures
        ({
            let s = summary::summary_of(lines, paths, max_errors);
            &&& s.object_records <= s.valid
            &&& s.keys.len() <= MAX_KEYS
            &&& forall|i: int|
                0 <= i < s.keys.len() ==> 1 <= (#[trigger] s.keys[i]).count <= s.object_records
                    && s.keys[i].count == owners(summary::records_of(lines), s.keys[i].name)
                    && tally_total(s.keys[i].types) == s.keys[i].count
            &&& forall|i: int, j: int|
                0 <= i < j < s.keys.len() ==> (#[trigger] s.keys[i]).name != (
                #[trigger] s.keys[j]).name
        }),
{
    let s = summary::summary_of(lines, paths, max_errors);
    let records = summary::records_of(lines);
    let events = keys::key_events(records);
    let names = table::names_of(events);
    let d = table::distinct(names);
    table::lemma_distinct(names);
    lemma_owners(records, Seq::empty());
    assert forall|i: int| 0 <= i < s.keys.len() implies 1 <= (#[trigger] s.keys[i]).count
        <= s.object_records && s.keys[i].count == owners(records, s.keys[i].name) && tally_total(
        s.keys[i].types,
    ) == s.keys[i].count by {
        let key = s.keys[i].name;
        assert(d[i] == key);
        assert(d.contains(key));
        table::lemma_occurrences(names, key);
        lemma_owners(records, key);
        table::lemma_types_under_len(events, key);
        law_tally_adds_up(table::types_under(events, key));
    }
    assert forall|i: int, j: int| 0 <= i < j < s.keys.len() implies (#[trigger] s.keys[i]).name
        != (#[trigger] s.keys[j]).name by {
        assert(d[i] == s.keys[i].name && d[j] == s.keys[j].name);
    }
}

/// The key table is complete exactly if it is not marked as truncated: then
/// every key of every object is in it.
pub proof fn law_untruncated_key_table_is_complete(
    lines: Seq<Seq<u8>>,
    paths: Seq<Seq<Step>>,
    max_errors: nat,
)
    ensures
        ({
            let s = summary::summary_of(lines, paths, max_errors);
            !s.keys_truncated <==> forall|key: Seq<char>| #[trigger]
                owners(summary::records_of(lines), key) > 0 ==> table::entry_names(
                    s.keys,
                ).contains(key)
        }),
{
    let s = summary::summary_of(lines, paths, max_errors);
    let records = summary::records_of(lines);
    let names = table::names_of(keys::key_events(records));
    let d = table::distinct(names);
    let k = table::kept(names, MAX_KEYS as nat);
    table::lemma_distinct(names);
    assert(table::entry_names(s.keys) =~= k);
    if s.keys_truncated {
        let key = d[MAX_KEYS as int];
        assert(d.contains(key));
        table::lemma_occurrences(names, key);
        lemma_owners(records, key);
        assert(owners(records, key) > 0);
        if k.contains(key) {
            let i = choose|i: int| 0 <= i < k.len() && k[i] == key;
            assert(d[i] == d[MAX_KEYS as int]);
        }
    } else {
        assert(k =~= d);
        assert forall|key: Seq<char>| #[trigger]
            owners(records, key) > 0 implies table::entry_names(s.keys).contains(key) by {
            table::lemma_occurrences(names, key);
            lemma_owners(records, key);
        }
    }
}

/// A field is present in no more records than there are, and no more often
/// than it has values; the counts of its types add up to its values.
pub proof fn law_field_counters(
    lines: Seq<Seq<u8>>,
    paths: Seq<Seq<Step>>,
    max_errors: nat,
)
    ensures
        ({
            let s = summary::summary_of(lines, paths, max_errors);
            &&& s.fields.len() == paths.len()
            &&& forall|i: int|
                0 <= i < s.fields.len() ==> (#[trigger] s.fields[i]).present <= s.valid
                    && s.fields[i].present <= s.fields[i].values && tally_total(
                    s.fields[i].types,
                ) == s.fields[i].values
        }),
{
    let s = summary::summary_of(lines, paths, max_errors);
    let records = summary::records_of(lines);
    assert forall|i: int| 0 <= i < s.fields.len() implies (#[trigger] s.fields[i]).present
        <= s.valid && s.fields[i].present <= s.fields[i].values && tally_total(s.fields[i].types)
        == s.fields[i].values by {
        lemma_present(records, paths[i]);
        law_tally_adds_up(field::types_in(field::matches_in(records, paths[i])));
    }
}

proof fn lemma_present(records: Seq<Json>, steps: Seq<Step>)
    ensures
        field::present_in(records, steps) <= records.len(),
        field::present_in(records, steps) <= field::matches_in(records, steps).len(),
    decreases records.len(),
{
    if records.len() > 0 {
        lemma_present(records.drop_last(), steps);
    }
}

/// A field path without a fan-out has one value in each record that it is
/// present in.
pub proof fn law_field_without_fan_out(records: Seq<Json>, steps: Seq<Step>)
    requires
        forall|i: int| 0 <= i < steps.len() ==> !((#[trigger] steps[i]) is All),
    ensures
        field::field_profile(records, steps).present == field::field_profile(
            records,
            steps,
        ).values,
    decreases records.len(),
{
    if records.len() > 0 {
        law_field_without_fan_out(records.drop_last(), steps);
        path::law_one_value_without_fan_out(records.last(), steps);
    }
}

/// The value table of a field remembers at most `MAX_FIELD_VALUES` distinct
/// values and no more than there are, and counts each one that it remembers
/// exactly. It is marked as truncated exactly if a value is missing from it.
pub proof fn law_field_value_table(records: Seq<Json>, steps: Seq<Step>)
    ensures
        ({
            let profile = field::field_profile(records, steps);
            let values = field::matches_in(records, steps);
            let texts = field::texts_in(values);
            &&& profile.counts.dom().finite()
            &&& profile.counts.dom().len() <= MAX_FIELD_VALUES
            &&& profile.counts.dom().len() <= profile.values
            &&& forall|one: Seq<char>| #[trigger]
                profile.counts.contains_key(one) ==> texts.contains(one) && profile.counts[one]
                    == table::occurrences(texts, one) && profile.counts[one] >= 1
            &&& !profile.truncated <==> forall|i: int|
                0 <= i < values.len() ==> profile.counts.contains_key(
                    #[trigger] render::rendered(values[i]),
                )
        }),
{
    let profile = field::field_profile(records, steps);
    let values = field::matches_in(records, steps);
    let texts = field::texts_in(values);
    let cap = MAX_FIELD_VALUES as nat;
    let d = table::distinct(texts);
    let k = table::kept(texts, cap);
    field::lemma_counted_len(texts, cap);
    table::lemma_distinct(texts);
    assert forall|one: Seq<char>| #[trigger]
        profile.counts.contains_key(one) implies texts.contains(one) && profile.counts[one]
        >= 1 by {
        let i = choose|i: int| 0 <= i < k.len() && k[i] == one;
        assert(d[i] == one);
        assert(d.contains(one));
        table::lemma_occurrences(texts, one);
    }
    if profile.truncated {
        let one = d[cap as int];
        assert(d.contains(one));
        assert(texts.contains(one));
        let i = choose|i: int| 0 <= i < texts.len() && texts[i] == one;
        assert(render::rendered(values[i]) == one);
        if k.contains(one) {
            let j = choose|j: int| 0 <= j < k.len() && k[j] == one;
            assert(d[j] == d[cap as int]);
        }
    } else {
        assert(k =~= d);
        assert forall|i: int| 0 <= i < values.len() implies profile.counts.contains_key(
            #[trigger] render::rendered(values[i]),
        ) by {
            assert(texts[i] == render::rendered(values[i]));
            assert(texts.contains(texts[i]));
        }
    }
}

/// The top values are as many as wanted or as there are, each more common than
/// those after it or as common and alphabetically first, and each counted at least
/// once. Asking for fewer gives a prefix of what asking for more gives.
pub proof fn law_top_values_extend(
    fewer: Seq<(Seq<char>, nat)>,
    more: Seq<(Seq<char>, nat)>,
    counts: Map<Seq<char>, nat>,
    n: nat,
    m: nat,
)
    requires
        field::is_top(fewer, counts, n),
        field::is_top(more, counts, m),
        field::all_positive(counts),
        n <= m,
    ensures
        fewer.len() == table::least(n, counts.dom().len()),
        fewer == more.take(fewer.len() as int),
        forall|i: int, j: int|
            #![trigger fewer[i], fewer[j]]
            0 <= i < j < fewer.len() ==> fewer[i].1 > fewer[j].1 || (fewer[i].1 == fewer[j].1
                && text::order(fewer[i].0, fewer[j].0) == text::Order::Before),
        forall|i: int| 0 <= i < fewer.len() ==> (#[trigger] fewer[i]).1 >= 1,
{
    let cut = more.take(fewer.len() as int);
    assert forall|one: Seq<char>, i: int|
        #![trigger counts.contains_key(one), cut[i]]
        counts.contains_key(one) && !cut.contains((one, counts[one])) && 0 <= i
            < cut.len() implies field::ranks_before(cut[i], (one, counts[one])) by {
        let pair = (one, counts[one]);
        assert(cut[i] == more[i]);
        if more.contains(pair) {
            let j = choose|j: int| 0 <= j < more.len() && more[j] == pair;
            if j < cut.len() {
                assert(cut[j] == pair);
            }
            assert(field::ranks_before(more[i], more[j]));
        }
    }
    assert(field::is_top(cut, counts, n)) by {
        assert forall|i: int| 0 <= i < cut.len() implies counts.contains_key(
            (#[trigger] cut[i]).0,
        ) && counts[cut[i].0] == cut[i].1 by {
            assert(cut[i] == more[i]);
        }
        assert forall|i: int, j: int|
            #![trigger cut[i], cut[j]]
            0 <= i < j < cut.len() implies field::ranks_before(cut[i], cut[j]) by {
            assert(cut[i] == more[i] && cut[j] == more[j]);
        }
    }
    field::law_top_is_unique(fewer, cut, counts, n);
}

/// On the same lines, a schema pass walks as many records as a statistics
/// pass finds valid lines, and skips as many as that finds invalid.
pub proof fn law_stats_and_schema_agree(
    lines: Seq<Seq<u8>>,
    paths: Seq<Seq<Step>>,
    max_errors: nat,
    depth: nat,
)
    ensures
        ({
            let s = summary::summary_of(lines, paths, max_errors);
            let o = schema::outline_of(lines, depth);
            o.records == s.valid && o.skipped == s.invalid && o.records + o.skipped + s.blank
                == s.lines
        }),
{
    lemma_line_counts(lines);
}

/// A text that follows another, which ends with a newline or is empty, can be
/// passed over on its own: both kinds of pass continue where they stopped.
pub proof fn law_passes_continue_over_joined_texts(
    first: Seq<u8>,
    more: Seq<u8>,
    paths: Seq<Seq<Step>>,
    max_errors: nat,
    depth: nat,
)
    requires
        first.len() > 0 ==> first.last() == 10,
    ensures
        summary::summary_of(lines::lines_of(first + more), paths, max_errors)
            == summary::after_lines(
            summary::summary_of(lines::lines_of(first), paths, max_errors),
            lines::lines_of(more),
            paths,
            max_errors,
        ),
        schema::outline_of(lines::lines_of(first + more), depth) == schema::outline_after_all(
            schema::outline_of(lines::lines_of(first), depth),
            lines::lines_of(more),
            depth,
        ),
{
    lines::law_lines_of_joined_texts(first, more);
    summary::law_pass_continues(lines::lines_of(first), lines::lines_of(more), paths, max_errors);
    schema::law_walk_continues(lines::lines_of(first), lines::lines_of(more), depth);
}

/// Every path of the path table is present in at least one record and in no
/// more than there are, has at least one value in each record that it is
/// present in, and the counts of its types add up to its values. The table
/// holds a path at most once, and at most `MAX_PATHS` paths.
pub proof fn law_path_counters(records: Seq<Json>, depth: nat)
    ensures
        ({
            let paths = walk::path_table(records, depth);
            &&& paths.len() <= MAX_PATHS
            &&& forall|i: int|
                0 <= i < paths.len() ==> 1 <= (#[trigger] paths[i]).present <= records.len()
                    && paths[i].present <= paths[i].count && tally_total(paths[i].types)
                    == paths[i].count
            &&& walk::path_names(paths).no_duplicates()
        }),
{
    let paths = walk::path_table(records, depth);
    let seen = walk::visits(records, depth);
    let names = table::names_of(seen);
    let d = table::distinct(names);
    table::lemma_distinct(names);
    assert forall|i: int| 0 <= i < paths.len() implies 1 <= (#[trigger] paths[i]).present
        <= records.len() && paths[i].present <= paths[i].count && tally_total(paths[i].types)
        == paths[i].count by {
        let path = paths[i].path;
        assert(d[i] == path);
        assert(d.contains(path));
        table::lemma_occurrences(names, path);
        lemma_holders(records, depth, path);
        table::lemma_types_under_len(seen, path);
        law_tally_adds_up(table::types_under(seen, path));
    }
    assert(walk::path_names(paths) =~= table::kept(names, MAX_PATHS as nat));
}

/// A path has no more holders than values, and some if it has some.
pub proof fn lemma_holders(records: Seq<Json>, depth: nat, path: Seq<char>)
    ensures
        walk::holders(records, depth, path) <= records.len(),
        walk::holders(records, depth, path) <= table::occurrences(
            table::names_of(walk::visits(records, depth)),
            path,
        ),
        table::occurrences(table::names_of(walk::visits(records, depth)), path) > 0
            ==> walk::holders(records, depth, path) > 0,
    decreases records.len(),
{
    if records.len() > 0 {
        let init = records.drop_last();
        let before = table::names_of(walk::visits(init, depth));
        let found = table::names_of(walk::record_visits(records.last(), depth));
        lemma_holders(init, depth, path);
        assert(table::names_of(walk::visits(records, depth)) =~= before + found);
        lemma_occurrences_concat(before, found, path);
        table::lemma_occurrences(found, path);
    }
}

/// The path table is complete exactly if it is not marked as truncated: then
/// every path that some record has is in it.
pub proof fn law_untruncated_path_table_is_complete(records: Seq<Json>, depth: nat)
    ensures
        !walk::paths_overflow(records, depth) <==> forall|path: Seq<char>| #[trigger]
            walk::holders(records, depth, path) > 0 ==> walk::path_names(
                walk::path_table(records, depth),
            ).contains(path),
{
    let names = table::names_of(walk::visits(records, depth));
    let listed = walk::path_names(walk::path_table(records, depth));
    let d = table::distinct(names);
    let k = table::kept(names, MAX_PATHS as nat);
    table::lemma_distinct(names);
    assert(listed =~= k);
    if walk::paths_overflow(records, depth) {
        let path = d[MAX_PATHS as int];
        assert(d.contains(path));
        table::lemma_occurrences(names, path);
        lemma_holders(records, depth, path);
        assert(walk::holders(records, depth, path) > 0);
        if k.contains(path) {
            let i = choose|i: int| 0 <= i < k.len() && k[i] == path;
            assert(d[i] == d[MAX_PATHS as int]);
        }
    } else {
        assert(k =~= d);
        assert forall|path: Seq<char>| #[trigger]
            walk::holders(records, depth, path) > 0 implies listed.contains(path) by {
            table::lemma_occurrences(names, path);
            lemma_holders(records, depth, path);
        }
    }
}

/// The listed paths are determined by the table, the number of records and
/// the threshold.
pub proof fn law_listing_is_unique(
    a: Seq<PathEntry>,
    b: Seq<PathEntry>,
    paths: Seq<PathEntry>,
    records: nat,
    min: (nat, nat),
)
    requires
        schema::is_listing(a, paths, records, min),
        schema::is_listing(b, paths, records, min),
    ensures
        a == b,
{
    assert forall|p: PathEntry| a.contains(p) <==> b.contains(p) by {}
    lemma_same_listing(a, b);
}

proof fn lemma_same_listing(a: Seq<PathEntry>, b: Seq<PathEntry>)
    requires
        text::alphabetical(walk::path_names(a)),
        text::alphabetical(walk::path_names(b)),
        forall|p: PathEntry| a.contains(p) <==> b.contains(p),
    ensures
        a == b,
    decreases a.len(),
{
    let x = walk::path_names(a);
    let y = walk::path_names(b);
    if a.len() == 0 {
        if b.len() > 0 {
            assert(b.contains(b[0]));
        }
        assert(a =~= b);
    } else {
        assert(a.contains(a[0]));
        let j = choose|j: int| 0 <= j < b.len() && b[j] == a[0];
        assert(b.contains(b[0]));
        let i = choose|i: int| 0 <= i < a.len() && a[i] == b[0];
        assert(x[i] == y[0] && y[j] == x[0]);
        if i > 0 && j > 0 {
            assert(text::order(x[0], x[i]) == text::Order::Before);
            assert(text::order(y[0], y[j]) == text::Order::Before);
            text::lemma_order_swap(x[0], x[i]);
        }
        assert(a[0] == b[0]);
        text::lemma_alphabetical_distinct(x);
        text::lemma_alphabetical_distinct(y);
        let a1 = a.drop_first();
        let b1 = b.drop_first();
        assert(walk::path_names(a1) =~= x.drop_first());
        assert(walk::path_names(b1) =~= y.drop_first());
        assert forall|p: PathEntry| a1.contains(p) <==> b1.contains(p) by {
            lemma_rest_contains(a, p);
            lemma_rest_contains(b, p);
        }
        lemma_same_listing(a1, b1);
        assert(a =~= seq![a[0]] + a1);
        assert(b =~= seq![b[0]] + b1);
    }
}

proof fn lemma_rest_contains(a: Seq<PathEntry>, p: PathEntry)
    requires
        a.len() > 0,
        walk::path_names(a).no_duplicates(),
    ensures
        a.drop_first().contains(p) <==> a.contains(p) && p != a[0],
{
    let rest = a.drop_first();
    let names = walk::path_names(a);
    if rest.contains(p) {
        let i = choose|i: int| 0 <= i < rest.len() && rest[i] == p;
        assert(a[i + 1] == p);
        assert(names[i + 1] == p.path);
        if p == a[0] {
            assert(names[0] == names[i + 1]);
        }
    }
    if a.contains(p) && p != a[0] {
        let i = choose|i: int| 0 <= i < a.len() && a[i] == p;
        assert(rest[i - 1] == p);
    }
}

/// A threshold of zero hides no path.
pub proof fn law_zero_threshold_hides_nothing(
    listed: Seq<PathEntry>,
    paths: Seq<PathEntry>,
    records: nat,
)
    requires
        schema::is_listing(listed, paths, records, (0, 1)),
    ensures
        forall|p: PathEntry| #[trigger] listed.contains(p) <==> paths.contains(p),
{
    assert forall|p: PathEntry| #[trigger] listed.contains(p) <==> paths.contains(p) by {
        let share = ratio::share(p.present, records);
        assert(share.0 * 1 >= 0 * share.1) by (nonlinear_arith);
    }
}

/// A lower threshold hides no path that a higher one shows.
pub proof fn law_lower_threshold_shows_more(
    few: Seq<PathEntry>,
    many: Seq<PathEntry>,
    paths: Seq<PathEntry>,
    records: nat,
    high: (nat, nat),
    low: (nat, nat),
)
    requires
        high.1 > 0,
        low.1 > 0,
        ratio::at_least(high, low),
        schema::is_listing(few, paths, records, high),
        schema::is_listing(many, paths, records, low),
    ensures
        forall|p: PathEntry| #[trigger] few.contains(p) ==> many.contains(p),
{
    assert forall|p: PathEntry| #[trigger] few.contains(p) implies many.contains(p) by {
        let share = ratio::share(p.present, records);
        let (a, b) = (share.0 as int, share.1 as int);
        let (h, hw) = (high.0 as int, high.1 as int);
        let (l, lw) = (low.0 as int, low.1 as int);
        assert(a * lw >= l * b) by (nonlinear_arith)
            requires
                a * hw >= h * b,
                h * lw >= l * hw,
                a >= 0,
                b > 0,
                h >= 0,
                hw > 0,
                l >= 0,
                lw > 0,
        {
            assert(a * hw * lw >= h * b * lw);
            assert(h * lw * b >= l * hw * b);
            assert((a * lw) * hw >= (l * b) * hw);
        }
    }
}

/// The listed paths are those whose records are at least the wanted share of
/// all, a path with exactly that share among them, and they are in alphabetical
/// order.
pub proof fn law_listing_hides_rarer_paths(
    listed: Seq<PathEntry>,
    paths: Seq<PathEntry>,
    records: nat,
    min: (nat, nat),
)
    requires
        schema::is_listing(listed, paths, records, min),
        records > 0,
    ensures
        forall|p: PathEntry| #[trigger]
            listed.contains(p) <==> paths.contains(p) && p.present * min.1 >= min.0 * records,
        forall|i: int, j: int|
            #![trigger listed[i], listed[j]]
            0 <= i < j < listed.len() ==> text::comes_before(listed[i].path, listed[j].path),
{
    assert forall|i: int, j: int|
        #![trigger listed[i], listed[j]]
        0 <= i < j < listed.len() implies text::comes_before(listed[i].path, listed[j].path) by {
        let names = walk::path_names(listed);
        assert(names[i] == listed[i].path && names[j] == listed[j].path);
        text::law_order_is_by_the_first_difference(names[i], names[j]);
    }
}

/// The top values are the most common ones: a value that is left out, as one
/// that is listed later, is less common, or as common and alphabetically later.
/// None is left out unless there are more than wanted.
pub proof fn law_top_values_are_the_most_common(
    top: Seq<(Seq<char>, nat)>,
    counts: Map<Seq<char>, nat>,
    n: nat,
    other: Seq<char>,
)
    requires
        field::is_top(top, counts, n),
        counts.contains_key(other),
        counts.dom().finite(),
    ensures
        top.len() <= n,
        top.len() <= counts.dom().len(),
        top.len() < n ==> top.len() == counts.dom().len(),
        forall|i: int|
            0 <= i < top.len() ==> counts.contains_key((#[trigger] top[i]).0)
                && counts[top[i].0] == top[i].1,
        forall|i: int|
            0 <= i < top.len() && !top.contains((other, counts[other])) ==> (
            #[trigger] top[i]).1 > counts[other] || (top[i].1 == counts[other]
                && text::comes_before(top[i].0, other)),
        forall|i: int, j: int|
            #![trigger top[i], top[j]]
            0 <= i < j < top.len() ==> top[i].1 > top[j].1 || (top[i].1 == top[j].1
                && text::comes_before(top[i].0, top[j].0)),
{
    assert forall|i: int|
        0 <= i < top.len() && !top.contains((other, counts[other])) implies (
    #[trigger] top[i]).1 > counts[other] || (top[i].1 == counts[other] && text::comes_before(
        top[i].0,
        other,
    )) by {
        assert(field::ranks_before(top[i], (other, counts[other])));
        text::law_order_is_by_the_first_difference(top[i].0, other);
    }
    assert forall|i: int, j: int|
        #![trigger top[i], top[j]]
        0 <= i < j < top.len() implies top[i].1 > top[j].1 || (top[i].1 == top[j].1
        && text::comes_before(top[i].0, top[j].0)) by {
        assert(field::ranks_before(top[i], top[j]));
        text::law_order_is_by_the_first_difference(top[i].0, top[j].0);
    }
}

} // verus!
