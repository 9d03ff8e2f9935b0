//! What the counters of a pass count.

use vstd::prelude::*;

use crate::field;
use crate::json;
use crate::json::Json;
use crate::keys;
use crate::lines;
use crate::path;
use crate::path::Step;
use crate::render;
use crate::schema;
use crate::summary;
use crate::table;
use crate::walk;

verus! {

/// Whether `a` occurs before `b` does for the first time, if it does at all.
pub open spec fn seen_before(names: Seq<Seq<char>>, a: Seq<char>, b: Seq<char>) -> bool {
    exists|p: int|
        0 <= p < names.len() && #[trigger] names[p] == a && forall|q: int|
            0 <= q <= p ==> #[trigger] names[q] != b
}

/// The values that a path selects from records, in order.
pub open spec fn values_at(records: Seq<Json>, steps: Seq<Step>) -> Seq<Json> {
    records.map_values(|record: Json| path::selected(seq![record], steps)).flatten()
}

/// The compact JSON texts of values.
pub open spec fn rendered_values(values: Seq<Json>) -> Seq<Seq<char>> {
    values.map_values(|value: Json| render::rendered(value))
}

/// The type names of values.
pub open spec fn type_names(values: Seq<Json>) -> Seq<Seq<char>> {
    values.map_values(|value: Json| json::type_of(value))
}

/// How many records a path selects something from.
pub open spec fn records_matching(records: Seq<Json>, steps: Seq<Step>) -> nat {
    records.filter(|record: Json| path::selected(seq![record], steps).len() > 0).len()
}

/// How many records are objects.
pub open spec fn object_records(records: Seq<Json>) -> nat {
    records.filter(|record: Json| record is Object).len()
}

/// The types that a name is seen with, in order.
pub open spec fn types_named(
    seen: Seq<(Seq<char>, Seq<char>)>,
    name: Seq<char>,
) -> Seq<Seq<char>> {
    seen.filter(|one: (Seq<char>, Seq<char>)| one.0 == name).map_values(
        |one: (Seq<char>, Seq<char>)| one.1,
    )
}

/// What a walk finds in one record after the other, each value as its path and
/// type.
pub open spec fn found_by_walk(records: Seq<Json>, depth: nat) -> Seq<(Seq<char>, Seq<char>)> {
    records.map_values(|record: Json| walk::visit(record, Seq::empty(), depth)).flatten()
}

/// The types of the values that a walk finds at a path, in order.
pub open spec fn types_at(records: Seq<Json>, depth: nat, path: Seq<char>) -> Seq<Seq<char>> {
    types_named(found_by_walk(records, depth), path)
}

/// How many records a walk finds a path in.
pub open spec fn records_with(records: Seq<Json>, depth: nat, path: Seq<char>) -> nat {
    records.filter(
        |record: Json|
            walk::visit(record, Seq::empty(), depth).map_values(
                |one: (Seq<char>, Seq<char>)| one.0,
            ).contains(path),
    ).len()
}

/// A name occurs as often as it does in the bag of all names.
pub proof fn law_occurrences_are_counted(names: Seq<Seq<char>>, name: Seq<char>)
    ensures
        table::occurrences(names, name) == names.to_multiset().count(name),
    decreases names.len(),
{
    broadcast use vstd::seq_lib::group_to_multiset_ensures;

    if names.len() > 0 {
        law_occurrences_are_counted(names.drop_last(), name);
        assert(names =~= names.drop_last().push(names.last()));
    }
}

/// The names without repeats are those that occur, each once and in the order
/// in which they occur first.
pub proof fn law_names_are_listed_as_first_seen(names: Seq<Seq<char>>)
    ensures
        forall|i: int|
            0 <= i < table::distinct(names).len() ==> names.contains(
                #[trigger] table::distinct(names)[i],
            ),
        forall|name: Seq<char>| #[trigger]
            names.contains(name) ==> table::distinct(names).contains(name),
        forall|i: int, j: int|
            #![trigger table::distinct(names)[i], table::distinct(names)[j]]
            0 <= i < j < table::distinct(names).len() ==> seen_before(
                names,
                table::distinct(names)[i],
                table::distinct(names)[j],
            ),
    decreases names.len(),
{
    table::lemma_distinct(names);
    let d = table::distinct(names);
    assert forall|i: int| 0 <= i < d.len() implies names.contains(#[trigger] d[i]) by {
        assert(d.contains(d[i]));
    }
    if names.len() > 0 {
        let init = names.drop_last();
        let before = table::distinct(init);
        law_names_are_listed_as_first_seen(init);
        table::lemma_distinct(init);
        assert forall|i: int, j: int|
            #![trigger d[i], d[j]]
            0 <= i < j < d.len() implies seen_before(names, d[i], d[j]) by {
            assert(d[i] == before[i]);
            if j < before.len() {
                assert(d[j] == before[j]);
                assert(seen_before(init, before[i], before[j]));
                let p = choose|p: int|
                    0 <= p < init.len() && #[trigger] init[p] == d[i] && forall|q: int|
                        0 <= q <= p ==> #[trigger] init[q] != d[j];
                assert(names[p] == d[i]);
                assert forall|q: int| 0 <= q <= p implies #[trigger] names[q] != d[j] by {
                    assert(names[q] == init[q]);
                }
            } else {
                assert(d[j] == names.last());
                assert(init.contains(before[i]));
                let p = choose|p: int| 0 <= p < init.len() && init[p] == before[i];
                assert(names[p] == d[i]);
                assert forall|q: int| 0 <= q <= p implies #[trigger] names[q] != d[j] by {
                    assert(names[q] == init[q]);
                    if init[q] == d[j] {
                        assert(init.contains(d[j]));
                        assert(before.contains(d[j]));
                    }
                }
            }
        }
    }
}

/// A tally lists every name that occurs, once, in first-seen order, with the
/// number of its occurrences.
pub proof fn law_tally_counts_names_in_first_seen_order(names: Seq<Seq<char>>)
    ensures
        ({
            let counts = table::tally(names);
            &&& forall|i: int|
                0 <= i < counts.len() ==> names.contains((#[trigger] counts[i]).0)
                    && counts[i].1 == names.to_multiset().count(counts[i].0)
            &&& forall|name: Seq<char>| #[trigger]
                names.contains(name) ==> exists|i: int|
                    0 <= i < counts.len() && (#[trigger] counts[i]).0 == name
            &&& forall|i: int, j: int|
                #![trigger counts[i], counts[j]]
                0 <= i < j < counts.len() ==> seen_before(names, counts[i].0, counts[j].0)
        }),
{
    let counts = table::tally(names);
    let d = table::distinct(names);
    law_names_are_listed_as_first_seen(names);
    assert forall|i: int| 0 <= i < counts.len() implies names.contains((#[trigger] counts[i]).0)
        && counts[i].1 == names.to_multiset().count(counts[i].0) by {
        assert(counts[i].0 == d[i]);
        law_occurrences_are_counted(names, d[i]);
    }
    assert forall|name: Seq<char>| #[trigger] names.contains(name) implies exists|i: int|
        0 <= i < counts.len() && (#[trigger] counts[i]).0 == name by {
        assert(d.contains(name));
        let i = choose|i: int| 0 <= i < d.len() && d[i] == name;
        assert(counts[i].0 == name);
    }
    assert forall|i: int, j: int|
        #![trigger counts[i], counts[j]]
        0 <= i < j < counts.len() implies seen_before(names, counts[i].0, counts[j].0) by {
        assert(counts[i].0 == d[i] && counts[j].0 == d[j]);
    }
}

proof fn lemma_types_under(seen: Seq<(Seq<char>, Seq<char>)>, name: Seq<char>)
    ensures
        table::types_under(seen, name) == types_named(seen, name),
    decreases seen.len(),
{
    reveal(Seq::filter);
    if seen.len() > 0 {
        lemma_types_under(seen.drop_last(), name);
    }
    assert(table::types_under(seen, name) =~= types_named(seen, name));
}

/// A frequency table has a line for each of the names that are seen first, as
/// many as it has room for: the number of occurrences of the name, and the
/// tally of the types that it occurs with.
pub proof fn law_table_describes_the_names_seen_first(
    seen: Seq<(Seq<char>, Seq<char>)>,
    cap: nat,
)
    ensures
        ({
            let lines = table::table(seen, cap);
            let all = table::distinct(seen.map_values(|one: (Seq<char>, Seq<char>)| one.0));
            &&& lines.len() <= cap
            &&& lines.len() <= all.len()
            &&& lines.len() < cap ==> lines.len() == all.len()
            &&& forall|i: int|
                #![trigger lines[i]]
                0 <= i < lines.len() ==> {
                    &&& lines[i].name == all[i]
                    &&& lines[i].count == types_named(seen, lines[i].name).len()
                    &&& lines[i].types == table::tally(types_named(seen, lines[i].name))
                }
        }),
{
    let lines = table::table(seen, cap);
    assert forall|i: int|
        #![trigger lines[i]]
        0 <= i < lines.len() implies {
        &&& lines[i].count == types_named(seen, lines[i].name).len()
        &&& lines[i].types == table::tally(types_named(seen, lines[i].name))
    } by {
        lemma_types_under(seen, lines[i].name);
        table::lemma_types_under_len(seen, lines[i].name);
    }
}

proof fn lemma_flatten_push<A>(parts: Seq<Seq<A>>, last: Seq<A>)
    ensures
        parts.push(last).flatten() == parts.flatten() + last,
{
    parts.lemma_flatten_and_flatten_alt_are_equivalent();
    parts.push(last).lemma_flatten_and_flatten_alt_are_equivalent();
    assert(parts.push(last).drop_last() =~= parts);
}

proof fn lemma_counters(lines: Seq<Seq<u8>>)
    ensures
        summary::blank_lines(lines) == lines.filter(
            |line: Seq<u8>| lines::content(line) is Blank,
        ).len(),
        summary::problems_of(lines).len() == lines.filter(
            |line: Seq<u8>| lines::content(line) is Invalid,
        ).len(),
        summary::records_of(lines) == lines.filter(
            |line: Seq<u8>| lines::content(line) is Record,
        ).map_values(|line: Seq<u8>| lines::content(line)->Record_0),
        summary::bytes_of(lines) == lines.filter(
            |line: Seq<u8>| !(lines::content(line) is Blank),
        ).flatten().len(),
        summary::lengths_of(lines) == lines.filter(
            |line: Seq<u8>| !(lines::content(line) is Blank),
        ).map_values(|line: Seq<u8>| line.len() as u64),
    decreases lines.len(),
{
    reveal(Seq::filter);
    let solid = |line: Seq<u8>| !(lines::content(line) is Blank);
    let record = |line: Seq<u8>| lines::content(line) is Record;
    if lines.len() > 0 {
        let init = lines.drop_last();
        lemma_counters(init);
        lemma_flatten_push(init.filter(solid), lines.last());
    }
    assert(summary::records_of(lines) =~= lines.filter(record).map_values(
        |line: Seq<u8>| lines::content(line)->Record_0,
    ));
    assert(summary::lengths_of(lines) =~= lines.filter(solid).map_values(
        |line: Seq<u8>| line.len() as u64,
    ));
}

proof fn lemma_objects(records: Seq<Json>)
    ensures
        summary::objects_in(records) == object_records(records),
    decreases records.len(),
{
    reveal(Seq::filter);
    if records.len() > 0 {
        lemma_objects(records.drop_last());
    }
}

/// The counters of a pass are numbers of lines of their kind: blank ones, ones
/// that hold a record, and broken ones. Bytes and lengths are those of the lines
/// that are not blank; objects and top level types are those of the records.
pub proof fn law_counters_count_lines_of_their_kind(
    lines: Seq<Seq<u8>>,
    paths: Seq<Seq<Step>>,
    max_errors: nat,
)
    ensures
        ({
            let s = summary::summary_of(lines, paths, max_errors);
            let solid = lines.filter(|line: Seq<u8>| !(lines::content(line) is Blank));
            let valid = lines.filter(|line: Seq<u8>| lines::content(line) is Record);
            let records = valid.map_values(|line: Seq<u8>| lines::content(line)->Record_0);
            &&& records == summary::records_of(lines)
            &&& s.lines == lines.len()
            &&& s.blank == lines.filter(|line: Seq<u8>| lines::content(line) is Blank).len()
            &&& s.invalid == lines.filter(|line: Seq<u8>| lines::content(line) is Invalid).len()
            &&& s.valid == valid.len()
            &&& s.bytes == solid.flatten().len()
            &&& s.lengths == solid.map_values(|line: Seq<u8>| line.len() as u64).to_multiset()
            &&& s.object_records == object_records(records)
            &&& s.top_level == table::tally(type_names(records))
            &&& s.keys_truncated <==> table::distinct(
                table::names_of(keys::key_events(records)),
            ).len() > 512
        }),
{
    lemma_counters(lines);
    lemma_objects(summary::records_of(lines));
    let records = summary::records_of(lines);
    assert(field::types_in(records) =~= type_names(records));
}

proof fn lemma_matches(records: Seq<Json>, steps: Seq<Step>)
    ensures
        field::matches_in(records, steps) == values_at(records, steps),
        field::present_in(records, steps) == records_matching(records, steps),
    decreases records.len(),
{
    reveal(Seq::filter);
    let here = |record: Json| path::selected(seq![record], steps);
    if records.len() > 0 {
        let init = records.drop_last();
        lemma_matches(init, steps);
        lemma_flatten_push(init.map_values(here), here(records.last()));
        assert(records.map_values(here) =~= init.map_values(here).push(here(records.last())));
    } else {
        assert(records.map_values(here) =~= Seq::empty());
    }
}

/// The profile of a field is that of the values that its path selects from the
/// records, one after the other: it is present in the records from which the
/// path selects something, and its types are those of the selected values.
pub proof fn law_fields_profile_what_their_paths_select(
    lines: Seq<Seq<u8>>,
    paths: Seq<Seq<Step>>,
    max_errors: nat,
    i: int,
)
    requires
        0 <= i < paths.len(),
    ensures
        ({
            let s = summary::summary_of(lines, paths, max_errors);
            let records = summary::records_of(lines);
            let found = values_at(records, paths[i]);
            &&& s.fields.len() == paths.len()
            &&& s.fields[i].present == records_matching(records, paths[i])
            &&& s.fields[i].values == found.len()
            &&& s.fields[i].types == table::tally(type_names(found))
        }),
{
    let records = summary::records_of(lines);
    lemma_matches(records, paths[i]);
    let found = field::matches_in(records, paths[i]);
    assert(field::types_in(found) =~= type_names(found));
}

proof fn lemma_fresh_types(members: Seq<(Seq<char>, Json)>, key: Seq<char>)
    ensures
        table::types_under(keys::fresh(members), key) == (match json::member(members, key) {
            Some(value) => seq![json::type_of(value)],
            None => Seq::empty(),
        }),
        table::names_of(keys::fresh(members)).contains(key) <==> json::member(
            members,
            key,
        ) is Some,
    decreases members.len(),
{
    let seen = keys::fresh(members);
    if members.len() > 0 {
        let init = members.drop_last();
        let last = members.last();
        let before = keys::fresh(init);
        let names = table::names_of(before);
        lemma_fresh_types(init, key);
        lemma_fresh_types(init, last.0);
        lemma_member_push(init, last, key);
        assert(init.push(last) =~= members);
        if !names.contains(last.0) {
            assert(seen.drop_last() =~= before);
            let more = table::names_of(seen);
            assert(more =~= names.push(last.0));
            assert(more[names.len() as int] == last.0);
            if names.contains(key) {
                let j = choose|j: int| 0 <= j < names.len() && names[j] == key;
                assert(more[j] == key);
            }
            if last.0 == key {
                assert(table::types_under(seen, key) =~= seq![json::type_of(last.1)]);
            }
        }
    }
}

proof fn lemma_member_push(
    members: Seq<(Seq<char>, Json)>,
    last: (Seq<char>, Json),
    key: Seq<char>,
)
    ensures
        json::member(members.push(last), key) == (match json::member(members, key) {
            Some(value) => Some(value),
            None => if last.0 == key {
                Some(last.1)
            } else {
                None
            },
        }),
    decreases members.len(),
{
    let more = members.push(last);
    if members.len() == 0 {
        assert(more.drop_first() =~= Seq::empty());
        assert(json::member(more.drop_first(), key) is None);
    } else {
        lemma_member_push(members.drop_first(), last, key);
        assert(more.drop_first() =~= members.drop_first().push(last));
    }
}

proof fn lemma_key_types(records: Seq<Json>, key: Seq<char>)
    ensures
        table::types_under(keys::key_events(records), key) == field::types_in(
            field::matches_in(records, seq![Step::Key(key)]),
        ),
        field::matches_in(records, seq![Step::Key(key)]).len() == field::present_in(
            records,
            seq![Step::Key(key)],
        ),
    decreases records.len(),
{
    let steps = seq![Step::Key(key)];
    let types = field::types_in(field::matches_in(records, steps));
    if records.len() == 0 {
        assert(types =~= Seq::empty());
    } else {
        let init = records.drop_last();
        let last = records.last();
        let before = keys::key_events(init);
        let found = path::selected(seq![last], steps);
        lemma_key_types(init, key);
        lemma_types_under_concat(before, keys::record_keys(last), key);
        reveal_with_fuel(path::selected, 2);
        assert(steps.drop_first() =~= Seq::empty());
        assert(seq![last].drop_last() =~= Seq::empty());
        assert(path::step_into_all(seq![last].drop_last(), steps[0]) =~= Seq::empty());
        assert(found =~= path::step_into(last, steps[0]));
        assert(table::types_under(keys::record_keys(last), key) =~= field::types_in(found)) by {
            if let Json::Object(members) = last {
                lemma_fresh_types(members, key);
            }
        }
        assert(types =~= field::types_in(field::matches_in(init, steps)) + field::types_in(found));
    }
}

proof fn lemma_types_under_concat(
    a: Seq<(Seq<char>, Seq<char>)>,
    b: Seq<(Seq<char>, Seq<char>)>,
    name: Seq<char>,
)
    ensures
        table::types_under(a + b, name) == table::types_under(a, name) + table::types_under(
            b,
            name,
        ),
    decreases b.len(),
{
    if b.len() == 0 {
        assert(a + b =~= a);
        assert(table::types_under(a, name) + table::types_under(b, name) =~= table::types_under(
            a,
            name,
        ));
    } else {
        assert((a + b).drop_last() =~= a + b.drop_last());
        lemma_types_under_concat(a, b.drop_last(), name);
        assert(table::types_under(a + b, name) =~= table::types_under(a, name)
            + table::types_under(b, name));
    }
}

/// The key table says of a key what profiling it as a field says: it counts the
/// records from which the key selects a value, and tallies the types of these
/// values, the first of that name in each record, in the order of the records.
pub proof fn law_keys_are_profiled_like_fields(
    lines: Seq<Seq<u8>>,
    paths: Seq<Seq<Step>>,
    max_errors: nat,
    i: int,
)
    requires
        0 <= i < summary::summary_of(lines, paths, max_errors).keys.len(),
    ensures
        ({
            let records = summary::records_of(lines);
            let key = summary::summary_of(lines, paths, max_errors).keys[i];
            let steps = seq![Step::Key(key.name)];
            let profile = field::field_profile(records, steps);
            let values = values_at(records, steps);
            &&& key.count == profile.present
            &&& key.count == values.len()
            &&& key.types == profile.types
            &&& key.types == table::tally(type_names(values))
        }),
{
    let records = summary::records_of(lines);
    let key = summary::summary_of(lines, paths, max_errors).keys[i];
    let steps = seq![Step::Key(key.name)];
    let found = field::matches_in(records, steps);
    lemma_key_types(records, key.name);
    lemma_matches(records, steps);
    table::lemma_types_under_len(keys::key_events(records), key.name);
    assert(field::types_in(found) =~= type_names(found));
}

proof fn lemma_distinct_again(a: Seq<Seq<char>>, b: Seq<Seq<char>>)
    ensures
        table::distinct(a + table::distinct(b)) == table::distinct(a + b),
    decreases b.len(),
{
    if b.len() > 0 {
        let init = b.drop_last();
        let last = b.last();
        let d = table::distinct(init);
        lemma_distinct_again(a, init);
        table::lemma_distinct(init);
        table::lemma_distinct(a + init);
        assert((a + b).drop_last() =~= a + init);
        if d.contains(last) {
            assert(init.contains(last));
            let k = choose|k: int| 0 <= k < init.len() && init[k] == last;
            assert((a + init)[a.len() + k] == last);
            assert((a + init).contains(last));
            assert(table::distinct(a + init).contains(last));
        } else {
            assert((a + d.push(last)).drop_last() =~= a + d);
        }
    }
}

/// The names of the members of an object; other values have none.
pub open spec fn member_names(record: Json) -> Seq<Seq<char>> {
    match record {
        Json::Object(members) => members.map_values(|one: (Seq<char>, Json)| one.0),
        _ => Seq::empty(),
    }
}

proof fn lemma_fresh_names(members: Seq<(Seq<char>, Json)>)
    ensures
        table::names_of(keys::fresh(members)) == table::distinct(
            members.map_values(|one: (Seq<char>, Json)| one.0),
        ),
    decreases members.len(),
{
    let names = members.map_values(|one: (Seq<char>, Json)| one.0);
    if members.len() > 0 {
        let init = members.drop_last();
        lemma_fresh_names(init);
        assert(names.drop_last() =~= init.map_values(|one: (Seq<char>, Json)| one.0));
    }
    assert(table::names_of(keys::fresh(members)) =~= table::distinct(names));
}

proof fn lemma_key_names(records: Seq<Json>)
    ensures
        table::distinct(table::names_of(keys::key_events(records))) == table::distinct(
            records.map_values(|record: Json| member_names(record)).flatten(),
        ),
    decreases records.len(),
{
    let names = |record: Json| member_names(record);
    if records.len() == 0 {
        assert(records.map_values(names) =~= Seq::empty());
        assert(table::names_of(keys::key_events(records)) =~= Seq::empty());
    } else {
        let init = records.drop_last();
        let last = records.last();
        let before = table::names_of(keys::key_events(init));
        let prior = init.map_values(names).flatten();
        let found = table::names_of(keys::record_keys(last));
        lemma_key_names(init);
        lemma_flatten_push(init.map_values(names), names(last));
        assert(records.map_values(names) =~= init.map_values(names).push(names(last)));
        assert(table::names_of(keys::key_events(records)) =~= before + found);
        assert(found =~= table::distinct(member_names(last))) by {
            if let Json::Object(members) = last {
                lemma_fresh_names(members);
            }
        }
        lemma_distinct_again(before, member_names(last));
        lemma_distinct_prefix(before, prior, member_names(last));
    }
}

proof fn lemma_distinct_prefix(a: Seq<Seq<char>>, b: Seq<Seq<char>>, more: Seq<Seq<char>>)
    requires
        table::distinct(a) == table::distinct(b),
    ensures
        table::distinct(a + more) == table::distinct(b + more),
    decreases more.len(),
{
    if more.len() == 0 {
        assert(a + more =~= a);
        assert(b + more =~= b);
    } else {
        lemma_distinct_prefix(a, b, more.drop_last());
        assert((a + more).drop_last() =~= a + more.drop_last());
        assert((b + more).drop_last() =~= b + more.drop_last());
    }
}

/// The key table lists the names of the members of all records in the order in
/// which they are first seen, up to 512 of them. It is truncated exactly if there
/// are more.
pub proof fn law_key_table_lists_the_keys_seen_first(
    lines: Seq<Seq<u8>>,
    paths: Seq<Seq<Step>>,
    max_errors: nat,
)
    ensures
        ({
            let s = summary::summary_of(lines, paths, max_errors);
            let all = table::distinct(
                summary::records_of(lines).map_values(
                    |record: Json| member_names(record),
                ).flatten(),
            );
            &&& s.keys_truncated <==> all.len() > 512
            &&& s.keys.len() == (if all.len() > 512 {
                512
            } else {
                all.len()
            })
            &&& forall|i: int| 0 <= i < s.keys.len() ==> (#[trigger] s.keys[i]).name == all[i]
        }),
{
    lemma_key_names(summary::records_of(lines));
}

proof fn lemma_walk_counters(records: Seq<Json>, depth: nat, path: Seq<char>)
    ensures
        walk::visits(records, depth) == found_by_walk(records, depth),
        walk::holders(records, depth, path) == records_with(records, depth, path),
        table::types_under(walk::visits(records, depth), path) == types_at(records, depth, path),
    decreases records.len(),
{
    reveal(Seq::filter);
    let here = |record: Json| walk::visit(record, Seq::empty(), depth);
    if records.len() > 0 {
        let init = records.drop_last();
        lemma_walk_counters(init, depth, path);
        lemma_flatten_push(init.map_values(here), here(records.last()));
        assert(records.map_values(here) =~= init.map_values(here).push(here(records.last())));
    } else {
        assert(records.map_values(here) =~= Seq::empty());
    }
    lemma_types_under(walk::visits(records, depth), path);
}

/// The path table has a line for each of the first 2000 paths visited, in the
/// order in which they are visited first: the number of records in which the
/// path is visited, the number of visits, and the tally of the types found
/// there. It is truncated exactly if there are more paths.
pub proof fn law_path_table_counts_records_and_values(lines: Seq<Seq<u8>>, depth: nat)
    ensures
        ({
            let o = schema::outline_of(lines, depth);
            let records = summary::records_of(lines);
            let all = table::distinct(
                found_by_walk(records, depth).map_values(|one: (Seq<char>, Seq<char>)| one.0),
            );
            &&& o.records == records.len()
            &&& o.skipped == lines.filter(|line: Seq<u8>| lines::content(line) is Invalid).len()
            &&& o.truncated <==> all.len() > 2000
            &&& o.paths.len() == (if all.len() > 2000 {
                2000
            } else {
                all.len()
            })
            &&& forall|i: int|
                #![trigger o.paths[i]]
                0 <= i < o.paths.len() ==> {
                    let p = o.paths[i];
                    &&& p.path == all[i]
                    &&& p.present == records_with(records, depth, p.path)
                    &&& p.count == types_at(records, depth, p.path).len()
                    &&& p.types == table::tally(types_at(records, depth, p.path))
                }
        }),
{
    let o = schema::outline_of(lines, depth);
    let records = summary::records_of(lines);
    let seen = walk::visits(records, depth);
    lemma_counters(lines);
    lemma_walk_counters(records, depth, Seq::empty());
    assert forall|i: int|
        #![trigger o.paths[i]]
        0 <= i < o.paths.len() implies {
        let p = o.paths[i];
        &&& p.present == records_with(records, depth, p.path)
        &&& p.count == types_at(records, depth, p.path).len()
        &&& p.types == table::tally(types_at(records, depth, p.path))
    } by {
        let p = o.paths[i];
        lemma_walk_counters(records, depth, p.path);
        table::lemma_types_under_len(seen, p.path);
    }
}

/// The value table of a field remembers the first 10000 different values, by
/// their JSON texts, and counts how often each of them occurs. It is truncated
/// exactly if there are more.
pub proof fn law_value_table_counts_the_values_seen_first(
    lines: Seq<Seq<u8>>,
    paths: Seq<Seq<Step>>,
    max_errors: nat,
    i: int,
)
    requires
        0 <= i < paths.len(),
    ensures
        ({
            let profile = summary::summary_of(lines, paths, max_errors).fields[i];
            let texts = rendered_values(values_at(summary::records_of(lines), paths[i]));
            let all = table::distinct(texts);
            &&& profile.truncated <==> all.len() > 10_000
            &&& profile.counts.dom().finite()
            &&& profile.counts.dom().len() == (if all.len() > 10_000 {
                10_000
            } else {
                all.len()
            })
            &&& forall|k: int|
                0 <= k < all.len() ==> (profile.counts.contains_key(#[trigger] all[k]) <==> k
                    < 10_000)
            &&& forall|k: int|
                0 <= k < all.len() && k < 10_000 ==> profile.counts[#[trigger] all[k]]
                    == texts.to_multiset().count(all[k])
            &&& forall|one: Seq<char>| #[trigger]
                profile.counts.contains_key(one) ==> texts.contains(one)
        }),
{
    let records = summary::records_of(lines);
    lemma_matches(records, paths[i]);
    let values = values_at(records, paths[i]);
    let texts = rendered_values(values);
    assert(field::texts_in(values) =~= texts);
    let profile = summary::summary_of(lines, paths, max_errors).fields[i];
    let all = table::distinct(texts);
    let kept = table::kept(texts, 10_000);
    field::lemma_counted_len(texts, 10_000);
    table::lemma_distinct(texts);
    assert forall|k: int| 0 <= k < all.len() implies (profile.counts.contains_key(
        #[trigger] all[k],
    ) <==> k < 10_000) by {
        if k < 10_000 {
            assert(kept[k] == all[k]);
        } else if kept.contains(all[k]) {
            let j = choose|j: int| 0 <= j < kept.len() && kept[j] == all[k];
            assert(all[j] == all[k]);
        }
    }
    assert forall|k: int| 0 <= k < all.len() && k < 10_000 implies profile.counts[
        #[trigger] all[k]
    ] == texts.to_multiset().count(all[k]) by {
        assert(kept[k] == all[k]);
        law_occurrences_are_counted(texts, all[k]);
    }
    assert forall|one: Seq<char>| #[trigger] profile.counts.contains_key(one) implies texts.contains(
        one,
    ) by {
        let j = choose|j: int| 0 <= j < kept.len() && kept[j] == one;
        assert(all[j] == one);
        assert(all.contains(one));
    }
}

} // verus!
