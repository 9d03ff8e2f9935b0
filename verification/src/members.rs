//! What the members of the machine-readable reports say.

use vstd::prelude::*;

use crate::counting;
use crate::field;
use crate::hist;
use crate::json;
use crate::json::Json;
use crate::laws;
use crate::lines;
use crate::path::Step;
use crate::report;
use crate::schema;
use crate::schema_report;
use crate::stats_json;
use crate::summary;
use crate::table;
use crate::table::Entry;
use crate::walk::PathEntry;

verus! {

/// The member of an object with a name, if there is one.
pub open spec fn named(object: Json, name: Seq<char>) -> Option<Json> {
    match object {
        Json::Object(members) => json::member(members, name),
        _ => None,
    }
}

/// Whether a value is an object with so many members.
pub open spec fn has_members(object: Json, n: nat) -> bool {
    object matches Json::Object(members) && members.len() == n
}

/// Whether a member is there and is a number, as far as an `i64` goes.
pub open spec fn is_count(found: Option<Json>, n: nat) -> bool {
    found matches Some(Json::Int(k)) && (n <= i64::MAX ==> k == n)
}

/// Whether a member is there and is the share that a part has in a whole, zero
/// if there is no whole.
pub open spec fn is_share(found: Option<Json>, part: nat, whole: nat) -> bool {
    &&& whole > 0 ==> found == Some(Json::Ratio(part, whole))
    &&& whole == 0 ==> (found matches Some(Json::Ratio(p, w)) && p == 0 && w > 0)
}

/// Whether a member counts names: it has a member for each name that occurs,
/// in first-seen order, which says how often.
pub open spec fn is_tally(found: Option<Json>, names: Seq<Seq<char>>) -> bool {
    &&& found matches Some(Json::Object(members))
    &&& members.map_values(|one: (Seq<char>, Json)| one.0) == table::distinct(names)
    &&& forall|name: Seq<char>|
        if names.contains(name) {
            is_count(#[trigger] json::member(members, name), names.to_multiset().count(name))
        } else {
            json::member(members, name) is None
        }
}

proof fn lemma_named(members: Seq<(Seq<char>, Json)>, i: int)
    requires
        0 <= i < members.len(),
        forall|j: int| 0 <= j < i ==> (#[trigger] members[j]).0 != members[i].0,
    ensures
        json::member(members, members[i].0) == Some(members[i].1),
    decreases members.len(),
{
    if i > 0 {
        let rest = members.drop_first();
        assert forall|j: int| 0 <= j < i - 1 implies (#[trigger] rest[j]).0 != rest[i - 1].0 by {
            assert(rest[j] == members[j + 1]);
        }
        lemma_named(rest, i - 1);
        assert(members[0].0 != members[i].0);
    }
}

proof fn lemma_not_named(members: Seq<(Seq<char>, Json)>, name: Seq<char>)
    requires
        forall|j: int| 0 <= j < members.len() ==> (#[trigger] members[j]).0 != name,
    ensures
        json::member(members, name) is None,
    decreases members.len(),
{
    if members.len() > 0 {
        let rest = members.drop_first();
        assert forall|j: int| 0 <= j < rest.len() implies (#[trigger] rest[j]).0 != name by {
            assert(rest[j] == members[j + 1]);
        }
        lemma_not_named(rest, name);
        assert(members[0].0 != name);
    }
}

/// Types with their counts are an object with a member for each type that
/// occurs, in first-seen order, which says how often it does.
pub proof fn law_types_are_counted_by_name(names: Seq<Seq<char>>)
    ensures
        is_tally(Some(report::type_counts(table::tally(names))), names),
{
    let members = report::type_counts(table::tally(names))->Object_0;
    let d = table::distinct(names);
    let listed = members.map_values(|one: (Seq<char>, Json)| one.0);
    table::lemma_distinct(names);
    assert(listed =~= d);
    assert forall|name: Seq<char>|
        if names.contains(name) {
            is_count(#[trigger] json::member(members, name), names.to_multiset().count(name))
        } else {
            json::member(members, name) is None
        } by {
        if names.contains(name) {
            assert(d.contains(name));
            let i = choose|i: int| 0 <= i < d.len() && d[i] == name;
            assert forall|j: int| 0 <= j < i implies (#[trigger] members[j]).0 != members[i].0 by {
                assert(members[j].0 == d[j] && members[i].0 == d[i]);
            }
            lemma_named(members, i);
            counting::law_occurrences_are_counted(names, name);
        } else {
            assert forall|j: int| 0 <= j < members.len() implies (#[trigger] members[j]).0
                != name by {
                assert(members[j].0 == d[j]);
                assert(d.contains(d[j]));
            }
            lemma_not_named(members, name);
        }
    }
}

proof fn lemma_path_members(p: PathEntry, records: nat)
    ensures
        ({
            let o = schema_report::path_object(p, records);
            &&& named(o, "path"@) == Some(Json::Str(p.path))
            &&& is_count(named(o, "present"@), p.present)
            &&& is_count(named(o, "count"@), p.count)
            &&& is_share(named(o, "rate"@), p.present, records)
            &&& named(o, "types"@) == Some(report::type_counts(p.types))
        }),
{
    let members = schema_report::path_object(p, records)->Object_0;
    lemma_path_names(members);
}

/// The JSON form of a schema says, of every path listed, in how many records a
/// walk finds it (`present`), how often (`count`), the share of records that
/// have it (`rate`), which never exceeds one, and the types found there. The
/// counters of records and skipped lines, the depth and the truncation mark are
/// those of the pass.
pub proof fn law_schema_members_say_what_was_found(
    lines: Seq<Seq<u8>>,
    depth: nat,
    min: (nat, nat),
    listed: Seq<PathEntry>,
)
    requires
        schema::is_listing(
            listed,
            schema::outline_of(lines, depth).paths,
            schema::outline_of(lines, depth).records,
            min,
        ),
    ensures
        ({
            let found = schema::outline_of(lines, depth);
            let records = summary::records_of(lines);
            let o = schema_report::schema_object(
                depth,
                found.records,
                found.skipped,
                listed,
                found.truncated,
            );
            &&& has_members(o, 5)
            &&& is_count(named(o, "records"@), records.len())
            &&& is_count(
                named(o, "skipped"@),
                lines.filter(|line: Seq<u8>| lines::content(line) is Invalid).len(),
            )
            &&& is_count(named(o, "depth"@), depth)
            &&& named(o, "truncated"@) == Some(Json::Bool(found.truncated))
            &&& named(o, "paths"@) matches Some(Json::Array(paths))
            &&& paths.len() == listed.len()
            &&& forall|i: int|
                0 <= i < paths.len() ==> tells_of_path(
                    #[trigger] paths[i],
                    records,
                    depth,
                    listed[i].path,
                )
        }),
{
    let found = schema::outline_of(lines, depth);
    let records = summary::records_of(lines);
    let o = schema_report::schema_object(
        depth,
        found.records,
        found.skipped,
        listed,
        found.truncated,
    );
    let members = o->Object_0;
    lemma_schema_names(members);
    counting::law_path_table_counts_records_and_values(lines, depth);
    let paths = named(o, "paths"@)->0->Array_0;
    assert forall|i: int| 0 <= i < paths.len() implies tells_of_path(
        #[trigger] paths[i],
        records,
        depth,
        listed[i].path,
    ) by {
        assert(listed.contains(listed[i]));
        assert(found.paths.contains(listed[i]));
        let k = choose|k: int| 0 <= k < found.paths.len() && found.paths[k] == listed[i];
        let p = found.paths[k];
        lemma_path_members(p, records.len());
        laws::law_path_counters(records, depth);
        assert(p.present == counting::records_with(records, depth, p.path));
        assert(p.types == table::tally(counting::types_at(records, depth, p.path)));
        assert(p.count == counting::types_at(records, depth, p.path).len());
        law_types_are_counted_by_name(counting::types_at(records, depth, p.path));
        assert(paths[i] == schema_report::path_object(p, records.len()));
    }
}

/// Whether an object says what a walk over records finds at a path.
pub open spec fn tells_of_path(
    object: Json,
    records: Seq<Json>,
    depth: nat,
    path: Seq<char>,
) -> bool {
    &&& has_members(object, 5)
    &&& named(object, "path"@) == Some(Json::Str(path))
    &&& is_count(named(object, "present"@), counting::records_with(records, depth, path))
    &&& is_count(named(object, "count"@), counting::types_at(records, depth, path).len())
    &&& is_share(named(object, "rate"@), counting::records_with(records, depth, path), records.len())
    &&& is_tally(named(object, "types"@), counting::types_at(records, depth, path))
    &&& counting::records_with(records, depth, path) <= records.len()
}

/// The JSON form of line lengths names their smallest, their largest and their
/// mean, and the quantiles at 50, 90 and 99 percent.
pub proof fn law_length_members_describe_the_lengths(lengths: Seq<u64>)
    requires
        hist::ascending(lengths),
    ensures
        ({
            let o = stats_json::lengths_object(lengths);
            &&& has_members(o, 6)
            &&& is_share(named(o, "mean"@), hist::total(lengths), lengths.len())
            &&& lengths.len() == 0 ==> is_count(named(o, "min"@), 0) && is_count(
                named(o, "p50"@),
                0,
            ) && is_count(named(o, "p90"@), 0) && is_count(named(o, "p99"@), 0) && is_count(
                named(o, "max"@),
                0,
            )
            &&& lengths.len() > 0 ==> {
                &&& exists|x: u64|
                    is_count(named(o, "min"@), x as nat) && #[trigger] lengths.contains(x)
                        && forall|i: int| 0 <= i < lengths.len() ==> x <= #[trigger] lengths[i]
                &&& exists|x: u64|
                    is_count(named(o, "max"@), x as nat) && #[trigger] lengths.contains(x)
                        && forall|i: int| 0 <= i < lengths.len() ==> x >= #[trigger] lengths[i]
                &&& exists|x: u64|
                    is_count(named(o, "p50"@), x as nat) && #[trigger] hist::is_quantile(
                        lengths,
                        50,
                        x,
                    )
                &&& exists|x: u64|
                    is_count(named(o, "p90"@), x as nat) && #[trigger] hist::is_quantile(
                        lengths,
                        90,
                        x,
                    )
                &&& exists|x: u64|
                    is_count(named(o, "p99"@), x as nat) && #[trigger] hist::is_quantile(
                        lengths,
                        99,
                        x,
                    )
            }
        }),
{
    let members = stats_json::lengths_object(lengths)->Object_0;
    lemma_length_names(members);
    if lengths.len() > 0 {
        hist::law_quantile_is_the_smallest_that_covers(lengths, 50);
        hist::law_quantile_is_the_smallest_that_covers(lengths, 90);
        hist::law_quantile_is_the_smallest_that_covers(lengths, 99);
        hist::law_quantiles(lengths, 50, 90);
        hist::law_quantiles(lengths, 90, 99);
        assert(lengths.contains(lengths[0]));
        assert(lengths.contains(lengths[lengths.len() - 1]));
        assert(hist::is_quantile(lengths, 50, lengths[hist::rank(lengths.len(), 50) - 1]));
        assert(hist::is_quantile(lengths, 90, lengths[hist::rank(lengths.len(), 90) - 1]));
        assert(hist::is_quantile(lengths, 99, lengths[hist::rank(lengths.len(), 99) - 1]));
    }
}

/// Whether an object says what profiling a top level key of records as a field
/// finds.
pub open spec fn tells_of_key(object: Json, records: Seq<Json>, key: Seq<char>) -> bool {
    let values = counting::values_at(records, seq![Step::Key(key)]);
    &&& has_members(object, 4)
    &&& named(object, "key"@) == Some(Json::Str(key))
    &&& is_count(named(object, "count"@), values.len())
    &&& is_share(
        named(object, "rate"@),
        values.len(),
        counting::object_records(records),
    )
    &&& is_tally(named(object, "types"@), counting::type_names(values))
    &&& values.len() <= counting::object_records(records)
}

/// Whether an object says what a path selects from records.
pub open spec fn tells_of_field(
    object: Json,
    records: Seq<Json>,
    text: Seq<char>,
    steps: Seq<Step>,
) -> bool {
    let values = counting::values_at(records, steps);
    let profile = field::field_profile(records, steps);
    &&& has_members(object, 6)
    &&& named(object, "path"@) == Some(Json::Str(text))
    &&& is_count(
        named(object, "present"@),
        counting::records_matching(records, steps),
    )
    &&& is_count(named(object, "values"@), values.len())
    &&& is_tally(named(object, "types"@), counting::type_names(values))
    &&& is_count(named(object, "distinct"@), profile.counts.dom().len())
    &&& named(object, "truncated"@) == Some(Json::Bool(profile.truncated))
}

/// Whether an object says where and why a line is broken.
pub open spec fn tells_of_issue(object: Json, lines: Seq<Seq<u8>>, number: nat) -> bool {
    &&& has_members(object, 3)
    &&& is_count(named(object, "line"@), number)
    &&& 1 <= number <= lines.len()
    &&& lines::content(lines[number - 1]) matches lines::Content::Invalid { column, reason }
    &&& is_count(named(object, "column"@), column)
    &&& named(object, "reason"@) == Some(Json::Str(reason))
}

proof fn lemma_key_object(key: Entry, objects: nat)
    ensures
        ({
            let o = stats_json::key_object(key, objects);
            &&& named(o, "key"@) == Some(Json::Str(key.name))
            &&& is_count(named(o, "count"@), key.count)
            &&& is_share(named(o, "rate"@), key.count, objects)
            &&& named(o, "types"@) == Some(report::type_counts(key.types))
        }),
{
    let members = stats_json::key_object(key, objects)->Object_0;
    lemma_key_names(members);
}

proof fn lemma_key_members(
    lines: Seq<Seq<u8>>,
    paths: Seq<Seq<Step>>,
    max_errors: nat,
    i: int,
)
    requires
        0 <= i < summary::summary_of(lines, paths, max_errors).keys.len(),
    ensures
        ({
            let s = summary::summary_of(lines, paths, max_errors);
            tells_of_key(
                stats_json::key_object(s.keys[i], s.object_records),
                summary::records_of(lines),
                s.keys[i].name,
            )
        }),
{
    let s = summary::summary_of(lines, paths, max_errors);
    let records = summary::records_of(lines);
    let key = s.keys[i];
    lemma_key_object(key, s.object_records);
    counting::law_keys_are_profiled_like_fields(lines, paths, max_errors, i);
    counting::law_counters_count_lines_of_their_kind(lines, paths, max_errors);
    laws::law_keys_are_counted_once_per_object(lines, paths, max_errors);
    let values = counting::values_at(records, seq![Step::Key(key.name)]);
    law_types_are_counted_by_name(counting::type_names(values));
}

proof fn lemma_field_members(
    lines: Seq<Seq<u8>>,
    paths: Seq<Seq<Step>>,
    max_errors: nat,
    text: Seq<char>,
    i: int,
)
    requires
        0 <= i < paths.len(),
    ensures
        tells_of_field(
            stats_json::field_object(
                text,
                summary::summary_of(lines, paths, max_errors).fields[i],
            ),
            summary::records_of(lines),
            text,
            paths[i],
        ),
{
    let s = summary::summary_of(lines, paths, max_errors);
    let records = summary::records_of(lines);
    let members = stats_json::field_object(text, s.fields[i])->Object_0;
    lemma_field_names(members);
    counting::law_fields_profile_what_their_paths_select(lines, paths, max_errors, i);
    let values = counting::values_at(records, paths[i]);
    law_types_are_counted_by_name(counting::type_names(values));
}

proof fn lemma_issue_members(
    lines: Seq<Seq<u8>>,
    paths: Seq<Seq<Step>>,
    max_errors: nat,
    i: int,
)
    requires
        0 <= i < summary::summary_of(lines, paths, max_errors).issues.len(),
    ensures
        ({
            let issue = summary::summary_of(lines, paths, max_errors).issues[i];
            tells_of_issue(stats_json::issue_object(issue), lines, issue.line)
        }),
{
    let s = summary::summary_of(lines, paths, max_errors);
    let members = stats_json::issue_object(s.issues[i])->Object_0;
    lemma_issue_names(members);
    laws::law_issues_are_the_first_broken_lines(lines, paths, max_errors);
    assert(laws::is_problem_of(lines, s.issues[i]));
}

/// The JSON form of a statistics pass over lines says how many lines there are
/// of each kind and their bytes; of every top level key and of every field what
/// the paths select; and of every reported issue where and why its line is
/// broken. Keys, fields and issues are in the order of the pass.
pub proof fn law_stats_members_say_what_was_found(
    lines: Seq<Seq<u8>>,
    paths: Seq<Seq<Step>>,
    max_errors: nat,
    lengths: Seq<u64>,
    texts: Seq<Seq<char>>,
)
    requires
        texts.len() == paths.len(),
    ensures
        ({
            let s = summary::summary_of(lines, paths, max_errors);
            let records = summary::records_of(lines);
            let o = stats_json::stats_object(s, lengths, texts);
            &&& has_members(o, 10)
            &&& is_count(named(o, "lines"@), lines.len())
            &&& is_count(
                named(o, "blank"@),
                lines.filter(|line: Seq<u8>| lines::content(line) is Blank).len(),
            )
            &&& is_count(
                named(o, "valid"@),
                lines.filter(|line: Seq<u8>| lines::content(line) is Record).len(),
            )
            &&& is_count(
                named(o, "invalid"@),
                lines.filter(|line: Seq<u8>| lines::content(line) is Invalid).len(),
            )
            &&& is_count(
                named(o, "bytes"@),
                lines.filter(|line: Seq<u8>| !(lines::content(line) is Blank)).flatten().len(),
            )
            &&& is_tally(
                named(o, "top_level"@),
                counting::type_names(records),
            )
            &&& named(o, "line_length"@) == Some(stats_json::lengths_object(lengths))
            &&& tells_of_keys(named(o, "keys"@), records, table::entry_names(s.keys))
            &&& tells_of_fields(named(o, "fields"@), records, texts, paths)
            &&& tells_of_issues(named(o, "issues"@), lines, s.issues)
        }),
{
    let s = summary::summary_of(lines, paths, max_errors);
    let records = summary::records_of(lines);
    let members = stats_json::stats_object(s, lengths, texts)->Object_0;
    lemma_stats_names(members);
    counting::law_counters_count_lines_of_their_kind(lines, paths, max_errors);
    law_types_are_counted_by_name(counting::type_names(records));
    let keys = stats_json::key_array(s.keys, s.object_records)->Array_0;
    assert forall|i: int| 0 <= i < keys.len() implies tells_of_key(
        #[trigger] keys[i],
        records,
        table::entry_names(s.keys)[i],
    ) by {
        lemma_key_members(lines, paths, max_errors, i);
    }
    let fields = stats_json::field_array(texts, s.fields)->Array_0;
    assert forall|i: int| 0 <= i < fields.len() implies tells_of_field(
        #[trigger] fields[i],
        records,
        texts[i],
        paths[i],
    ) by {
        lemma_field_members(lines, paths, max_errors, texts[i], i);
    }
    let issues = stats_json::issue_array(s.issues)->Array_0;
    assert forall|i: int| 0 <= i < issues.len() implies tells_of_issue(
        #[trigger] issues[i],
        lines,
        s.issues[i].line,
    ) by {
        lemma_issue_members(lines, paths, max_errors, i);
    }
}

/// Whether a member lists keys, saying of each what profiling it finds.
pub open spec fn tells_of_keys(
    found: Option<Json>,
    records: Seq<Json>,
    names: Seq<Seq<char>>,
) -> bool {
    &&& found matches Some(Json::Array(items))
    &&& items.len() == names.len()
    &&& forall|i: int|
        0 <= i < items.len() ==> tells_of_key(#[trigger] items[i], records, names[i])
}

/// Whether a member lists fields, saying of each what its path selects.
pub open spec fn tells_of_fields(
    found: Option<Json>,
    records: Seq<Json>,
    texts: Seq<Seq<char>>,
    paths: Seq<Seq<Step>>,
) -> bool {
    &&& found matches Some(Json::Array(items))
    &&& items.len() == paths.len()
    &&& forall|i: int|
        0 <= i < items.len() ==> tells_of_field(#[trigger] items[i], records, texts[i], paths[i])
}

/// Whether a member lists issues, saying of each where and why its line is
/// broken.
pub open spec fn tells_of_issues(
    found: Option<Json>,
    lines: Seq<Seq<u8>>,
    issues: Seq<summary::Problem>,
) -> bool {
    &&& found matches Some(Json::Array(items))
    &&& items.len() == issues.len()
    &&& forall|i: int|
        0 <= i < items.len() ==> tells_of_issue(#[trigger] items[i], lines, issues[i].line)
}

proof fn lemma_path_names(members: Seq<(Seq<char>, Json)>)
    requires
        members.len() == 5,
        members[0].0 == "path"@,
        members[1].0 == "present"@,
        members[2].0 == "count"@,
        members[3].0 == "rate"@,
        members[4].0 == "types"@,
    ensures
        forall|i: int|
            0 <= i < 5 ==> json::member(members, (#[trigger] members[i]).0) == Some(
                members[i].1,
            ),
{
    reveal_strlit("path");
    reveal_strlit("present");
    reveal_strlit("count");
    reveal_strlit("rate");
    reveal_strlit("types");
    assert("path"@.len() == 4);
    assert("present"@.len() == 7);
    assert("count"@.len() == 5);
    assert("rate"@.len() == 4);
    assert("types"@.len() == 5);
    assert("path"@[0] != "rate"@[0]);
    assert("count"@[0] != "types"@[0]);
    assert forall|i: int| 0 <= i < 5 implies json::member(members, (#[trigger] members[i]).0)
        == Some(members[i].1) by {
        lemma_named(members, i);
    }
}

proof fn lemma_schema_names(members: Seq<(Seq<char>, Json)>)
    requires
        members.len() == 5,
        members[0].0 == "records"@,
        members[1].0 == "skipped"@,
        members[2].0 == "depth"@,
        members[3].0 == "truncated"@,
        members[4].0 == "paths"@,
    ensures
        forall|i: int|
            0 <= i < 5 ==> json::member(members, (#[trigger] members[i]).0) == Some(
                members[i].1,
            ),
{
    reveal_strlit("records");
    reveal_strlit("skipped");
    reveal_strlit("depth");
    reveal_strlit("truncated");
    reveal_strlit("paths");
    assert("records"@.len() == 7);
    assert("skipped"@.len() == 7);
    assert("depth"@.len() == 5);
    assert("truncated"@.len() == 9);
    assert("paths"@.len() == 5);
    assert("records"@[0] != "skipped"@[0]);
    assert("depth"@[0] != "paths"@[0]);
    assert forall|i: int| 0 <= i < 5 implies json::member(members, (#[trigger] members[i]).0)
        == Some(members[i].1) by {
        lemma_named(members, i);
    }
}

proof fn lemma_length_names(members: Seq<(Seq<char>, Json)>)
    requires
        members.len() == 6,
        members[0].0 == "min"@,
        members[1].0 == "p50"@,
        members[2].0 == "p90"@,
        members[3].0 == "p99"@,
        members[4].0 == "max"@,
        members[5].0 == "mean"@,
    ensures
        forall|i: int|
            0 <= i < 6 ==> json::member(members, (#[trigger] members[i]).0) == Some(
                members[i].1,
            ),
{
    reveal_strlit("min");
    reveal_strlit("p50");
    reveal_strlit("p90");
    reveal_strlit("p99");
    reveal_strlit("max");
    reveal_strlit("mean");
    assert("min"@.len() == 3);
    assert("p50"@.len() == 3);
    assert("p90"@.len() == 3);
    assert("p99"@.len() == 3);
    assert("max"@.len() == 3);
    assert("mean"@.len() == 4);
    assert("min"@[0] != "p50"@[0]);
    assert("min"@[0] != "p90"@[0]);
    assert("min"@[0] != "p99"@[0]);
    assert("min"@[1] != "max"@[1]);
    assert("p50"@[1] != "p90"@[1]);
    assert("p50"@[1] != "p99"@[1]);
    assert("p50"@[0] != "max"@[0]);
    assert("p90"@[2] != "p99"@[2]);
    assert("p90"@[0] != "max"@[0]);
    assert("p99"@[0] != "max"@[0]);
    assert forall|i: int| 0 <= i < 6 implies json::member(members, (#[trigger] members[i]).0)
        == Some(members[i].1) by {
        lemma_named(members, i);
    }
}

proof fn lemma_key_names(members: Seq<(Seq<char>, Json)>)
    requires
        members.len() == 4,
        members[0].0 == "key"@,
        members[1].0 == "count"@,
        members[2].0 == "rate"@,
        members[3].0 == "types"@,
    ensures
        forall|i: int|
            0 <= i < 4 ==> json::member(members, (#[trigger] members[i]).0) == Some(
                members[i].1,
            ),
{
    reveal_strlit("key");
    reveal_strlit("count");
    reveal_strlit("rate");
    reveal_strlit("types");
    assert("key"@.len() == 3);
    assert("count"@.len() == 5);
    assert("rate"@.len() == 4);
    assert("types"@.len() == 5);
    assert("count"@[0] != "types"@[0]);
    assert forall|i: int| 0 <= i < 4 implies json::member(members, (#[trigger] members[i]).0)
        == Some(members[i].1) by {
        lemma_named(members, i);
    }
}

proof fn lemma_field_names(members: Seq<(Seq<char>, Json)>)
    requires
        members.len() == 6,
        members[0].0 == "path"@,
        members[1].0 == "present"@,
        members[2].0 == "values"@,
        members[3].0 == "types"@,
        members[4].0 == "distinct"@,
        members[5].0 == "truncated"@,
    ensures
        forall|i: int|
            0 <= i < 6 ==> json::member(members, (#[trigger] members[i]).0) == Some(
                members[i].1,
            ),
{
    reveal_strlit("path");
    reveal_strlit("present");
    reveal_strlit("values");
    reveal_strlit("types");
    reveal_strlit("distinct");
    reveal_strlit("truncated");
    assert("path"@.len() == 4);
    assert("present"@.len() == 7);
    assert("values"@.len() == 6);
    assert("types"@.len() == 5);
    assert("distinct"@.len() == 8);
    assert("truncated"@.len() == 9);
    assert forall|i: int| 0 <= i < 6 implies json::member(members, (#[trigger] members[i]).0)
        == Some(members[i].1) by {
        lemma_named(members, i);
    }
}

proof fn lemma_issue_names(members: Seq<(Seq<char>, Json)>)
    requires
        members.len() == 3,
        members[0].0 == "line"@,
        members[1].0 == "column"@,
        members[2].0 == "reason"@,
    ensures
        forall|i: int|
            0 <= i < 3 ==> json::member(members, (#[trigger] members[i]).0) == Some(
                members[i].1,
            ),
{
    reveal_strlit("line");
    reveal_strlit("column");
    reveal_strlit("reason");
    assert("line"@.len() == 4);
    assert("column"@.len() == 6);
    assert("reason"@.len() == 6);
    assert("column"@[0] != "reason"@[0]);
    assert forall|i: int| 0 <= i < 3 implies json::member(members, (#[trigger] members[i]).0)
        == Some(members[i].1) by {
        lemma_named(members, i);
    }
}

proof fn lemma_stats_names(members: Seq<(Seq<char>, Json)>)
    requires
        members.len() == 10,
        members[0].0 == "lines"@,
        members[1].0 == "blank"@,
        members[2].0 == "valid"@,
        members[3].0 == "invalid"@,
        members[4].0 == "bytes"@,
        members[5].0 == "top_level"@,
        members[6].0 == "line_length"@,
        members[7].0 == "keys"@,
        members[8].0 == "fields"@,
        members[9].0 == "issues"@,
    ensures
        forall|i: int|
            0 <= i < 10 ==> json::member(members, (#[trigger] members[i]).0) == Some(
                members[i].1,
            ),
{
    reveal_strlit("lines");
    reveal_strlit("blank");
    reveal_strlit("valid");
    reveal_strlit("invalid");
    reveal_strlit("bytes");
    reveal_strlit("top_level");
    reveal_strlit("line_length");
    reveal_strlit("keys");
    reveal_strlit("fields");
    reveal_strlit("issues");
    assert("lines"@.len() == 5);
    assert("blank"@.len() == 5);
    assert("valid"@.len() == 5);
    assert("invalid"@.len() == 7);
    assert("bytes"@.len() == 5);
    assert("top_level"@.len() == 9);
    assert("line_length"@.len() == 11);
    assert("keys"@.len() == 4);
    assert("fields"@.len() == 6);
    assert("issues"@.len() == 6);
    assert("lines"@[0] != "blank"@[0]);
    assert("lines"@[0] != "valid"@[0]);
    assert("lines"@[0] != "bytes"@[0]);
    assert("blank"@[0] != "valid"@[0]);
    assert("blank"@[1] != "bytes"@[1]);
    assert("valid"@[0] != "bytes"@[0]);
    assert("fields"@[0] != "issues"@[0]);
    assert forall|i: int| 0 <= i < 10 implies json::member(members, (#[trigger] members[i]).0)
        == Some(members[i].1) by {
        lemma_named(members, i);
    }
}

} // verus!
