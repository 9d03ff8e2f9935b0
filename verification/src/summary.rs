//! What one pass over a sequence of lines finds.

use vstd::multiset::Multiset;
use vstd::prelude::*;

use crate::field;
use crate::field::Profile;
use crate::json;
use crate::json::Json;
use crate::keys;
use crate::keys::MAX_KEYS;
use crate::lines;
use crate::lines::Content;
use crate::path::Step;
use crate::table;
use crate::table::Entry;

verus! {

/// A broken line: its 1-based number, the 1-based byte column of the problem,
/// and the reason.
#[verifier::ext_equal]
pub struct Problem {
    pub line: nat,
    pub column: nat,
    pub reason: Seq<char>,
}

/// What one pass over a sequence of lines finds.
#[verifier::ext_equal]
pub struct Summary {
    /// Lines read, blank and non-blank.
    pub lines: nat,
    /// Blank lines.
    pub blank: nat,
    /// Lines that hold a record.
    pub valid: nat,
    /// Lines that are neither blank nor hold a record.
    pub invalid: nat,
    /// Bytes of all non-blank lines.
    pub bytes: nat,
    /// Records that are objects.
    pub object_records: nat,
    /// Types of the records, in first-seen order.
    pub top_level: Seq<(Seq<char>, nat)>,
    /// Lengths of the non-blank lines.
    pub lengths: Multiset<u64>,
    /// Top level keys, in first-seen order.
    pub keys: Seq<Entry>,
    /// Whether the key table is incomplete.
    pub keys_truncated: bool,
    /// The distribution of each field path.
    pub fields: Seq<Profile>,
    /// The first broken lines.
    pub issues: Seq<Problem>,
}

/// The records that lines hold, in order.
pub open spec fn records_of(lines: Seq<Seq<u8>>) -> Seq<Json>
    decreases lines.len(),
{
    if lines.len() == 0 {
        Seq::empty()
    } else {
        let before = records_of(lines.drop_last());
        match lines::content(lines.last()) {
            Content::Record(json) => before.push(json),
            _ => before,
        }
    }
}

/// The broken lines, in order.
pub open spec fn problems_of(lines: Seq<Seq<u8>>) -> Seq<Problem>
    decreases lines.len(),
{
    if lines.len() == 0 {
        Seq::empty()
    } else {
        let before = problems_of(lines.drop_last());
        match lines::content(lines.last()) {
            Content::Invalid { column, reason } => before.push(
                (Problem { line: lines.len(), column, reason }),
            ),
            _ => before,
        }
    }
}

/// How many lines are blank.
pub open spec fn blank_lines(lines: Seq<Seq<u8>>) -> nat
    decreases lines.len(),
{
    if lines.len() == 0 {
        0
    } else {
        blank_lines(lines.drop_last()) + (if lines::blank(lines.last()) {
            1nat
        } else {
            0nat
        })
    }
}

/// The lengths of the non-blank lines, in order.
pub open spec fn lengths_of(lines: Seq<Seq<u8>>) -> Seq<u64>
    decreases lines.len(),
{
    if lines.len() == 0 {
        Seq::empty()
    } else {
        let before = lengths_of(lines.drop_last());
        if lines::blank(lines.last()) {
            before
        } else {
            before.push(lines.last().len() as u64)
        }
    }
}

/// The bytes of all non-blank lines.
pub open spec fn bytes_of(lines: Seq<Seq<u8>>) -> nat
    decreases lines.len(),
{
    if lines.len() == 0 {
        0
    } else {
        bytes_of(lines.drop_last()) + (if lines::blank(lines.last()) {
            0
        } else {
            lines.last().len()
        })
    }
}

/// How many records are objects.
pub open spec fn objects_in(records: Seq<Json>) -> nat
    decreases records.len(),
{
    if records.len() == 0 {
        0
    } else {
        objects_in(records.drop_last()) + (if records.last() is Object {
            1nat
        } else {
            0nat
        })
    }
}

/// The first `cap` broken lines.
pub open spec fn first_problems(problems: Seq<Problem>, cap: nat) -> Seq<Problem> {
    problems.take(table::least(cap, problems.len()) as int)
}

/// What one pass over lines finds, given the field paths to profile and how
/// many broken lines to report.
pub open spec fn summary_of(
    lines: Seq<Seq<u8>>,
    paths: Seq<Seq<Step>>,
    max_errors: nat,
) -> Summary {
    let records = records_of(lines);
    let problems = problems_of(lines);
    let events = keys::key_events(records);
    Summary {
        lines: lines.len(),
        blank: blank_lines(lines),
        valid: records.len(),
        invalid: problems.len(),
        bytes: bytes_of(lines),
        object_records: objects_in(records),
        top_level: table::tally(field::types_in(records)),
        lengths: lengths_of(lines).to_multiset(),
        keys: table::table(events, MAX_KEYS as nat),
        keys_truncated: table::overflows(table::names_of(events), MAX_KEYS as nat),
        fields: paths.map_values(|steps: Seq<Step>| field::field_profile(records, steps)),
        issues: first_problems(problems, max_errors),
    }
}

/// What a pass has found before the first line.
pub open spec fn nothing(paths: Seq<Seq<Step>>) -> Summary {
    Summary {
        lines: 0,
        blank: 0,
        valid: 0,
        invalid: 0,
        bytes: 0,
        object_records: 0,
        top_level: Seq::empty(),
        lengths: Multiset::empty(),
        keys: Seq::empty(),
        keys_truncated: false,
        fields: paths.map_values(|steps: Seq<Step>| field::profile_of(0, Seq::empty())),
        issues: Seq::empty(),
    }
}

/// A pass over no lines finds nothing.
pub proof fn lemma_no_lines(paths: Seq<Seq<Step>>, max_errors: nat)
    ensures
        summary_of(Seq::empty(), paths, max_errors) == nothing(paths),
{
    broadcast use vstd::seq_lib::group_to_multiset_ensures;

    let none = Seq::<Json>::empty();
    let events = keys::key_events(none);
    let found = summary_of(Seq::empty(), paths, max_errors);
    assert(field::types_in(none) =~= Seq::empty());
    assert(table::names_of(events) =~= Seq::empty());
    assert(table::distinct(table::names_of(events)) =~= Seq::empty());
    assert(found.keys =~= Seq::empty());
    assert(found.lengths =~= Multiset::empty());
    assert(found.fields =~= nothing(paths).fields);
    assert(found =~= nothing(paths));
}

/// A summary after one more broken line, the last one counted.
pub open spec fn with_problem(
    summary: Summary,
    column: nat,
    reason: Seq<char>,
    max_errors: nat,
) -> Summary {
    Summary {
        invalid: summary.invalid + 1,
        issues: if summary.issues.len() < max_errors {
            summary.issues.push((Problem { line: summary.lines, column, reason }))
        } else {
            summary.issues
        },
        ..summary
    }
}

/// The distributions of field paths after one more record.
pub open spec fn fields_after(
    fields: Seq<Profile>,
    record: Json,
    paths: Seq<Seq<Step>>,
) -> Seq<Profile> {
    Seq::new(fields.len(), |i: int| field::after_record(fields[i], record, paths[i]))
}

/// A summary after one more record.
pub open spec fn with_record(summary: Summary, record: Json, paths: Seq<Seq<Step>>) -> Summary {
    let more = keys::record_keys(record);
    Summary {
        valid: summary.valid + 1,
        object_records: summary.object_records + (if record is Object {
            1nat
        } else {
            0nat
        }),
        top_level: table::bump(summary.top_level, json::type_of(record)),
        keys: table::enter_all(summary.keys, MAX_KEYS as nat, more),
        keys_truncated: summary.keys_truncated || table::spills(
            summary.keys,
            MAX_KEYS as nat,
            more,
        ),
        fields: fields_after(summary.fields, record, paths),
        ..summary
    }
}

/// A summary after one more line of `length` bytes that holds `content`.
pub open spec fn after_content(
    summary: Summary,
    content: Content,
    length: nat,
    paths: Seq<Seq<Step>>,
    max_errors: nat,
) -> Summary {
    let counted = Summary { lines: summary.lines + 1, ..summary };
    let sized = Summary {
        bytes: summary.bytes + length,
        lengths: summary.lengths.insert(length as u64),
        ..counted
    };
    match content {
        Content::Blank => Summary { blank: summary.blank + 1, ..counted },
        Content::Invalid { column, reason } => with_problem(sized, column, reason, max_errors),
        Content::Record(record) => with_record(sized, record, paths),
    }
}

/// A summary after one more line.
pub open spec fn after_line(
    summary: Summary,
    line: Seq<u8>,
    paths: Seq<Seq<Step>>,
    max_errors: nat,
) -> Summary {
    after_content(summary, lines::content(line), line.len(), paths, max_errors)
}

/// A summary after several more lines.
pub open spec fn after_lines(
    summary: Summary,
    more: Seq<Seq<u8>>,
    paths: Seq<Seq<Step>>,
    max_errors: nat,
) -> Summary
    decreases more.len(),
{
    if more.len() == 0 {
        summary
    } else {
        after_line(
            after_lines(summary, more.drop_last(), paths, max_errors),
            more.last(),
            paths,
            max_errors,
        )
    }
}

/// A pass over one more line continues where the pass over the others ended.
pub proof fn lemma_summary_push(
    lines: Seq<Seq<u8>>,
    line: Seq<u8>,
    paths: Seq<Seq<Step>>,
    max_errors: nat,
)
    ensures
        summary_of(lines.push(line), paths, max_errors) == after_line(
            summary_of(lines, paths, max_errors),
            line,
            paths,
            max_errors,
        ),
{
    broadcast use vstd::seq_lib::group_to_multiset_ensures;

    let more = lines.push(line);
    let before = summary_of(lines, paths, max_errors);
    let after = summary_of(more, paths, max_errors);
    let stepped = after_line(before, line, paths, max_errors);
    assert(more.drop_last() =~= lines);
    assert(more.last() == line);
    match lines::content(line) {
        Content::Blank => {
            assert(after =~= stepped);
        },
        Content::Invalid { column, reason } => {
            let problem = Problem { line: more.len(), column, reason };
            assert(problems_of(more) == problems_of(lines).push(problem));
            assert(after.issues =~= stepped.issues);
            assert(after.lengths =~= stepped.lengths);
            assert(after =~= stepped);
        },
        Content::Record(record) => {
            let records = records_of(lines);
            let events = keys::key_events(records);
            let found = keys::record_keys(record);
            assert(records_of(more) == records.push(record));
            assert(records.push(record).drop_last() =~= records);
            assert(field::types_in(records.push(record)) =~= field::types_in(records).push(
                json::type_of(record),
            ));
            table::lemma_tally_push(field::types_in(records), json::type_of(record));
            table::lemma_table_concat(events, MAX_KEYS as nat, found);
            assert forall|i: int| 0 <= i < paths.len() implies after.fields[i]
                == stepped.fields[i] by {
                field::lemma_field_profile_push(records, paths[i], record);
            }
            assert(after.fields =~= stepped.fields);
            assert(after.lengths =~= stepped.lengths);
            assert(after =~= stepped);
        },
    }
}

/// A pass can be made in pieces: passing over some lines and then over more
/// finds what one pass over all of them finds.
pub proof fn law_pass_continues(
    first: Seq<Seq<u8>>,
    more: Seq<Seq<u8>>,
    paths: Seq<Seq<Step>>,
    max_errors: nat,
)
    ensures
        summary_of(first + more, paths, max_errors) == after_lines(
            summary_of(first, paths, max_errors),
            more,
            paths,
            max_errors,
        ),
    decreases more.len(),
{
    if more.len() == 0 {
        assert(first + more =~= first);
    } else {
        let init = more.drop_last();
        law_pass_continues(first, init, paths, max_errors);
        lemma_summary_push(first + init, more.last(), paths, max_errors);
        assert(first + more =~= (first + init).push(more.last()));
    }
}

/// Whether the counters of a summary are bounded by the lines and bytes read.
pub open spec fn bounded(summary: Summary) -> bool {
    &&& summary.lines == summary.blank + summary.valid + summary.invalid
    &&& summary.object_records <= summary.valid
    &&& summary.issues.len() <= summary.invalid
    &&& table::tally_within(summary.top_level, summary.valid as int)
    &&& table::table_within(summary.keys, summary.bytes as int)
    &&& forall|i: int|
        0 <= i < summary.fields.len() ==> (#[trigger] summary.fields[i]).present <= summary.valid
            && field::profile_within(summary.fields[i], summary.bytes as int)
}

/// One more line leaves the counters bounded.
pub proof fn lemma_bounded_step(
    summary: Summary,
    content: Content,
    length: nat,
    paths: Seq<Seq<Step>>,
    max_errors: nat,
)
    requires
        bounded(summary),
        summary.fields.len() == paths.len(),
        content matches Content::Record(record) ==> json::nodes(record) <= length,
    ensures
        bounded(after_content(summary, content, length, paths, max_errors)),
{
    let after = after_content(summary, content, length, paths, max_errors);
    let was = summary.bytes as int;
    let now = was + length;
    assert forall|i: int| 0 <= i < summary.fields.len() implies field::profile_within(
        #[trigger] summary.fields[i],
        now,
    ) by {
        field::lemma_profile_widen(
            summary.fields[i],
            was,
            now,
        );
    }
    table::lemma_table_widen(summary.keys, was, now);
    match content {
        Content::Record(record) => {
            let found = keys::record_keys(record);
            lemma_record_keys_len(record);
            table::lemma_enter_all_within(
                summary.keys,
                MAX_KEYS as nat,
                found,
                was,
            );
            table::lemma_table_widen(
                after.keys,
                was + found.len(),
                now,
            );
            table::lemma_bump_within(
                summary.top_level,
                json::type_of(record),
                summary.valid as int,
            );
            assert forall|i: int| 0 <= i < after.fields.len() implies (
            #[trigger] after.fields[i]).present <= after.valid && field::profile_within(
                after.fields[i],
                after.bytes as int,
            ) by {
                let profile = summary.fields[i];
                assert(profile.present <= summary.valid);
                field::lemma_after_record_within(
                    profile,
                    record,
                    paths[i],
                    was,
                );
                field::lemma_profile_widen(
                    after.fields[i],
                    was + json::nodes(record),
                    now,
                );
            }
        },
        _ => {},
    }
}

/// A record contributes fewer key occurrences than it has values.
pub proof fn lemma_record_keys_len(record: Json)
    ensures
        keys::record_keys(record).len() < json::nodes(record),
{
    if let Json::Object(members) = record {
        keys::lemma_fresh_len(members);
        json::lemma_member_nodes_len(members);
    }
}

} // verus!
