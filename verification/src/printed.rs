//! What the lines and figures of the human readable reports say.

use vstd::prelude::*;

use crate::counting;
use crate::field;
use crate::field::Profile;
use crate::hist;
use crate::json::Json;
use crate::laws;
use crate::lines;
use crate::path::Step;
use crate::ratio;
use crate::report;
use crate::report::Glyph;
use crate::schema;
use crate::schema_report;
use crate::stats_report;
use crate::summary;
use crate::summary::Problem;
use crate::summary::Summary;
use crate::table;
use crate::table::Entry;
use crate::text;
use crate::walk::PathEntry;

verus! {

/// The figures of a report, in order.
pub open spec fn figures_of(report: Seq<Glyph>) -> Seq<Glyph> {
    report.filter(|glyph: Glyph| glyph is Figure)
}

/// The figure for a part of a whole, in percent, which is zero if there is no
/// whole.
pub open spec fn percentage(part: nat, whole: nat, width: nat) -> Glyph {
    if whole == 0 {
        Glyph::Figure { part: 0, whole: 1, percent: true, width }
    } else {
        Glyph::Figure { part, whole, percent: true, width }
    }
}

proof fn lemma_no_figures(s: Seq<char>)
    ensures
        figures_of(report::glyphs(s)) == Seq::<Glyph>::empty(),
    decreases s.len(),
{
    reveal(Seq::filter);
    if s.len() > 0 {
        lemma_no_figures(s.drop_last());
        assert(report::glyphs(s).drop_last() =~= report::glyphs(s.drop_last()));
    }
}

proof fn lemma_one_figure(one: Glyph)
    requires
        one is Figure,
    ensures
        figures_of(seq![one]) == seq![one],
{
    reveal(Seq::filter);
    assert(seq![one].drop_last() =~= Seq::empty());
    assert(figures_of(seq![one].drop_last()) =~= Seq::empty());
    assert(figures_of(seq![one]) =~= seq![one]);
}

proof fn lemma_figures(a: Seq<Glyph>, b: Seq<Glyph>)
    ensures
        figures_of(a + b) == figures_of(a) + figures_of(b),
{
    Seq::filter_distributes_over_add(a, b, |glyph: Glyph| glyph is Figure);
}

/// A passage of text, a figure, and text again.
pub open spec fn around(before: Seq<char>, figure: Glyph, after: Seq<char>) -> Seq<Glyph> {
    report::glyphs(before) + seq![figure] + report::glyphs(after)
}

proof fn lemma_around(before: Seq<char>, figure: Glyph, after: Seq<char>)
    requires
        figure is Figure,
    ensures
        figures_of(around(before, figure, after)) == seq![figure],
{
    lemma_no_figures(before);
    lemma_no_figures(after);
    lemma_one_figure(figure);
    lemma_figures(report::glyphs(before) + seq![figure], report::glyphs(after));
    lemma_figures(report::glyphs(before), seq![figure]);
    assert(figures_of(around(before, figure, after)) =~= seq![figure]);
}

proof fn lemma_glyphs_three(a: Seq<char>, b: Seq<char>, c: Seq<char>)
    ensures
        report::glyphs(a + b + c) == report::glyphs(a) + report::glyphs(b) + report::glyphs(c),
{
    report::lemma_glyphs(a + b, c);
    report::lemma_glyphs(a, b);
}

proof fn lemma_glyphs_five(a: Seq<char>, b: Seq<char>, c: Seq<char>, d: Seq<char>, e: Seq<char>)
    ensures
        report::glyphs(a + b + c + d + e) == report::glyphs(a) + report::glyphs(b)
            + report::glyphs(c) + report::glyphs(d) + report::glyphs(e),
{
    lemma_glyphs_three(a + b + c, d, e);
    lemma_glyphs_three(a, b, c);
}

/// The line for a top level key names the key, counts the objects that have it,
/// and shows which part of all objects they are and the types of its values.
pub proof fn law_key_line_shows_the_share_of_objects(
    lines: Seq<Seq<u8>>,
    paths: Seq<Seq<Step>>,
    max_errors: nat,
    i: int,
)
    requires
        0 <= i < summary::summary_of(lines, paths, max_errors).keys.len(),
    ensures
        ({
            let s = summary::summary_of(lines, paths, max_errors);
            let records = summary::records_of(lines);
            let name = s.keys[i].name;
            let values = counting::values_at(records, seq![Step::Key(name)]);
            &&& values.len() <= counting::object_records(records)
            &&& stats_report::key_line(s.keys[i], s.object_records) == around(
                "  "@ + report::left(name, 28) + " "@ + report::right(
                    text::grouped(values.len()),
                    8,
                ) + "  "@,
                percentage(values.len(), counting::object_records(records), 5),
                "%  "@ + report::type_list(
                    table::tally(counting::type_names(values)),
                    true,
                ) + "\n"@,
            )
        }),
{
    let s = summary::summary_of(lines, paths, max_errors);
    let records = summary::records_of(lines);
    let key = s.keys[i];
    counting::law_keys_are_profiled_like_fields(lines, paths, max_errors, i);
    counting::law_counters_count_lines_of_their_kind(lines, paths, max_errors);
    laws::law_keys_are_counted_once_per_object(lines, paths, max_errors);
    assert(1 <= key.count <= s.object_records);
    lemma_key_line(key, s.object_records);
}

proof fn lemma_key_line(key: Entry, objects: nat)
    ensures
        stats_report::key_line(key, objects) == around(
            "  "@ + report::left(key.name, 28) + " "@ + report::right(
                text::grouped(key.count),
                8,
            ) + "  "@,
            percentage(key.count, objects, 5),
            "%  "@ + report::type_list(key.types, true) + "\n"@,
        ),
{
    lemma_glyphs_five(
        "  "@,
        report::left(key.name, 28),
        " "@,
        report::right(text::grouped(key.count), 8),
        "  "@,
    );
    lemma_glyphs_three("%  "@, report::type_list(key.types, true), "\n"@);
    assert(stats_report::key_line(key, objects) =~= around(
        "  "@ + report::left(key.name, 28) + " "@ + report::right(text::grouped(key.count), 8)
            + "  "@,
        percentage(key.count, objects, 5),
        "%  "@ + report::type_list(key.types, true) + "\n"@,
    ));
}

/// The line for a value of a field counts it, shows which part of all values of
/// the field that is, and gives the value.
pub proof fn law_value_line_shows_the_share_of_values(one: (Seq<char>, nat), values: nat)
    ensures
        stats_report::value_line(one, values) == around(
            "  "@ + report::right(text::grouped(one.1), 8) + "  "@,
            percentage(one.1, values, 0),
            "%  "@ + one.0 + "\n"@,
        ),
{
    lemma_glyphs_three("  "@, report::right(text::grouped(one.1), 8), "  "@);
    lemma_glyphs_three("%  "@, one.0, "\n"@);
    assert(stats_report::value_line(one, values) =~= around(
        "  "@ + report::right(text::grouped(one.1), 8) + "  "@,
        percentage(one.1, values, 0),
        "%  "@ + one.0 + "\n"@,
    ));
}

/// What a field section says before its value lines.
pub open spec fn field_head(path: Seq<char>, present: nat, valid: nat) -> Seq<char> {
    "\nfield "@ + path + "\n  present in "@ + text::grouped(present) + " of "@ + text::grouped(
        valid,
    ) + " records ("@
}

/// What a field section says after its figure and before its value lines.
pub open spec fn field_tail(
    values: nat,
    types: Seq<(Seq<char>, nat)>,
    distinct: nat,
    truncated: bool,
) -> Seq<char> {
    "%), "@ + text::grouped(values) + " values, types "@ + report::type_list(types, true)
        + "\n  "@ + text::decimal(distinct) + " distinct values"@ + (if truncated {
        " (truncated)\n"@
    } else {
        "\n"@
    })
}

proof fn lemma_field_section(path: Seq<char>, profile: Profile, valid: nat, top: nat)
    ensures
        stats_report::field_section(path, profile, valid, top) == around(
            field_head(path, profile.present, valid),
            percentage(profile.present, valid, 0),
            field_tail(
                profile.values,
                profile.types,
                profile.counts.dom().len(),
                profile.truncated,
            ),
        ) + stats_report::value_lines(
            stats_report::top_of(profile.counts, top),
            profile.values,
        ),
{
    let end = if profile.truncated {
        " (truncated)\n"@
    } else {
        "\n"@
    };
    let a = "\nfield "@ + path + "\n  present in "@ + text::grouped(profile.present) + " of "@;
    lemma_glyphs_five(
        "\nfield "@,
        path,
        "\n  present in "@,
        text::grouped(profile.present),
        " of "@,
    );
    lemma_glyphs_three(a, text::grouped(valid), " records ("@);
    let b = "%), "@ + text::grouped(profile.values) + " values, types "@ + report::type_list(
        profile.types,
        true,
    ) + "\n  "@;
    let count = text::decimal(profile.counts.dom().len());
    lemma_glyphs_five(
        "%), "@,
        text::grouped(profile.values),
        " values, types "@,
        report::type_list(profile.types, true),
        "\n  "@,
    );
    lemma_glyphs_three(b, count, " distinct values"@);
    report::lemma_glyphs(b + count + " distinct values"@, end);
    assert(stats_report::field_section(path, profile, valid, top) =~= around(
        field_head(path, profile.present, valid),
        percentage(profile.present, valid, 0),
        field_tail(
            profile.values,
            profile.types,
            profile.counts.dom().len(),
            profile.truncated,
        ),
    ) + stats_report::value_lines(stats_report::top_of(profile.counts, top), profile.values));
}

/// The section of a field says in how many records its path selects something,
/// and shows which part of all records they are: between `records (` and `%)`
/// stands that number of records over the number of all, which never exceeds
/// one. Then it says how many values the path selects, and of which types. The
/// lines of its most common values follow.
pub proof fn law_field_section_shows_the_share_of_records(
    lines: Seq<Seq<u8>>,
    paths: Seq<Seq<Step>>,
    max_errors: nat,
    text: Seq<char>,
    top: nat,
    i: int,
)
    requires
        0 <= i < paths.len(),
    ensures
        ({
            let s = summary::summary_of(lines, paths, max_errors);
            let records = summary::records_of(lines);
            let present = counting::records_matching(records, paths[i]);
            let values = counting::values_at(records, paths[i]);
            &&& present <= records.len()
            &&& stats_report::field_section(text, s.fields[i], s.valid, top) == around(
                field_head(text, present, records.len()),
                percentage(present, records.len(), 0),
                field_tail(
                    values.len(),
                    table::tally(counting::type_names(values)),
                    s.fields[i].counts.dom().len(),
                    s.fields[i].truncated,
                ),
            ) + stats_report::value_lines(
                stats_report::top_of(s.fields[i].counts, top),
                values.len(),
            )
        }),
{
    let s = summary::summary_of(lines, paths, max_errors);
    counting::law_fields_profile_what_their_paths_select(lines, paths, max_errors, i);
    laws::law_field_counters(lines, paths, max_errors);
    lemma_field_section(text, s.fields[i], s.valid, top);
}

/// A share of no records is printed as zero.
pub proof fn law_no_records_make_no_share(part: nat, whole: nat)
    ensures
        whole > 0 ==> ratio::share(part, whole) == (part, whole),
        whole == 0 ==> ratio::share(part, whole).0 == 0 && ratio::share(part, whole).1 > 0,
        part <= whole ==> ratio::share(part, whole).0 <= ratio::share(part, whole).1,
{
}

proof fn lemma_value_lines(
    a: Seq<(Seq<char>, nat)>,
    b: Seq<(Seq<char>, nat)>,
    values: nat,
)
    ensures
        stats_report::value_lines(a + b, values) == stats_report::value_lines(a, values)
            + stats_report::value_lines(b, values),
    decreases b.len(),
{
    if b.len() == 0 {
        assert(a + b =~= a);
        assert(stats_report::value_lines(a, values) + stats_report::value_lines(b, values)
            =~= stats_report::value_lines(a, values));
    } else {
        assert((a + b).drop_last() =~= a + b.drop_last());
        lemma_value_lines(a, b.drop_last(), values);
        assert(stats_report::value_lines(a + b, values) =~= stats_report::value_lines(a, values)
            + stats_report::value_lines(b, values));
    }
}

proof fn lemma_key_lines(a: Seq<Entry>, b: Seq<Entry>, objects: nat)
    ensures
        stats_report::key_lines(a + b, objects) == stats_report::key_lines(a, objects)
            + stats_report::key_lines(b, objects),
    decreases b.len(),
{
    if b.len() == 0 {
        assert(a + b =~= a);
        assert(stats_report::key_lines(a, objects) + stats_report::key_lines(b, objects)
            =~= stats_report::key_lines(a, objects));
    } else {
        assert((a + b).drop_last() =~= a + b.drop_last());
        lemma_key_lines(a, b.drop_last(), objects);
        assert(stats_report::key_lines(a + b, objects) =~= stats_report::key_lines(a, objects)
            + stats_report::key_lines(b, objects));
    }
}

proof fn lemma_issue_lines(a: Seq<Problem>, b: Seq<Problem>)
    ensures
        stats_report::issue_lines(a + b) == stats_report::issue_lines(a)
            + stats_report::issue_lines(b),
    decreases b.len(),
{
    if b.len() == 0 {
        assert(a + b =~= a);
        assert(stats_report::issue_lines(a) + stats_report::issue_lines(b)
            =~= stats_report::issue_lines(a));
    } else {
        assert((a + b).drop_last() =~= a + b.drop_last());
        lemma_issue_lines(a, b.drop_last());
        assert(stats_report::issue_lines(a + b) =~= stats_report::issue_lines(a)
            + stats_report::issue_lines(b));
    }
}

proof fn lemma_path_lines(a: Seq<PathEntry>, b: Seq<PathEntry>, records: nat)
    ensures
        schema_report::path_lines(a + b, records) == schema_report::path_lines(a, records)
            + schema_report::path_lines(b, records),
    decreases b.len(),
{
    if b.len() == 0 {
        assert(a + b =~= a);
        assert(schema_report::path_lines(a, records) + schema_report::path_lines(b, records)
            =~= schema_report::path_lines(a, records));
    } else {
        assert((a + b).drop_last() =~= a + b.drop_last());
        lemma_path_lines(a, b.drop_last(), records);
        assert(schema_report::path_lines(a + b, records) =~= schema_report::path_lines(
            a,
            records,
        ) + schema_report::path_lines(b, records));
    }
}

/// Lists have one line after the other: what is listed first has its lines
/// first, and one thing has one line.
pub proof fn law_lists_have_one_line_after_the_other(
    keys: (Seq<Entry>, Seq<Entry>),
    values: (Seq<(Seq<char>, nat)>, Seq<(Seq<char>, nat)>),
    issues: (Seq<Problem>, Seq<Problem>),
    paths: (Seq<PathEntry>, Seq<PathEntry>),
    key: Entry,
    value: (Seq<char>, nat),
    issue: Problem,
    path: PathEntry,
    n: nat,
)
    ensures
        stats_report::key_lines(keys.0 + keys.1, n) == stats_report::key_lines(keys.0, n)
            + stats_report::key_lines(keys.1, n),
        stats_report::key_lines(seq![key], n) == stats_report::key_line(key, n),
        stats_report::key_lines(Seq::empty(), n).len() == 0,
        stats_report::value_lines(values.0 + values.1, n) == stats_report::value_lines(
            values.0,
            n,
        ) + stats_report::value_lines(values.1, n),
        stats_report::value_lines(seq![value], n) == stats_report::value_line(value, n),
        stats_report::value_lines(Seq::empty(), n).len() == 0,
        stats_report::issue_lines(issues.0 + issues.1) == stats_report::issue_lines(issues.0)
            + stats_report::issue_lines(issues.1),
        stats_report::issue_lines(seq![issue]) == stats_report::issue_line(issue),
        stats_report::issue_lines(Seq::empty()).len() == 0,
        schema_report::path_lines(paths.0 + paths.1, n) == schema_report::path_lines(paths.0, n)
            + schema_report::path_lines(paths.1, n),
        schema_report::path_lines(seq![path], n) == schema_report::path_line(path, n),
        schema_report::path_lines(Seq::empty(), n).len() == 0,
{
    lemma_key_lines(keys.0, keys.1, n);
    lemma_value_lines(values.0, values.1, n);
    lemma_issue_lines(issues.0, issues.1);
    lemma_path_lines(paths.0, paths.1, n);
    let none = Seq::<Glyph>::empty();
    assert(seq![key].drop_last() =~= Seq::empty());
    assert(stats_report::key_lines(seq![key].drop_last(), n) =~= none);
    assert(stats_report::key_lines(seq![key], n) =~= stats_report::key_line(key, n));
    assert(seq![value].drop_last() =~= Seq::empty());
    assert(stats_report::value_lines(seq![value].drop_last(), n) =~= none);
    assert(stats_report::value_lines(seq![value], n) =~= stats_report::value_line(value, n));
    assert(seq![issue].drop_last() =~= Seq::empty());
    assert(stats_report::issue_lines(seq![issue].drop_last()) =~= none);
    assert(stats_report::issue_lines(seq![issue]) =~= stats_report::issue_line(issue));
    assert(seq![path].drop_last() =~= Seq::empty());
    assert(schema_report::path_lines(seq![path].drop_last(), n) =~= none);
    assert(schema_report::path_lines(seq![path], n) =~= schema_report::path_line(path, n));
}

/// The line for a reported issue gives the number of its line, the column and
/// the reason of what is wrong there.
pub proof fn law_issue_line_says_where_and_why(
    lines: Seq<Seq<u8>>,
    paths: Seq<Seq<Step>>,
    max_errors: nat,
    i: int,
)
    requires
        0 <= i < summary::summary_of(lines, paths, max_errors).issues.len(),
    ensures
        ({
            let issue = summary::summary_of(lines, paths, max_errors).issues[i];
            &&& 1 <= issue.line <= lines.len()
            &&& lines::content(lines[issue.line - 1]) matches lines::Content::Invalid {
                column,
                reason,
            }
            &&& stats_report::issue_line(issue) == report::glyphs(
                "  line "@ + text::decimal(issue.line) + " col "@ + text::decimal(column) + ": "@
                    + reason + "\n"@,
            )
        }),
{
    laws::law_issues_are_the_first_broken_lines(lines, paths, max_errors);
    let issue = summary::summary_of(lines, paths, max_errors).issues[i];
    assert(laws::is_problem_of(lines, issue));
    let a = "  line "@ + text::decimal(issue.line) + " col "@ + text::decimal(issue.column)
        + ": "@;
    lemma_glyphs_five(
        "  line "@,
        text::decimal(issue.line),
        " col "@,
        text::decimal(issue.column),
        ": "@,
    );
    lemma_glyphs_three(a, issue.reason, "\n"@);
}

/// The line for a path of a schema names it, and shows which part of all
/// records has it, which never exceeds one, and the types found there.
pub proof fn law_path_line_shows_the_share_of_records(
    lines: Seq<Seq<u8>>,
    depth: nat,
    i: int,
)
    requires
        0 <= i < schema::outline_of(lines, depth).paths.len(),
    ensures
        ({
            let found = schema::outline_of(lines, depth);
            let records = summary::records_of(lines);
            let p = found.paths[i];
            let present = counting::records_with(records, depth, p.path);
            &&& 0 < present <= records.len()
            &&& schema_report::path_line(p, found.records) == around(
                "  "@ + report::left(p.path, 30) + " "@,
                percentage(present, records.len(), 5),
                "%  "@ + report::type_list(
                    table::tally(counting::types_at(records, depth, p.path)),
                    false,
                ) + "\n"@,
            )
        }),
{
    let found = schema::outline_of(lines, depth);
    let records = summary::records_of(lines);
    let p = found.paths[i];
    counting::law_path_table_counts_records_and_values(lines, depth);
    laws::law_path_counters(records, depth);
    assert(1 <= p.present <= records.len());
    lemma_glyphs_three("  "@, report::left(p.path, 30), " "@);
    lemma_glyphs_three("%  "@, report::type_list(p.types, false), "\n"@);
    assert(schema_report::path_line(p, found.records) =~= around(
        "  "@ + report::left(p.path, 30) + " "@,
        percentage(p.present, records.len(), 5),
        "%  "@ + report::type_list(p.types, false) + "\n"@,
    ));
}

/// The head of a report labels the numbers of lines of each kind and the bytes
/// of those that are not blank, shows the bytes in units of 1024, and lists the
/// types of the records.
pub proof fn law_header_counts_lines_of_each_kind(
    lines: Seq<Seq<u8>>,
    paths: Seq<Seq<Step>>,
    max_errors: nat,
    source: Seq<char>,
)
    ensures
        ({
            let records = summary::records_of(lines);
            let blank = lines.filter(|line: Seq<u8>| lines::content(line) is Blank).len();
            let invalid = lines.filter(|line: Seq<u8>| lines::content(line) is Invalid).len();
            let valid = lines.filter(|line: Seq<u8>| lines::content(line) is Record).len();
            let bytes = lines.filter(
                |line: Seq<u8>| !(lines::content(line) is Blank),
            ).flatten().len();
            stats_report::header(summary::summary_of(lines, paths, max_errors), source) == around(
                "file    "@ + source + "\nlines   "@ + text::grouped(lines.len()) + "   blank "@
                    + text::decimal(blank) + "   invalid "@ + text::decimal(invalid)
                    + "   valid "@ + text::grouped(valid) + "\nbytes   "@ + text::grouped(bytes)
                    + "   ("@,
                Glyph::Figure { part: bytes, whole: 1024, percent: false, width: 0 },
                " KiB)\ntop level  "@ + report::type_list(
                    table::tally(counting::type_names(records)),
                    true,
                ) + "\n\n"@,
            )
        }),
{
    counting::law_counters_count_lines_of_their_kind(lines, paths, max_errors);
    lemma_header(summary::summary_of(lines, paths, max_errors), source);
}

proof fn lemma_header(s: Summary, source: Seq<char>)
    ensures
        stats_report::header(s, source) == around(
            "file    "@ + source + "\nlines   "@ + text::grouped(s.lines) + "   blank "@
                + text::decimal(s.blank) + "   invalid "@ + text::decimal(s.invalid)
                + "   valid "@ + text::grouped(s.valid) + "\nbytes   "@ + text::grouped(s.bytes)
                + "   ("@,
            Glyph::Figure { part: s.bytes, whole: 1024, percent: false, width: 0 },
            " KiB)\ntop level  "@ + report::type_list(s.top_level, true) + "\n\n"@,
        ),
{
    let a = "file    "@ + source + "\nlines   "@ + text::grouped(s.lines) + "   blank "@;
    lemma_glyphs_five(
        "file    "@,
        source,
        "\nlines   "@,
        text::grouped(s.lines),
        "   blank "@,
    );
    let b = a + text::decimal(s.blank) + "   invalid "@ + text::decimal(s.invalid)
        + "   valid "@;
    lemma_glyphs_five(
        a,
        text::decimal(s.blank),
        "   invalid "@,
        text::decimal(s.invalid),
        "   valid "@,
    );
    lemma_glyphs_five(
        b,
        text::grouped(s.valid),
        "\nbytes   "@,
        text::grouped(s.bytes),
        "   ("@,
    );
    lemma_glyphs_three(
        " KiB)\ntop level  "@,
        report::type_list(s.top_level, true),
        "\n\n"@,
    );
    assert(stats_report::header(s, source) =~= around(
        b + text::grouped(s.valid) + "\nbytes   "@ + text::grouped(s.bytes) + "   ("@,
        Glyph::Figure { part: s.bytes, whole: 1024, percent: false, width: 0 },
        " KiB)\ntop level  "@ + report::type_list(s.top_level, true) + "\n\n"@,
    ));
}

/// The section on line lengths, given what it labels.
pub open spec fn length_lines(
    min: nat,
    p50: nat,
    p90: nat,
    p99: nat,
    max: nat,
    mean: (nat, nat),
) -> Seq<Glyph> {
    around(
        "line length in bytes\n  min "@ + text::decimal(min) + "   p50 "@ + text::decimal(p50)
            + "   p90 "@ + text::decimal(p90) + "   p99 "@ + text::decimal(p99) + "   max "@
            + text::decimal(max) + "   mean "@,
        Glyph::Figure { part: mean.0, whole: mean.1, percent: false, width: 0 },
        "\n\n"@,
    )
}

/// Without lines there is nothing to measure: every length is printed as zero,
/// and so is the mean.
pub proof fn law_no_lengths_are_printed_as_zero(lengths: Seq<u64>)
    requires
        lengths.len() == 0,
    ensures
        stats_report::length_section(lengths) == length_lines(0, 0, 0, 0, 0, (0, 1)),
{
    lemma_length_section(lengths);
}

/// The section on line lengths labels the smallest and the largest length and
/// the quantiles at 50, 90 and 99 percent, and shows the mean: the sum of all
/// lengths over their number.
pub proof fn law_length_section_describes_the_lengths(lengths: Seq<u64>)
    requires
        hist::ascending(lengths),
        lengths.len() > 0,
    ensures
        exists|p50: u64, p90: u64, p99: u64|
            #![trigger hist::is_quantile(lengths, 50, p50), hist::is_quantile(
                lengths,
                90,
                p90,
            ), hist::is_quantile(lengths, 99, p99)]
            hist::is_quantile(lengths, 50, p50) && hist::is_quantile(lengths, 90, p90)
                && hist::is_quantile(lengths, 99, p99) && stats_report::length_section(lengths)
                == length_lines(
                lengths.first() as nat,
                p50 as nat,
                p90 as nat,
                p99 as nat,
                lengths.last() as nat,
                (hist::total(lengths), lengths.len()),
            ),
{
    hist::law_quantiles(lengths, 50, 90);
    hist::law_quantiles(lengths, 90, 99);
    hist::law_quantile_is_the_smallest_that_covers(lengths, 50);
    hist::law_quantile_is_the_smallest_that_covers(lengths, 90);
    hist::law_quantile_is_the_smallest_that_covers(lengths, 99);
    let p50 = lengths[hist::rank(lengths.len(), 50) - 1];
    let p90 = lengths[hist::rank(lengths.len(), 90) - 1];
    let p99 = lengths[hist::rank(lengths.len(), 99) - 1];
    assert(hist::is_quantile(lengths, 50, p50) && hist::is_quantile(lengths, 90, p90)
        && hist::is_quantile(lengths, 99, p99));
    lemma_length_section(lengths);
}

proof fn lemma_length_section(lengths: Seq<u64>)
    ensures
        stats_report::length_section(lengths) == length_lines(
            stats_report::smallest(lengths),
            stats_report::quantile(lengths, 50),
            stats_report::quantile(lengths, 90),
            stats_report::quantile(lengths, 99),
            stats_report::largest(lengths),
            stats_report::mean(lengths),
        ),
{
    let min = text::decimal(stats_report::smallest(lengths));
    let p50 = text::decimal(stats_report::quantile(lengths, 50));
    let p90 = text::decimal(stats_report::quantile(lengths, 90));
    let p99 = text::decimal(stats_report::quantile(lengths, 99));
    let max = text::decimal(stats_report::largest(lengths));
    let a = "line length in bytes\n  min "@ + min + "   p50 "@ + p50 + "   p90 "@;
    lemma_glyphs_five("line length in bytes\n  min "@, min, "   p50 "@, p50, "   p90 "@);
    let b = a + p90 + "   p99 "@ + p99 + "   max "@;
    lemma_glyphs_five(a, p90, "   p99 "@, p99, "   max "@);
    lemma_glyphs_three(b, max, "   mean "@);
    let mean = stats_report::mean(lengths);
    assert(stats_report::length_section(lengths) =~= around(
        b + max + "   mean "@,
        Glyph::Figure { part: mean.0, whole: mean.1, percent: false, width: 0 },
        "\n\n"@,
    ));
}

/// The section on top level keys says how many records are objects and has a
/// line for each key listed. It ends with a note exactly if the records have
/// more than 512 different keys.
pub proof fn law_key_section_lists_the_keys(
    lines: Seq<Seq<u8>>,
    paths: Seq<Seq<Step>>,
    max_errors: nat,
)
    ensures
        ({
            let s = summary::summary_of(lines, paths, max_errors);
            let records = summary::records_of(lines);
            let all = table::distinct(
                records.map_values(|record: Json| counting::member_names(record)).flatten(),
            );
            let objects = counting::object_records(records);
            stats_report::key_section(s) == report::glyphs(
                "top level keys over "@ + text::grouped(objects)
                    + " objects\n  key                          count     rate  types\n"@,
            ) + stats_report::key_lines(s.keys, objects) + (if all.len() > 512 {
                report::glyphs(
                    "  ... key table truncated at "@ + text::decimal(512) + " keys\n"@,
                )
            } else {
                Seq::empty()
            })
        }),
{
    let s = summary::summary_of(lines, paths, max_errors);
    counting::law_counters_count_lines_of_their_kind(lines, paths, max_errors);
    counting::law_key_table_lists_the_keys_seen_first(lines, paths, max_errors);
    lemma_glyphs_three(
        "top level keys over "@,
        text::grouped(s.object_records),
        " objects\n  key                          count     rate  types\n"@,
    );
    lemma_glyphs_three("  ... key table truncated at "@, text::decimal(512), " keys\n"@);
    let head = report::glyphs(
        "top level keys over "@ + text::grouped(s.object_records)
            + " objects\n  key                          count     rate  types\n"@,
    );
    let note = report::glyphs("  ... key table truncated at "@ + text::decimal(512) + " keys\n"@);
    let keys = stats_report::key_lines(s.keys, s.object_records);
    if s.keys_truncated {
        assert(stats_report::key_section(s) =~= head + keys + note);
    } else {
        assert(stats_report::key_section(s) =~= head + keys + Seq::empty());
    }
}

/// The section on broken lines says how many there are and how many of them it
/// shows, and has a line for each that it shows. There is no such section
/// exactly if no line is broken.
pub proof fn law_issue_section_counts_the_broken_lines(
    lines: Seq<Seq<u8>>,
    paths: Seq<Seq<Step>>,
    max_errors: nat,
)
    ensures
        ({
            let s = summary::summary_of(lines, paths, max_errors);
            let invalid = lines.filter(|line: Seq<u8>| lines::content(line) is Invalid).len();
            let shown = if invalid < max_errors {
                invalid
            } else {
                max_errors
            };
            &&& invalid == 0 ==> stats_report::issue_section(s).len() == 0
            &&& invalid > 0 ==> stats_report::issue_section(s) == report::glyphs(
                "\ninvalid lines ("@ + text::decimal(invalid) + " total, showing "@
                    + text::decimal(shown) + ")\n"@,
            ) + stats_report::issue_lines(s.issues)
            &&& s.issues.len() == shown
        }),
{
    let s = summary::summary_of(lines, paths, max_errors);
    counting::law_counters_count_lines_of_their_kind(lines, paths, max_errors);
    laws::law_issues_are_the_first_broken_lines(lines, paths, max_errors);
    lemma_glyphs_five(
        "\ninvalid lines ("@,
        text::decimal(s.invalid),
        " total, showing "@,
        text::decimal(s.issues.len()),
        ")\n"@,
    );
}

proof fn lemma_field_sections(
    texts: (Seq<Seq<char>>, Seq<Seq<char>>),
    profiles: (Seq<Profile>, Seq<Profile>),
    valid: nat,
    top: nat,
)
    requires
        texts.0.len() == profiles.0.len(),
        texts.1.len() == profiles.1.len(),
    ensures
        stats_report::field_sections(texts.0 + texts.1, profiles.0 + profiles.1, valid, top)
            == stats_report::field_sections(texts.0, profiles.0, valid, top)
            + stats_report::field_sections(texts.1, profiles.1, valid, top),
    decreases profiles.1.len(),
{
    let whole = stats_report::field_sections(
        texts.0 + texts.1,
        profiles.0 + profiles.1,
        valid,
        top,
    );
    let first = stats_report::field_sections(texts.0, profiles.0, valid, top);
    let second = stats_report::field_sections(texts.1, profiles.1, valid, top);
    if profiles.1.len() == 0 {
        assert(texts.0 + texts.1 =~= texts.0);
        assert(profiles.0 + profiles.1 =~= profiles.0);
        assert(whole =~= first + second);
    } else {
        assert((texts.0 + texts.1).drop_last() =~= texts.0 + texts.1.drop_last());
        assert((profiles.0 + profiles.1).drop_last() =~= profiles.0 + profiles.1.drop_last());
        lemma_field_sections(
            (texts.0, texts.1.drop_last()),
            (profiles.0, profiles.1.drop_last()),
            valid,
            top,
        );
        assert(whole =~= first + second);
    }
}

/// The sections of fields follow one another in the order of the fields.
pub proof fn law_field_sections_are_in_order(
    texts: (Seq<Seq<char>>, Seq<Seq<char>>),
    profiles: (Seq<Profile>, Seq<Profile>),
    text: Seq<char>,
    profile: Profile,
    valid: nat,
    top: nat,
)
    requires
        texts.0.len() == profiles.0.len(),
        texts.1.len() == profiles.1.len(),
    ensures
        stats_report::field_sections(texts.0 + texts.1, profiles.0 + profiles.1, valid, top)
            == stats_report::field_sections(texts.0, profiles.0, valid, top)
            + stats_report::field_sections(texts.1, profiles.1, valid, top),
        stats_report::field_sections(seq![text], seq![profile], valid, top)
            == stats_report::field_section(text, profile, valid, top),
        stats_report::field_sections(Seq::empty(), Seq::empty(), valid, top).len() == 0,
{
    lemma_field_sections(texts, profiles, valid, top);
    let one = seq![profile];
    assert(one.drop_last() =~= Seq::empty());
    assert(seq![text].drop_last() =~= Seq::empty());
    assert(stats_report::field_sections(
        seq![text].drop_last(),
        one.drop_last(),
        valid,
        top,
    ) =~= Seq::empty());
    assert(stats_report::field_sections(seq![text], one, valid, top)
        =~= stats_report::field_section(text, profile, valid, top));
}

/// A report starts with its head, ends with the section on broken lines, and
/// between them has the section on line lengths, that on keys, and those on
/// fields.
pub proof fn law_report_has_all_sections(
    s: Summary,
    lengths: Seq<u64>,
    texts: Seq<Seq<char>>,
    source: Seq<char>,
    top: nat,
)
    ensures
        ({
            let report = stats_report::stats_report(s, lengths, texts, source, top);
            let head = stats_report::header(s, source);
            let sizes = stats_report::length_section(lengths);
            let keys = stats_report::key_section(s);
            let fields = stats_report::field_sections(texts, s.fields, s.valid, top);
            let issues = stats_report::issue_section(s);
            let (a, b, c) = (
                head.len() as int,
                (head.len() + sizes.len()) as int,
                (head.len() + sizes.len() + keys.len()) as int,
            );
            let d = c + fields.len();
            &&& report.len() == d + issues.len()
            &&& report.subrange(0, a) == head
            &&& report.subrange(a, b) == sizes
            &&& report.subrange(b, c) == keys
            &&& report.subrange(c, d) == fields
            &&& report.subrange(d, report.len() as int) == issues
        }),
{
}

proof fn lemma_value_figures(top: Seq<(Seq<char>, nat)>, values: nat)
    ensures
        figures_of(stats_report::value_lines(top, values)) == top.map_values(
            |one: (Seq<char>, nat)| percentage(one.1, values, 0),
        ),
    decreases top.len(),
{
    if top.len() == 0 {
        lemma_no_figures(Seq::empty());
        assert(report::glyphs(Seq::empty()) =~= stats_report::value_lines(top, values));
        assert(top.map_values(|one: (Seq<char>, nat)| percentage(one.1, values, 0))
            =~= Seq::empty());
    } else {
        let init = top.drop_last();
        let one = top.last();
        lemma_value_figures(init, values);
        lemma_value_figure(one, values);
        lemma_figures(
            stats_report::value_lines(init, values),
            stats_report::value_line(one, values),
        );
        lemma_map_push(init, one, values);
        assert(init.push(one) =~= top);
    }
}

proof fn lemma_map_push(init: Seq<(Seq<char>, nat)>, one: (Seq<char>, nat), values: nat)
    ensures
        init.push(one).map_values(|one: (Seq<char>, nat)| percentage(one.1, values, 0))
            == init.map_values(|one: (Seq<char>, nat)| percentage(one.1, values, 0)) + seq![
            percentage(one.1, values, 0),
        ],
{
    assert(init.push(one).map_values(|one: (Seq<char>, nat)| percentage(one.1, values, 0))
        =~= init.map_values(|one: (Seq<char>, nat)| percentage(one.1, values, 0)) + seq![
        percentage(one.1, values, 0),
    ]);
}

proof fn lemma_value_figure(one: (Seq<char>, nat), values: nat)
    ensures
        figures_of(stats_report::value_line(one, values)) == seq![percentage(one.1, values, 0)],
{
    law_value_line_shows_the_share_of_values(one, values);
    lemma_around(
        "  "@ + report::right(text::grouped(one.1), 8) + "  "@,
        percentage(one.1, values, 0),
        "%  "@ + one.0 + "\n"@,
    );
}

/// The figures of a field section are the share of records that it is present
/// in, and then the shares that its most common values have in all its values.
/// Nothing else in it is a figure.
pub proof fn law_field_figures_are_shares(
    path: Seq<char>,
    profile: Profile,
    valid: nat,
    top: nat,
)
    ensures
        figures_of(stats_report::field_section(path, profile, valid, top)) == seq![
            percentage(profile.present, valid, 0),
        ] + stats_report::top_of(profile.counts, top).map_values(
            |one: (Seq<char>, nat)| percentage(one.1, profile.values, 0),
        ),
{
    let found = stats_report::top_of(profile.counts, top);
    let head = field_head(path, profile.present, valid);
    let tail = field_tail(
        profile.values,
        profile.types,
        profile.counts.dom().len(),
        profile.truncated,
    );
    lemma_field_section(path, profile, valid, top);
    lemma_around(head, percentage(profile.present, valid, 0), tail);
    lemma_value_figures(found, profile.values);
    lemma_figures(
        around(head, percentage(profile.present, valid, 0), tail),
        stats_report::value_lines(found, profile.values),
    );
}

/// The report on a schema says how many records were walked and how deep, has a
/// line for each path listed, a note exactly if paths were dropped, and another
/// one exactly if lines were skipped, which says how many.
pub proof fn law_schema_report_lists_the_paths(
    depth: nat,
    records: nat,
    skipped: nat,
    paths: Seq<PathEntry>,
    truncated: bool,
)
    ensures
        ({
            let head = report::glyphs(
                text::decimal(records) + " records, depth "@ + text::decimal(depth) + "\n\n  "@
                    + report::left("path"@, 30) + " "@ + report::right("rate"@, 6)
                    + "  types\n"@,
            );
            let dropped = report::glyphs(
                "  ... path table truncated at "@ + text::decimal(2000) + " paths\n"@,
            );
            let broken = report::glyphs(
                "\n"@ + text::decimal(skipped) + " unparseable lines skipped\n"@,
            );
            let none = Seq::<Glyph>::empty();
            schema_report::schema_report(depth, records, skipped, paths, truncated) == head
                + schema_report::path_lines(paths, records) + (if truncated {
                dropped
            } else {
                none
            }) + (if skipped > 0 {
                broken
            } else {
                none
            })
        }),
{
    let a = text::decimal(records) + " records, depth "@ + text::decimal(depth) + "\n\n  "@
        + report::left("path"@, 30);
    lemma_glyphs_five(
        text::decimal(records),
        " records, depth "@,
        text::decimal(depth),
        "\n\n  "@,
        report::left("path"@, 30),
    );
    report::lemma_glyphs(a, " "@);
    lemma_glyphs_three(a + " "@, report::right("rate"@, 6), "  types\n"@);
    lemma_glyphs_three("  ... path table truncated at "@, text::decimal(2000), " paths\n"@);
    lemma_glyphs_three("\n"@, text::decimal(skipped), " unparseable lines skipped\n"@);
}

/// The value lines of a field section are those of the `top` most common values
/// of the field.
pub proof fn law_report_shows_the_most_common_values(counts: Map<Seq<char>, nat>, top: nat)
    requires
        counts.dom().finite(),
    ensures
        field::is_top(stats_report::top_of(counts, top), counts, top),
{
    let found = field::law_top_exists(counts, top);
    assert(field::is_top(found, counts, top));
}

} // verus!
