//! The human readable report of a statistics pass.

use vstd::prelude::*;

use crate::field;
use crate::field::FieldStats;
use crate::field::Profile;
use crate::hist;
use crate::hist::Histogram;
use crate::keys;
use crate::keys::KeyStat;
use crate::keys::MAX_KEYS;
use crate::ratio;
use crate::ratio::Ratio;
use crate::report;
use crate::report::align_left;
use crate::report::align_right;
use crate::report::format_type_counts;
use crate::report::Glyph;
use crate::report::Report;
use crate::stats;
use crate::stats::Issue;
use crate::stats::Stats;
use crate::summary::Problem;
use crate::summary::Summary;
use crate::table::Entry;
use crate::text;
use crate::text::with_commas;

verus! {

/// The counters at the top of a report.
pub open spec fn header(summary: Summary, source: Seq<char>) -> Seq<Glyph> {
    report::glyphs("file    "@) + report::glyphs(source) + report::glyphs("\nlines   "@)
        + report::glyphs(text::grouped(summary.lines)) + report::glyphs("   blank "@)
        + report::glyphs(text::decimal(summary.blank)) + report::glyphs("   invalid "@)
        + report::glyphs(text::decimal(summary.invalid)) + report::glyphs("   valid "@)
        + report::glyphs(text::grouped(summary.valid)) + report::glyphs("\nbytes   "@)
        + report::glyphs(text::grouped(summary.bytes)) + report::glyphs("   ("@)
        + report::figure((summary.bytes, 1024), false, 0) + report::glyphs(" KiB)\ntop level  "@)
        + report::glyphs(report::type_list(summary.top_level, true)) + report::glyphs("\n\n"@)
}

/// The smallest of ascending lengths, or zero.
pub open spec fn smallest(lengths: Seq<u64>) -> nat {
    if lengths.len() == 0 {
        0
    } else {
        lengths[0] as nat
    }
}

/// The largest of ascending lengths, or zero.
pub open spec fn largest(lengths: Seq<u64>) -> nat {
    if lengths.len() == 0 {
        0
    } else {
        lengths.last() as nat
    }
}

/// The length that `percent` percent of ascending lengths do not exceed, or
/// zero.
pub open spec fn quantile(lengths: Seq<u64>, percent: nat) -> nat {
    if lengths.len() == 0 {
        0
    } else {
        lengths[hist::rank(lengths.len(), percent) - 1] as nat
    }
}

/// The mean of lengths, or zero.
pub open spec fn mean(lengths: Seq<u64>) -> (nat, nat) {
    ratio::share(hist::total(lengths), lengths.len())
}

/// The distribution of line lengths.
pub open spec fn length_section(lengths: Seq<u64>) -> Seq<Glyph> {
    report::glyphs("line length in bytes\n  min "@) + report::glyphs(
        text::decimal(smallest(lengths)),
    ) + report::glyphs("   p50 "@) + report::glyphs(text::decimal(quantile(lengths, 50)))
        + report::glyphs("   p90 "@) + report::glyphs(text::decimal(quantile(lengths, 90)))
        + report::glyphs("   p99 "@) + report::glyphs(text::decimal(quantile(lengths, 99)))
        + report::glyphs("   max "@) + report::glyphs(text::decimal(largest(lengths)))
        + report::glyphs("   mean "@) + report::figure(mean(lengths), false, 0)
        + report::glyphs("\n\n"@)
}

/// The line for one key.
pub open spec fn key_line(key: Entry, objects: nat) -> Seq<Glyph> {
    report::glyphs("  "@) + report::glyphs(report::left(key.name, 28)) + report::glyphs(" "@)
        + report::glyphs(report::right(text::grouped(key.count), 8)) + report::glyphs("  "@)
        + report::figure(ratio::share(key.count, objects), true, 5) + report::glyphs("%  "@)
        + report::glyphs(report::type_list(key.types, true)) + report::glyphs("\n"@)
}

/// The lines for all keys.
pub open spec fn key_lines(keys: Seq<Entry>, objects: nat) -> Seq<Glyph>
    decreases keys.len(),
{
    if keys.len() == 0 {
        Seq::empty()
    } else {
        key_lines(keys.drop_last(), objects) + key_line(keys.last(), objects)
    }
}

/// The table of top level keys.
pub open spec fn key_section(summary: Summary) -> Seq<Glyph> {
    let table = report::glyphs("top level keys over "@) + report::glyphs(
        text::grouped(summary.object_records),
    ) + report::glyphs(" objects\n  key                          count     rate  types\n"@)
        + key_lines(summary.keys, summary.object_records);
    if summary.keys_truncated {
        table + report::glyphs("  ... key table truncated at "@) + report::glyphs(
            text::decimal(MAX_KEYS as nat),
        ) + report::glyphs(" keys\n"@)
    } else {
        table
    }
}

/// The line for one value of a field.
pub open spec fn value_line(one: (Seq<char>, nat), values: nat) -> Seq<Glyph> {
    report::glyphs("  "@) + report::glyphs(report::right(text::grouped(one.1), 8))
        + report::glyphs("  "@) + report::figure(ratio::share(one.1, values), true, 0)
        + report::glyphs("%  "@) + report::glyphs(one.0) + report::glyphs("\n"@)
}

/// The lines for several values of a field.
pub open spec fn value_lines(top: Seq<(Seq<char>, nat)>, values: nat) -> Seq<Glyph>
    decreases top.len(),
{
    if top.len() == 0 {
        Seq::empty()
    } else {
        value_lines(top.drop_last(), values) + value_line(top.last(), values)
    }
}

/// The `n` most common values of a value table.
pub open spec fn top_of(counts: Map<Seq<char>, nat>, n: nat) -> Seq<(Seq<char>, nat)> {
    choose|top: Seq<(Seq<char>, nat)>| field::is_top(top, counts, n)
}

/// The section for one field.
pub open spec fn field_section(
    path: Seq<char>,
    profile: Profile,
    valid: nat,
    top: nat,
) -> Seq<Glyph> {
    report::glyphs("\nfield "@) + report::glyphs(path) + report::glyphs("\n  present in "@)
        + report::glyphs(text::grouped(profile.present)) + report::glyphs(" of "@)
        + report::glyphs(text::grouped(valid)) + report::glyphs(" records ("@) + report::figure(
        ratio::share(profile.present, valid),
        true,
        0,
    ) + report::glyphs("%), "@) + report::glyphs(text::grouped(profile.values))
        + report::glyphs(" values, types "@) + report::glyphs(
        report::type_list(profile.types, true),
    ) + report::glyphs("\n  "@) + report::glyphs(text::decimal(profile.counts.dom().len()))
        + report::glyphs(" distinct values"@) + report::glyphs(
        if profile.truncated {
            " (truncated)\n"@
        } else {
            "\n"@
        },
    ) + value_lines(top_of(profile.counts, top), profile.values)
}

/// The sections for all fields.
pub open spec fn field_sections(
    paths: Seq<Seq<char>>,
    profiles: Seq<Profile>,
    valid: nat,
    top: nat,
) -> Seq<Glyph>
    decreases profiles.len(),
{
    if profiles.len() == 0 {
        Seq::empty()
    } else {
        field_sections(paths.drop_last(), profiles.drop_last(), valid, top) + field_section(
            paths.last(),
            profiles.last(),
            valid,
            top,
        )
    }
}

/// The line for one broken line.
pub open spec fn issue_line(issue: Problem) -> Seq<Glyph> {
    report::glyphs("  line "@) + report::glyphs(text::decimal(issue.line)) + report::glyphs(
        " col "@,
    ) + report::glyphs(text::decimal(issue.column)) + report::glyphs(": "@) + report::glyphs(
        issue.reason,
    ) + report::glyphs("\n"@)
}

/// The lines for all reported broken lines.
pub open spec fn issue_lines(issues: Seq<Problem>) -> Seq<Glyph>
    decreases issues.len(),
{
    if issues.len() == 0 {
        Seq::empty()
    } else {
        issue_lines(issues.drop_last()) + issue_line(issues.last())
    }
}

/// The section on broken lines, if there are any.
pub open spec fn issue_section(summary: Summary) -> Seq<Glyph> {
    if summary.issues.len() > 0 || summary.invalid > 0 {
        report::glyphs("\ninvalid lines ("@) + report::glyphs(text::decimal(summary.invalid))
            + report::glyphs(" total, showing "@) + report::glyphs(
            text::decimal(summary.issues.len()),
        ) + report::glyphs(")\n"@) + issue_lines(summary.issues)
    } else {
        Seq::empty()
    }
}

/// The whole report on a pass: `lengths` are the line lengths in ascending
/// order, `paths` the texts of the profiled paths, and `top` is how many
/// values are shown of each.
pub open spec fn stats_report(
    summary: Summary,
    lengths: Seq<u64>,
    paths: Seq<Seq<char>>,
    source: Seq<char>,
    top: nat,
) -> Seq<Glyph> {
    header(summary, source) + length_section(lengths) + key_section(summary) + field_sections(
        paths,
        summary.fields,
        summary.valid,
        top,
    ) + issue_section(summary)
}

pub(crate) fn or_zero(n: Option<u64>) -> (r: u64)
    ensures
        r == (match n {
            Some(n) => n,
            None => 0,
        }),
{
    match n {
        Some(n) => n,
        None => 0,
    }
}

fn write_lengths(lengths: &Histogram) -> (r: Report)
    requires
        lengths.wf(),
    ensures
        r@ == length_section(lengths@),
{
    let mean: Ratio = match lengths.mean() {
        Some(mean) => mean,
        None => Ratio { part: 0, whole: 1 },
    };
    let mut out = Report::starting("line length in bytes\n  min ");
    out.write_number(or_zero(lengths.min()));
    out.write("   p50 ");
    out.write_number(or_zero(lengths.quantile(50)));
    out.write("   p90 ");
    out.write_number(or_zero(lengths.quantile(90)));
    out.write("   p99 ");
    out.write_number(or_zero(lengths.quantile(99)));
    out.write("   max ");
    out.write_number(or_zero(lengths.max()));
    out.write("   mean ");
    out.write_figure(mean, false, 0);
    out.write("\n\n");
    out
}

fn write_key(key: &KeyStat, objects: u64) -> (r: Report)
    ensures
        r@ == key_line(key@, objects as nat),
{
    let mut out = Report::starting("  ");
    out.write(align_left(key.key(), 28).as_str());
    out.write(" ");
    out.write(align_right(with_commas(key.count()).as_str(), 8).as_str());
    out.write("  ");
    out.write_figure(key.rate(objects), true, 5);
    out.write("%  ");
    out.write(format_type_counts(key.types(), true).as_str());
    out.write("\n");
    out
}

fn write_field(field: &FieldStats, valid: u64, top: usize) -> (r: Report)
    requires
        field.wf(),
    ensures
        r@ == field_section(field.path_text(), field.profile(), valid as nat, top as nat),
{
    let mut out = Report::starting("\nfield ");
    out.write(field.path().as_str());
    out.write("\n  present in ");
    out.write_grouped(field.present());
    out.write(" of ");
    out.write_grouped(valid);
    out.write(" records (");
    out.write_figure(field.present_rate(valid), true, 0);
    out.write("%), ");
    out.write_grouped(field.values());
    out.write(" values, types ");
    out.write(format_type_counts(field.types(), true).as_str());
    out.write("\n  ");
    out.write_number(field.distinct() as u64);
    out.write(" distinct values");
    out.write(
        if field.truncated() {
            " (truncated)\n"
        } else {
            "\n"
        },
    );
    out.append(write_values(field, top));
    out
}

fn write_values(field: &FieldStats, top: usize) -> (r: Report)
    requires
        field.wf(),
    ensures
        r@ == value_lines(top_of(field.profile().counts, top as nat), field.profile().values),
{
    let found: Vec<(&str, u64)> = field.top(top);
    let ghost all = field::listed(found@);
    proof {
        let counts = field.profile().counts;
        field::law_top_is_unique(all, top_of(counts, top as nat), counts, top as nat);
    }
    let mut out = Report::new();
    let mut i: usize = 0;
    assert(all.take(0) =~= Seq::empty());
    while i < found.len()
        invariant
            i <= found@.len(),
            all == field::listed(found@),
            out@ == value_lines(all.take(i as int), field.profile().values),
        decreases found.len() - i,
    {
        proof {
            assert(all.take(i + 1).drop_last() =~= all.take(i as int));
            assert(all[i as int] == (found@[i as int].0@, found@[i as int].1 as nat));
        }
        out.append(write_value(found[i].0, found[i].1, field.values()));
        i = i + 1;
    }
    assert(all.take(i as int) =~= all);
    out
}

fn write_value(value: &str, count: u64, values: u64) -> (r: Report)
    ensures
        r@ == value_line((value@, count as nat), values as nat),
{
    let mut out = Report::starting("  ");
    out.write(align_right(with_commas(count).as_str(), 8).as_str());
    out.write("  ");
    out.write_figure(Ratio::of(count, values), true, 0);
    out.write("%  ");
    out.write(value);
    out.write("\n");
    out
}

fn write_issue(issue: &Issue) -> (r: Report)
    ensures
        r@ == issue_line(issue@),
{
    let mut out = Report::starting("  line ");
    out.write_number(issue.line);
    out.write(" col ");
    out.write_number(issue.column as u64);
    out.write(": ");
    out.write(issue.reason.as_str());
    out.write("\n");
    out
}

impl Stats {
    fn write_header(&self, source: &str) -> (r: Report)
        ensures
            r@ == header(self.summary(), source@),
    {
        let mut out = Report::starting("file    ");
        out.write(source);
        out.write("\nlines   ");
        out.write_grouped(self.lines);
        out.write("   blank ");
        out.write_number(self.blank);
        out.write("   invalid ");
        out.write_number(self.invalid);
        out.write("   valid ");
        out.write_grouped(self.valid);
        out.write("\nbytes   ");
        out.write_grouped(self.bytes);
        out.write("   (");
        out.write_figure(Ratio { part: self.bytes, whole: 1024 }, false, 0);
        out.write(" KiB)\ntop level  ");
        out.write(format_type_counts(self.top_level.as_slice(), true).as_str());
        out.write("\n\n");
        out
    }

    fn write_keys(&self) -> (r: Report)
        ensures
            r@ == key_section(self.summary()),
    {
        let ghost all = keys::key_table(self.keys@);
        let mut lines = Report::new();
        let mut i: usize = 0;
        assert(all.take(0) =~= Seq::empty());
        while i < self.keys.len()
            invariant
                i <= self.keys@.len(),
                all == keys::key_table(self.keys@),
                lines@ == key_lines(all.take(i as int), self.object_records as nat),
            decreases self.keys.len() - i,
        {
            proof {
                assert(all.take(i + 1).drop_last() =~= all.take(i as int));
                assert(all[i as int] == self.keys@[i as int]@);
            }
            lines.append(write_key(&self.keys[i], self.object_records));
            i = i + 1;
        }
        assert(all.take(i as int) =~= all);
        let mut out = Report::starting("top level keys over ");
        out.write_grouped(self.object_records);
        out.write(" objects\n  key                          count     rate  types\n");
        out.append(lines);
        if self.keys_truncated {
            out.write("  ... key table truncated at ");
            out.write_number(MAX_KEYS as u64);
            out.write(" keys\n");
        }
        out
    }

    fn write_fields(&self, top: usize) -> (r: Report)
        requires
            forall|i: int| 0 <= i < self.fields@.len() ==> (#[trigger] self.fields@[i]).wf(),
        ensures
            r@ == field_sections(
                self.texts(),
                self.summary().fields,
                self.valid as nat,
                top as nat,
            ),
    {
        let ghost texts = self.texts();
        let ghost profiles = stats::profiles(self.fields@);
        let mut out = Report::new();
        let mut i: usize = 0;
        assert(profiles.take(0) =~= Seq::empty());
        while i < self.fields.len()
            invariant
                i <= self.fields@.len(),
                forall|k: int|
                    0 <= k < self.fields@.len() ==> (#[trigger] self.fields@[k]).wf(),
                texts == self.texts(),
                profiles == stats::profiles(self.fields@),
                out@ == field_sections(
                    texts.take(i as int),
                    profiles.take(i as int),
                    self.valid as nat,
                    top as nat,
                ),
            decreases self.fields.len() - i,
        {
            proof {
                assert(texts.take(i + 1).drop_last() =~= texts.take(i as int));
                assert(profiles.take(i + 1).drop_last() =~= profiles.take(i as int));
                assert(texts[i as int] == self.fields@[i as int].path_text());
                assert(profiles[i as int] == self.fields@[i as int].profile());
            }
            out.append(write_field(&self.fields[i], self.valid, top));
            i = i + 1;
        }
        assert(texts.take(i as int) =~= texts);
        assert(profiles.take(i as int) =~= profiles);
        out
    }

    fn write_issues(&self) -> (r: Report)
        ensures
            r@ == issue_section(self.summary()),
    {
        if !(self.issues.len() > 0 || self.invalid > 0) {
            return Report::new();
        }
        let ghost all = stats::problems(self.issues@);
        let mut lines = Report::new();
        let mut i: usize = 0;
        assert(all.take(0) =~= Seq::empty());
        while i < self.issues.len()
            invariant
                i <= self.issues@.len(),
                all == stats::problems(self.issues@),
                lines@ == issue_lines(all.take(i as int)),
            decreases self.issues.len() - i,
        {
            proof {
                assert(all.take(i + 1).drop_last() =~= all.take(i as int));
                assert(all[i as int] == self.issues@[i as int]@);
            }
            lines.append(write_issue(&self.issues[i]));
            i = i + 1;
        }
        assert(all.take(i as int) =~= all);
        let mut out = Report::starting("\ninvalid lines (");
        out.write_number(self.invalid);
        out.write(" total, showing ");
        out.write_number(self.issues.len() as u64);
        out.write(")\n");
        out.append(lines);
        out
    }

    /// Writes the human readable report.
    ///
    /// `source` is the label shown on the `file` line (a path, or `-` for
    /// standard input); `top` is how many distinct values to show per field.
    pub fn write_report(&self, source: &str, top: usize) -> (r: Report)
        requires
            self.line_length.wf(),
            forall|i: int| 0 <= i < self.fields@.len() ==> (#[trigger] self.fields@[i]).wf(),
        ensures
            r@ == stats_report(
                self.summary(),
                self.line_length@,
                self.texts(),
                source@,
                top as nat,
            ),
    {
        let mut out = self.write_header(source);
        out.append(write_lengths(&self.line_length));
        out.append(self.write_keys());
        out.append(self.write_fields(top));
        out.append(self.write_issues());
        out
    }
}

} // verus!
