//! The human readable report of a schema pass, and its machine-readable form.

use vstd::prelude::*;

use crate::json;
use crate::json::Json;
use crate::json::Value;
use crate::ratio;
use crate::report;
use crate::report::align_left;
use crate::report::align_right;
use crate::report::format_type_counts;
use crate::report::integer;
use crate::report::type_counts_json;
use crate::report::Glyph;
use crate::report::Report;
use crate::schema;
use crate::schema::PathStat;
use crate::schema::Schema;
use crate::text;
use crate::walk::PathEntry;
use crate::walk::MAX_PATHS;

verus! {

/// The line for one path.
pub open spec fn path_line(path: PathEntry, records: nat) -> Seq<Glyph> {
    report::glyphs("  "@) + report::glyphs(report::left(path.path, 30)) + report::glyphs(" "@)
        + report::figure(ratio::share(path.present, records), true, 5) + report::glyphs("%  "@)
        + report::glyphs(report::type_list(path.types, false)) + report::glyphs("\n"@)
}

/// The lines for all paths.
pub open spec fn path_lines(paths: Seq<PathEntry>, records: nat) -> Seq<Glyph>
    decreases paths.len(),
{
    if paths.len() == 0 {
        Seq::empty()
    } else {
        path_lines(paths.drop_last(), records) + path_line(paths.last(), records)
    }
}

/// What a report says of paths that were dropped.
pub open spec fn truncation_note(truncated: bool) -> Seq<Glyph> {
    if truncated {
        report::glyphs("  ... path table truncated at "@) + report::glyphs(
            text::decimal(MAX_PATHS as nat),
        ) + report::glyphs(" paths\n"@)
    } else {
        Seq::empty()
    }
}

/// What a report says of lines that did not parse.
pub open spec fn skipped_note(skipped: nat) -> Seq<Glyph> {
    if skipped > 0 {
        report::glyphs("\n"@) + report::glyphs(text::decimal(skipped)) + report::glyphs(
            " unparseable lines skipped\n"@,
        )
    } else {
        Seq::empty()
    }
}

/// The whole report on a pass.
pub open spec fn schema_report(
    depth: nat,
    records: nat,
    skipped: nat,
    paths: Seq<PathEntry>,
    truncated: bool,
) -> Seq<Glyph> {
    report::glyphs(text::decimal(records)) + report::glyphs(" records, depth "@)
        + report::glyphs(text::decimal(depth)) + report::glyphs("\n\n  "@) + report::glyphs(
        report::left("path"@, 30),
    ) + report::glyphs(" "@) + report::glyphs(report::right("rate"@, 6)) + report::glyphs(
        "  types\n"@,
    ) + path_lines(paths, records) + truncation_note(truncated) + skipped_note(skipped)
}

/// One path as a JSON object.
pub open spec fn path_object(path: PathEntry, records: nat) -> Json {
    let rate = ratio::share(path.present, records);
    Json::Object(
        seq![
            ("path"@, Json::Str(path.path)),
            ("present"@, Json::Int(path.present as i64)),
            ("count"@, Json::Int(path.count as i64)),
            ("rate"@, Json::Ratio(rate.0, rate.1)),
            ("types"@, report::type_counts(path.types)),
        ],
    )
}

/// The whole report on a pass as a JSON object.
pub open spec fn schema_object(
    depth: nat,
    records: nat,
    skipped: nat,
    paths: Seq<PathEntry>,
    truncated: bool,
) -> Json {
    Json::Object(
        seq![
            ("records"@, Json::Int(records as i64)),
            ("skipped"@, Json::Int(skipped as i64)),
            ("depth"@, Json::Int(depth as i64)),
            ("truncated"@, Json::Bool(truncated)),
            (
                "paths"@,
                Json::Array(paths.map_values(|path: PathEntry| path_object(path, records))),
            ),
        ],
    )
}

fn write_path(path: &PathStat, records: u64) -> (r: Report)
    ensures
        r@ == path_line(path@, records as nat),
{
    let mut out = Report::starting("  ");
    out.write(align_left(path.path(), 30).as_str());
    out.write(" ");
    out.write_figure(path.rate(records), true, 5);
    out.write("%  ");
    out.write(format_type_counts(path.types(), false).as_str());
    out.write("\n");
    out
}

fn path_json(path: &PathStat, records: u64) -> (r: Value)
    ensures
        r@ == path_object(path@, records as nat),
{
    let members: Vec<(String, Value)> = vec![
        ("path".to_string(), Value::Str(path.path().to_string())),
        integer("present", path.present()),
        integer("count", path.count()),
        ("rate".to_string(), Value::Ratio(path.rate(records))),
        ("types".to_string(), type_counts_json(path.types())),
    ];
    proof {
        json::lemma_object_view(members);
        assert(json::member_views(members@) =~= path_object(path@, records as nat)->Object_0);
    }
    Value::Object(members)
}

impl Schema {
    fn write_paths(&self) -> (r: Report)
        ensures
            r@ == path_lines(schema::path_views(self.paths@), self.records as nat),
    {
        let ghost all = schema::path_views(self.paths@);
        let mut out = Report::new();
        let mut i: usize = 0;
        assert(all.take(0) =~= Seq::empty());
        while i < self.paths.len()
            invariant
                i <= self.paths@.len(),
                all == schema::path_views(self.paths@),
                out@ == path_lines(all.take(i as int), self.records as nat),
            decreases self.paths.len() - i,
        {
            proof {
                assert(all.take(i + 1).drop_last() =~= all.take(i as int));
                assert(all[i as int] == self.paths@[i as int]@);
            }
            out.append(write_path(&self.paths[i], self.records));
            i = i + 1;
        }
        assert(all.take(i as int) =~= all);
        out
    }

    fn write_truncation(&self) -> (r: Report)
        ensures
            r@ == truncation_note(self.truncated),
    {
        if !self.truncated {
            return Report::new();
        }
        let mut out = Report::starting("  ... path table truncated at ");
        out.write_number(MAX_PATHS as u64);
        out.write(" paths\n");
        out
    }

    fn write_skipped(&self) -> (r: Report)
        ensures
            r@ == skipped_note(self.skipped as nat),
    {
        if self.skipped == 0 {
            return Report::new();
        }
        let mut out = Report::starting("\n");
        out.write_number(self.skipped);
        out.write(" unparseable lines skipped\n");
        out
    }

    /// Writes the human readable report.
    pub fn write_report(&self) -> (r: Report)
        ensures
            r@ == schema_report(
                self.depth as nat,
                self.records as nat,
                self.skipped as nat,
                schema::path_views(self.paths@),
                self.truncated,
            ),
    {
        let mut out = Report::new();
        out.write_number(self.records);
        assert(out@ =~= report::glyphs(text::decimal(self.records as nat)));
        out.write(" records, depth ");
        out.write_number(self.depth as u64);
        out.write("\n\n  ");
        out.write(align_left("path", 30).as_str());
        out.write(" ");
        out.write(align_right("rate", 6).as_str());
        out.write("  types\n");
        out.append(self.write_paths());
        out.append(self.write_truncation());
        out.append(self.write_skipped());
        out
    }

    /// The machine-readable form of the report.
    pub fn to_json(&self) -> (r: Value)
        ensures
            r@ == schema_object(
                self.depth as nat,
                self.records as nat,
                self.skipped as nat,
                schema::path_views(self.paths@),
                self.truncated,
            ),
    {
        let ghost all = schema::path_views(self.paths@);
        let mut items: Vec<Value> = Vec::new();
        let mut i: usize = 0;
        while i < self.paths.len()
            invariant
                i <= self.paths@.len(),
                items@.len() == i,
                all == schema::path_views(self.paths@),
                forall|k: int|
                    0 <= k < i ==> (#[trigger] items@[k])@ == path_object(
                        all[k],
                        self.records as nat,
                    ),
            decreases self.paths.len() - i,
        {
            assert(all[i as int] == self.paths@[i as int]@);
            items.push(path_json(&self.paths[i], self.records));
            i = i + 1;
        }
        proof {
            json::lemma_array_view(items);
            assert(json::views(items@) =~= all.map_values(
                |path: PathEntry| path_object(path, self.records as nat),
            ));
        }
        let members: Vec<(String, Value)> = vec![
            integer("records", self.records),
            integer("skipped", self.skipped),
            integer("depth", self.depth as u64),
            ("truncated".to_string(), Value::Bool(self.truncated)),
            ("paths".to_string(), Value::Array(items)),
        ];
        proof {
            json::lemma_object_view(members);
            assert(json::member_views(members@) =~= schema_object(
                self.depth as nat,
                self.records as nat,
                self.skipped as nat,
                all,
                self.truncated,
            )->Object_0);
        }
        Value::Object(members)
    }
}

} // verus!
