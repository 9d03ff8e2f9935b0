//! The machine-readable form of a statistics report.

use vstd::prelude::*;

use crate::field::FieldStats;
use crate::field::Profile;
use crate::hist::Histogram;
use crate::json;
use crate::json::Json;
use crate::json::Value;
use crate::keys::KeyStat;
use crate::ratio;
use crate::ratio::Ratio;
use crate::report;
use crate::report::integer;
use crate::report::type_counts_json;
use crate::stats::Issue;
use crate::stats::Stats;
use crate::stats_report;
use crate::stats_report::or_zero;
use crate::summary::Problem;
use crate::summary::Summary;
use crate::table::Entry;

verus! {

/// A quotient as a JSON number.
pub open spec fn quotient(value: (nat, nat)) -> Json {
    Json::Ratio(value.0, value.1)
}

/// The distribution of line lengths.
pub open spec fn lengths_object(lengths: Seq<u64>) -> Json {
    Json::Object(
        seq![
            ("min"@, Json::Int(stats_report::smallest(lengths) as i64)),
            ("p50"@, Json::Int(stats_report::quantile(lengths, 50) as i64)),
            ("p90"@, Json::Int(stats_report::quantile(lengths, 90) as i64)),
            ("p99"@, Json::Int(stats_report::quantile(lengths, 99) as i64)),
            ("max"@, Json::Int(stats_report::largest(lengths) as i64)),
            ("mean"@, quotient(stats_report::mean(lengths))),
        ],
    )
}

/// One top level key.
pub open spec fn key_object(key: Entry, objects: nat) -> Json {
    Json::Object(
        seq![
            ("key"@, Json::Str(key.name)),
            ("count"@, Json::Int(key.count as i64)),
            ("rate"@, quotient(ratio::share(key.count, objects))),
            ("types"@, report::type_counts(key.types)),
        ],
    )
}

/// All top level keys.
pub open spec fn key_array(keys: Seq<Entry>, objects: nat) -> Json {
    Json::Array(keys.map_values(|key: Entry| key_object(key, objects)))
}

/// One profiled field.
pub open spec fn field_object(path: Seq<char>, profile: Profile) -> Json {
    Json::Object(
        seq![
            ("path"@, Json::Str(path)),
            ("present"@, Json::Int(profile.present as i64)),
            ("values"@, Json::Int(profile.values as i64)),
            ("types"@, report::type_counts(profile.types)),
            ("distinct"@, Json::Int(profile.counts.dom().len() as i64)),
            ("truncated"@, Json::Bool(profile.truncated)),
        ],
    )
}

/// All profiled fields.
pub open spec fn field_array(paths: Seq<Seq<char>>, profiles: Seq<Profile>) -> Json {
    Json::Array(Seq::new(profiles.len(), |i: int| field_object(paths[i], profiles[i])))
}

/// One broken line.
pub open spec fn issue_object(issue: Problem) -> Json {
    Json::Object(
        seq![
            ("line"@, Json::Int(issue.line as i64)),
            ("column"@, Json::Int(issue.column as i64)),
            ("reason"@, Json::Str(issue.reason)),
        ],
    )
}

/// All reported broken lines.
pub open spec fn issue_array(issues: Seq<Problem>) -> Json {
    Json::Array(issues.map_values(|issue: Problem| issue_object(issue)))
}

/// The whole report on a pass: `lengths` are the line lengths in ascending
/// order and `paths` the texts of the profiled paths.
pub open spec fn stats_object(
    summary: Summary,
    lengths: Seq<u64>,
    paths: Seq<Seq<char>>,
) -> Json {
    Json::Object(
        seq![
            ("lines"@, Json::Int(summary.lines as i64)),
            ("blank"@, Json::Int(summary.blank as i64)),
            ("valid"@, Json::Int(summary.valid as i64)),
            ("invalid"@, Json::Int(summary.invalid as i64)),
            ("bytes"@, Json::Int(summary.bytes as i64)),
            ("top_level"@, report::type_counts(summary.top_level)),
            ("line_length"@, lengths_object(lengths)),
            ("keys"@, key_array(summary.keys, summary.object_records)),
            ("fields"@, field_array(paths, summary.fields)),
            ("issues"@, issue_array(summary.issues)),
        ],
    )
}

fn key_json(key: &KeyStat, objects: u64) -> (r: Value)
    ensures
        r@ == key_object(key@, objects as nat),
{
    let members: Vec<(String, Value)> = vec![
        ("key".to_string(), Value::Str(key.key().to_string())),
        integer("count", key.count()),
        ("rate".to_string(), Value::Ratio(key.rate(objects))),
        ("types".to_string(), type_counts_json(key.types())),
    ];
    proof {
        json::lemma_object_view(members);
        assert(json::member_views(members@) =~= key_object(key@, objects as nat)->Object_0);
    }
    Value::Object(members)
}

fn field_json(field: &FieldStats) -> (r: Value)
    requires
        field.wf(),
    ensures
        r@ == field_object(field.path_text(), field.profile()),
{
    let members: Vec<(String, Value)> = vec![
        ("path".to_string(), Value::Str(field.path().to_string())),
        integer("present", field.present()),
        integer("values", field.values()),
        ("types".to_string(), type_counts_json(field.types())),
        integer("distinct", field.distinct() as u64),
        ("truncated".to_string(), Value::Bool(field.truncated())),
    ];
    proof {
        json::lemma_object_view(members);
        assert(json::member_views(members@) =~= field_object(
            field.path_text(),
            field.profile(),
        )->Object_0);
    }
    Value::Object(members)
}

fn issue_json(issue: &Issue) -> (r: Value)
    ensures
        r@ == issue_object(issue@),
{
    let members: Vec<(String, Value)> = vec![
        integer("line", issue.line),
        integer("column", issue.column as u64),
        ("reason".to_string(), Value::Str(issue.reason.clone())),
    ];
    proof {
        json::lemma_object_view(members);
        assert(json::member_views(members@) =~= issue_object(issue@)->Object_0);
    }
    Value::Object(members)
}

impl Stats {
    fn line_length_json(&self) -> (r: Value)
        requires
            self.line_length.wf(),
        ensures
            r@ == lengths_object(self.line_length@),
    {
        let lengths: &Histogram = &self.line_length;
        let mean: Ratio = match lengths.mean() {
            Some(mean) => mean,
            None => Ratio { part: 0, whole: 1 },
        };
        let members: Vec<(String, Value)> = vec![
            integer("min", or_zero(lengths.min())),
            integer("p50", or_zero(lengths.quantile(50))),
            integer("p90", or_zero(lengths.quantile(90))),
            integer("p99", or_zero(lengths.quantile(99))),
            integer("max", or_zero(lengths.max())),
            ("mean".to_string(), Value::Ratio(mean)),
        ];
        proof {
            json::lemma_object_view(members);
            assert(json::member_views(members@) =~= lengths_object(lengths@)->Object_0);
        }
        Value::Object(members)
    }

    fn keys_json(&self) -> (r: Value)
        ensures
            r@ == key_array(self.summary().keys, self.object_records as nat),
    {
        let ghost all = key_array(self.summary().keys, self.object_records as nat)->Array_0;
        let mut items: Vec<Value> = Vec::new();
        let mut i: usize = 0;
        while i < self.keys.len()
            invariant
                i <= self.keys@.len(),
                items@.len() == i,
                all == key_array(self.summary().keys, self.object_records as nat)->Array_0,
                forall|k: int| 0 <= k < i ==> (#[trigger] items@[k])@ == all[k],
            decreases self.keys.len() - i,
        {
            assert(self.summary().keys[i as int] == self.keys@[i as int]@);
            items.push(key_json(&self.keys[i], self.object_records));
            i = i + 1;
        }
        proof {
            json::lemma_array_view(items);
            assert(json::views(items@) =~= all);
        }
        Value::Array(items)
    }

    fn fields_json(&self) -> (r: Value)
        requires
            forall|i: int| 0 <= i < self.fields@.len() ==> (#[trigger] self.fields@[i]).wf(),
        ensures
            r@ == field_array(self.texts(), self.summary().fields),
    {
        let ghost all = field_array(self.texts(), self.summary().fields)->Array_0;
        let mut items: Vec<Value> = Vec::new();
        let mut i: usize = 0;
        while i < self.fields.len()
            invariant
                i <= self.fields@.len(),
                items@.len() == i,
                all == field_array(self.texts(), self.summary().fields)->Array_0,
                forall|k: int|
                    0 <= k < self.fields@.len() ==> (#[trigger] self.fields@[k]).wf(),
                forall|k: int| 0 <= k < i ==> (#[trigger] items@[k])@ == all[k],
            decreases self.fields.len() - i,
        {
            assert(self.summary().fields[i as int] == self.fields@[i as int].profile());
            assert(self.texts()[i as int] == self.fields@[i as int].path_text());
            items.push(field_json(&self.fields[i]));
            i = i + 1;
        }
        proof {
            json::lemma_array_view(items);
            assert(json::views(items@) =~= all);
        }
        Value::Array(items)
    }

    fn issues_json(&self) -> (r: Value)
        ensures
            r@ == issue_array(self.summary().issues),
    {
        let ghost all = issue_array(self.summary().issues)->Array_0;
        let mut items: Vec<Value> = Vec::new();
        let mut i: usize = 0;
        while i < self.issues.len()
            invariant
                i <= self.issues@.len(),
                items@.len() == i,
                all == issue_array(self.summary().issues)->Array_0,
                forall|k: int| 0 <= k < i ==> (#[trigger] items@[k])@ == all[k],
            decreases self.issues.len() - i,
        {
            assert(self.summary().issues[i as int] == self.issues@[i as int]@);
            items.push(issue_json(&self.issues[i]));
            i = i + 1;
        }
        proof {
            json::lemma_array_view(items);
            assert(json::views(items@) =~= all);
        }
        Value::Array(items)
    }

    /// The machine-readable form of the report.
    pub fn to_json(&self) -> (r: Value)
        requires
            self.line_length.wf(),
            forall|i: int| 0 <= i < self.fields@.len() ==> (#[trigger] self.fields@[i]).wf(),
        ensures
            r@ == stats_object(self.summary(), self.line_length@, self.texts()),
    {
        let members: Vec<(String, Value)> = vec![
            integer("lines", self.lines),
            integer("blank", self.blank),
            integer("valid", self.valid),
            integer("invalid", self.invalid),
            integer("bytes", self.bytes),
            ("top_level".to_string(), type_counts_json(self.top_level.as_slice())),
            ("line_length".to_string(), self.line_length_json()),
            ("keys".to_string(), self.keys_json()),
            ("fields".to_string(), self.fields_json()),
            ("issues".to_string(), self.issues_json()),
        ];
        proof {
            json::lemma_object_view(members);
            assert(json::member_views(members@) =~= stats_object(
                self.summary(),
                self.line_length@,
                self.texts(),
            )->Object_0);
        }
        Value::Object(members)
    }
}

} // verus!
