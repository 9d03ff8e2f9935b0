use jsonl_peek::json::Value;
use jsonl_peek::lines::split_line;
use jsonl_peek::ratio::Ratio;
use jsonl_peek::report::{Piece, Report};
use jsonl_peek::schema::SchemaScan;
use jsonl_peek::walk::MAX_PATHS;
use jsonl_peek::{FieldPath, PathStat, Schema, SchemaOptions, Stats, StatsOptions};

fn schema_for(text: &str, options: SchemaOptions) -> Schema {
    Schema::from_reader(text.as_bytes(), options)
}

fn find<'a>(schema: &'a Schema, path: &str) -> &'a PathStat {
    schema.paths.iter().find(|p| p.path() == path).unwrap_or_else(|| panic!("no path {}", path))
}

fn number(ratio: Ratio) -> f64 {
    ratio.part as f64 / ratio.whole as f64
}

fn printed(report: &Report) -> String {
    let mut out = String::new();
    for piece in report.pieces() {
        match piece {
            Piece::Text(text) => out.push_str(text),
            Piece::Figure(figure) => {
                let value = if figure.percent { number(figure.value) * 100.0 } else { number(figure.value) };
                out.push_str(&format!("{:>1$.1}", value, figure.width));
            }
        }
    }
    out
}

fn names(schema: &Schema) -> Vec<&str> {
    schema.paths.iter().map(|p| p.path()).collect()
}

#[test]
fn schema_default_options_match_the_documented_defaults() {
    let options = SchemaOptions::default();
    assert_eq!(options.depth, 3);
    assert_eq!(number(options.min_rate), 0.0);
}

#[test]
fn top_level_keys_are_depth_one() {
    let text = "{\"id\":1,\"tags\":[\"a\"]}\n{\"id\":2}\n";
    let s = schema_for(text, SchemaOptions { depth: 1, ..SchemaOptions::default() });
    assert_eq!(s.records, 2);
    let id = find(&s, "id");
    assert_eq!(id.present(), 2);
    assert_eq!(id.count(), 2);
    assert_eq!(number(id.rate(s.records)), 1.0);
    let tags = find(&s, "tags");
    assert_eq!(tags.present(), 1);
    assert_eq!(tags.types(), &[("array", 1)]);
    assert!(s.paths.iter().all(|p| !p.path().contains('[')));
}

#[test]
fn depth_limits_how_far_the_walk_descends() {
    let text = "{\"messages\":[{\"role\":\"user\"}]}\n";
    let shallow = schema_for(text, SchemaOptions { depth: 2, ..SchemaOptions::default() });
    assert!(shallow.paths.iter().any(|p| p.path() == "messages[]"));
    assert!(!shallow.paths.iter().any(|p| p.path() == "messages[].role"));

    let deep = schema_for(text, SchemaOptions { depth: 3, ..SchemaOptions::default() });
    assert!(deep.paths.iter().any(|p| p.path() == "messages[].role"));
}

#[test]
fn array_fan_out_counts_every_element_but_marks_presence_once() {
    let text = "{\"messages\":[{\"role\":\"user\"},{\"role\":\"assistant\"},{\"role\":\"user\"}]}\n\
                 {\"messages\":[]}\n\
                 {\"other\":true}\n";
    let s = schema_for(text, SchemaOptions::default());
    let role = find(&s, "messages[].role");
    assert_eq!(role.present(), 1);
    assert_eq!(role.count(), 3);
    assert_eq!(number(role.rate(s.records)), 1.0 / 3.0);
}

#[test]
fn a_path_with_mixed_types_records_both() {
    let text = "{\"v\":1}\n{\"v\":\"x\"}\n";
    let s = schema_for(text, SchemaOptions::default());
    let v = find(&s, "v");
    assert_eq!(v.count(), 2);
    assert_eq!(v.types(), &[("int", 1), ("string", 1)]);
}

#[test]
fn blank_and_unparseable_lines_are_skipped_not_counted_as_records() {
    let text = "{\"a\":1}\n\n{bad}\n{\"a\":2}\n";
    let s = schema_for(text, SchemaOptions::default());
    assert_eq!(s.records, 2);
    assert_eq!(s.skipped, 1);
}

#[test]
fn min_rate_hides_infrequent_paths() {
    let text = "{\"a\":1}\n{\"a\":1,\"b\":1}\n{\"a\":1}\n{\"a\":1}\n";
    let s = schema_for(
        text,
        SchemaOptions { min_rate: Ratio { part: 1, whole: 2 }, ..SchemaOptions::default() },
    );
    assert!(s.paths.iter().any(|p| p.path() == "a"));
    assert!(!s.paths.iter().any(|p| p.path() == "b"));
}

#[test]
fn paths_are_reported_in_alphabetical_order() {
    let text = "{\"z\":1,\"a\":1,\"m\":1}\n";
    let s = schema_for(text, SchemaOptions::default());
    let names: Vec<&str> = s.paths.iter().map(|p| p.path()).collect();
    assert_eq!(names, vec!["a", "m", "z"]);
}

#[test]
fn records_that_are_themselves_arrays_use_a_leading_fan_out() {
    let text = "[{\"id\":1},{\"id\":2}]\n";
    let s = schema_for(text, SchemaOptions::default());
    let elements = find(&s, "[]");
    assert_eq!(elements.count(), 2);
    let id = find(&s, "[].id");
    assert_eq!(id.count(), 2);
}

#[test]
fn truncates_the_path_table_past_the_cap() {
    let mut line = String::from("{");
    for i in 0..(MAX_PATHS + 1) {
        if i > 0 {
            line.push(',');
        }
        line.push_str(&format!("\"k{}\":1", i));
    }
    line.push_str("}\n");
    let s = schema_for(&line, SchemaOptions::default());
    assert_eq!(s.paths.len(), MAX_PATHS);
    assert!(s.truncated);
}

#[test]
fn schema_write_report_includes_the_expected_sections() {
    let text = "{\"id\":1,\"meta\":{\"source\":\"web\"}}\n{bad}\n";
    let s = schema_for(text, SchemaOptions::default());
    let report = printed(&s.write_report());
    assert!(report.contains("1 records, depth 3"));
    assert!(report.contains("meta.source"));
    assert!(report.contains("string:1"));
    assert!(report.contains("1 unparseable lines skipped"));
}

#[test]
fn to_json_reports_path_details() {
    let text = "{\"id\":1}\n{\"id\":2}\n";
    let s = schema_for(text, SchemaOptions::default());
    let json = s.to_json();
    assert_eq!(json.get("records").and_then(Value::as_i64), Some(2));
    let paths = json.get("paths").unwrap().as_array().unwrap();
    let id = paths.iter().find(|p| p.get("path").and_then(Value::as_str) == Some("id")).unwrap();
    assert_eq!(id.get("present").and_then(Value::as_i64), Some(2));
    assert_eq!(id.get("rate").and_then(Value::as_ratio).map(number), Some(1.0));
}

#[test]
fn empty_input_reports_zero_records_and_no_paths() {
    let s = schema_for("", SchemaOptions::default());
    assert_eq!(s.records, 0);
    assert!(s.paths.is_empty());
    assert!(printed(&s.write_report()).contains("0 records, depth 3"));
}

#[test]
fn the_whole_report_of_a_schema() {
    let text = "{\"id\":1,\"tags\":[\"a\",2]}\n{bad}\n{\"id\":null}\n7\n";
    let s = schema_for(text, SchemaOptions::default());
    let mut expected = String::new();
    expected.push_str("3 records, depth 3\n");
    expected.push_str("\n");
    expected.push_str("  path                             rate  types\n");
    expected.push_str("  id                              66.7%  int:1 null:1\n");
    expected.push_str("  tags                            33.3%  array:1\n");
    expected.push_str("  tags[]                          33.3%  string:1 int:1\n");
    expected.push_str("\n");
    expected.push_str("1 unparseable lines skipped\n");
    assert_eq!(printed(&s.write_report()), expected);
}

#[test]
fn a_truncated_path_table_is_noted_in_the_report() {
    let mut text = String::from("{");
    for i in 0..(MAX_PATHS + 1) {
        text.push_str(&format!("{}\"k{}\":1", if i > 0 { "," } else { "" }, i));
    }
    text.push_str("}\n");
    let s = schema_for(&text, SchemaOptions::default());
    assert!(printed(&s.write_report()).ends_with("  ... path table truncated at 2000 paths\n"));
}

#[test]
fn the_whole_json_report_of_a_schema() {
    let s = schema_for("{\"a\":[1]}\n{}\n", SchemaOptions { depth: 1, ..SchemaOptions::default() });
    let int = |n: i64| Value::Int(n);
    let object = |members: Vec<(&str, Value)>| {
        Value::Object(members.into_iter().map(|(k, v)| (k.to_string(), v)).collect())
    };
    let expected = object(vec![
        ("records", int(2)),
        ("skipped", int(0)),
        ("depth", int(1)),
        ("truncated", Value::Bool(false)),
        (
            "paths",
            Value::Array(vec![object(vec![
                ("path", Value::Str("a".to_string())),
                ("present", int(1)),
                ("count", int(1)),
                ("rate", Value::Ratio(Ratio { part: 1, whole: 2 })),
                ("types", object(vec![("array", int(1))])),
            ])]),
        ),
    ]);
    assert_eq!(s.to_json(), expected);
}

#[test]
fn a_depth_of_zero_walks_nothing() {
    let s = schema_for("{\"a\":{\"b\":1}}\n", SchemaOptions { depth: 0, ..SchemaOptions::default() });
    assert_eq!(s.records, 1);
    assert!(s.paths.is_empty());
}

#[test]
fn a_deeper_walk_finds_more() {
    let text = "{\"a\":{\"b\":[[{\"c\":1}]]}}\n";
    let mut before: Vec<String> = Vec::new();
    for depth in 0..7usize {
        let s = schema_for(text, SchemaOptions { depth, ..SchemaOptions::default() });
        let found: Vec<String> = names(&s).iter().map(|p| p.to_string()).collect();
        assert!(before.iter().all(|p| found.contains(p)));
        before = found;
    }
    assert_eq!(before, vec!["a", "a.b", "a.b[]", "a.b[][]", "a.b[][].c"]);
}

#[test]
fn every_member_of_a_repeated_key_is_walked() {
    let s = schema_for("{\"a\":1,\"a\":\"x\"}\n", SchemaOptions::default());
    let a = find(&s, "a");
    assert_eq!((a.present(), a.count()), (1, 2));
    assert_eq!(a.types(), &[("int", 1), ("string", 1)]);
}

#[test]
fn an_empty_key_adds_no_text_to_the_path() {
    let s = schema_for("{\"\":{\"b\":1}}\n", SchemaOptions::default());
    assert_eq!(names(&s), vec!["", "b"]);
}

#[test]
fn a_lower_threshold_shows_more() {
    let text = "{\"a\":1}\n{\"a\":1,\"b\":1}\n{\"a\":1}\n{\"c\":1,\"b\":1}\n";
    let at = |part: u64, whole: u64| {
        schema_for(text, SchemaOptions { min_rate: Ratio { part, whole }, ..SchemaOptions::default() })
    };
    assert_eq!(names(&at(0, 1)), vec!["a", "b", "c"]);
    assert_eq!(names(&at(1, 2)), vec!["a", "b"]);
    assert_eq!(names(&at(3, 4)), vec!["a"]);
    assert!(at(4, 5).paths.is_empty());
}

#[test]
fn a_walk_can_be_made_in_pieces() {
    let first = "{\"b\":1}\nbad\n";
    let second = "\n{\"a\":[2,3]}\n{\"b\":[]}";
    let whole = schema_for(&format!("{}{}", first, second), SchemaOptions::default());
    let mut scan = SchemaScan::new(3);
    for text in [first, second] {
        let mut rest = text.as_bytes();
        while !rest.is_empty() {
            let (line, after) = split_line(rest);
            scan.record_line(line);
            rest = after;
        }
    }
    assert_eq!((scan.records(), scan.skipped(), scan.bytes()), (3, 1, 29));
    let pieces = scan.finish(Ratio { part: 0, whole: 1 });
    assert_eq!(pieces.to_json(), whole.to_json());
    assert_eq!(names(&pieces), vec!["a", "a[]", "b"]);
}

#[test]
fn schema_and_stats_agree_on_the_lines() {
    let text = "{\"a\":1}\n\n[}\n3\n\"x\n";
    let schema = schema_for(text, SchemaOptions::default());
    let stats = Stats::from_reader(text.as_bytes(), StatsOptions::default());
    assert_eq!(schema.records, stats.valid);
    assert_eq!(schema.skipped, stats.invalid);
    assert_eq!(schema.records + schema.skipped + stats.blank, stats.lines);
}

#[test]
fn schema_and_field_profiles_agree_on_every_path() {
    let text = "{\"a\":[{\"b\":1},{\"b\":\"x\"},3],\"c\":null}\n{\"c\":{\"a\":[]}}\n[[1,2],{\"c\":true}]\n";
    let schema = schema_for(text, SchemaOptions::default());
    assert!(schema.paths.len() > 5);
    for path in &schema.paths {
        let options = StatsOptions {
            fields: vec![FieldPath::parse(path.path()).unwrap()],
            ..StatsOptions::default()
        };
        let stats = Stats::from_reader(text.as_bytes(), options);
        assert_eq!(stats.fields[0].present(), path.present());
        assert_eq!(stats.fields[0].values(), path.count());
        assert_eq!(stats.fields[0].types(), path.types());
    }
}

#[test]
fn a_full_path_table_is_not_truncated() {
    let mut text = String::from("{");
    for i in 0..MAX_PATHS {
        text.push_str(&format!("{}\"k{}\":1", if i > 0 { "," } else { "" }, i));
    }
    text.push_str("}\n{\"k0\":2}\n");
    let s = schema_for(&text, SchemaOptions::default());
    assert_eq!(s.paths.len(), MAX_PATHS);
    assert!(!s.truncated);
    assert_eq!(find(&s, "k0").count(), 2);
}

#[test]
fn depth_adds_only_deeper_paths() {
    let text = "{\"a\":{\"b\":[1,{\"c]\":2}],\"b\":3}}\n[[{\"d\":null}],4]\nbad\n";
    let level = |path: &str| {
        path.matches('[').count() + path.split('.').filter(|part| !part.starts_with('[')).count()
    };
    let at = |depth: usize| schema_for(text, SchemaOptions { depth, ..SchemaOptions::default() });
    let deep = at(9);
    for depth in 0..9usize {
        let s = at(depth);
        assert_eq!((s.records, s.skipped, s.truncated), (deep.records, deep.skipped, false));
        let expected: Vec<&PathStat> = deep.paths.iter().filter(|p| level(p.path()) <= depth).collect();
        assert_eq!(s.paths.len(), expected.len());
        for (p, q) in s.paths.iter().zip(expected) {
            assert_eq!((p.path(), p.present(), p.count()), (q.path(), q.present(), q.count()));
            assert_eq!(p.types(), q.types());
        }
    }
    assert_eq!(names(&deep), vec!["[]", "[][]", "[][].d", "a", "a.b", "a.b[]", "a.b[].c]"]);
}

#[test]
fn a_deeper_walk_never_lowers_a_counter() {
    let text = "{\"\":{\"x\":1},\"x\":2,\"a.b\":3,\"a\":{\"b\":4}}\n";
    let shallow = schema_for(text, SchemaOptions { depth: 1, ..SchemaOptions::default() });
    let deep = schema_for(text, SchemaOptions { depth: 2, ..SchemaOptions::default() });
    for p in &shallow.paths {
        let q = find(&deep, p.path());
        assert!(q.present() >= p.present() && q.count() >= p.count());
    }
    assert_eq!((find(&shallow, "a.b").count(), find(&deep, "a.b").count()), (1, 2));
    assert_eq!((find(&shallow, "x").count(), find(&deep, "x").count()), (1, 2));
}
