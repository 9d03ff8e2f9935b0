use jsonl_peek::field::MAX_FIELD_VALUES;
use jsonl_peek::json::{parse, Value};
use jsonl_peek::keys::MAX_KEYS;
use jsonl_peek::lines::{read_line, split_line, Line};
use jsonl_peek::ratio::Ratio;
use jsonl_peek::report::{Piece, Report};
use jsonl_peek::{FieldPath, FieldStats, Stats, StatsOptions};

fn stats_for(text: &str, options: StatsOptions) -> Stats {
    Stats::from_reader(text.as_bytes(), options)
}

fn number(ratio: Ratio) -> f64 {
    ratio.part as f64 / ratio.whole as f64
}

fn printed(report: &Report) -> String {
    let mut out = String::new();
    for piece in report.pieces() {
        match piece {
            Piece::Text(text) => out.push_str(text),
            Piece::Figure(figure) => {
                let value = if figure.percent { number(figure.value) * 100.0 } else { number(figure.value) };
                out.push_str(&format!("{:>1$.1}", value, figure.width));
            }
        }
    }
    out
}

fn profiling(path: &str) -> StatsOptions {
    StatsOptions {
        fields: vec![FieldPath::parse(path).unwrap()],
        ..StatsOptions::default()
    }
}

#[test]
fn stats_default_options_match_the_documented_defaults() {
    let options = StatsOptions::default();
    assert!(options.fields.is_empty());
    assert_eq!(options.top, 10);
    assert_eq!(options.max_errors, 10);
}

#[test]
fn counts_blank_and_invalid_lines() {
    let text = "{\"a\":1}\n\n   \n{bad}\n{\"a\":2}\n";
    let s = stats_for(text, StatsOptions::default());
    assert_eq!(s.lines, 5);
    assert_eq!(s.blank, 2);
    assert_eq!(s.valid, 2);
    assert_eq!(s.invalid, 1);
    assert_eq!(s.issues.len(), 1);
    assert_eq!(s.issues[0].line, 4);
}

#[test]
fn issue_column_is_one_based() {
    let s = stats_for("{\"a\":1,}\n", StatsOptions::default());
    assert_eq!(s.issues.len(), 1);
    assert_eq!(s.issues[0].line, 1);
    assert_eq!(s.issues[0].column, 8);
    assert_eq!(s.issues[0].reason, "expected a quoted object key");
}

#[test]
fn caps_the_issue_list_but_keeps_the_total_invalid_count() {
    let text = "{bad1}\n{bad2}\n{bad3}\n";
    let options = StatsOptions {
        max_errors: 1,
        ..StatsOptions::default()
    };
    let s = stats_for(text, options);
    assert_eq!(s.invalid, 3);
    assert_eq!(s.issues.len(), 1);
    assert_eq!(s.issues[0].line, 1);
}

#[test]
fn reports_invalid_utf8_as_an_invalid_line() {
    let mut data = Vec::new();
    data.extend_from_slice(b"{\"a\":1}\n");
    data.extend_from_slice(&[0x80, 0x81, b'\n']);
    let s = Stats::from_reader(&data[..], StatsOptions::default());
    assert_eq!(s.valid, 1);
    assert_eq!(s.invalid, 1);
    assert_eq!(s.issues[0].line, 2);
    assert_eq!(s.issues[0].column, 1);
    assert_eq!(s.issues[0].reason, "invalid UTF-8");
}

#[test]
fn records_top_level_types_and_key_rates() {
    let text = "{\"id\":1,\"tags\":[\"a\"]}\n{\"id\":2}\n[1,2,3]\n";
    let s = stats_for(text, StatsOptions::default());
    assert_eq!(s.valid, 3);
    assert_eq!(s.object_records, 2);
    assert_eq!(s.top_level, vec![("object", 2), ("array", 1)]);

    let id = s.keys.iter().find(|k| k.key() == "id").unwrap();
    assert_eq!(id.count(), 2);
    assert_eq!(number(id.rate(s.object_records)), 1.0);
    assert_eq!(id.types(), &[("int", 2)]);

    let tags = s.keys.iter().find(|k| k.key() == "tags").unwrap();
    assert_eq!(tags.count(), 1);
    assert_eq!(number(tags.rate(s.object_records)), 0.5);
}

#[test]
fn a_key_with_mixed_types_records_both() {
    let text = "{\"v\":1}\n{\"v\":\"x\"}\n";
    let s = stats_for(text, StatsOptions::default());
    let v = s.keys.iter().find(|k| k.key() == "v").unwrap();
    assert_eq!(v.count(), 2);
    assert_eq!(v.types(), &[("int", 1), ("string", 1)]);
}

#[test]
fn a_duplicate_key_in_one_object_counts_once() {
    let text = "{\"a\":1,\"a\":2}\n";
    let s = stats_for(text, StatsOptions::default());
    let a = s.keys.iter().find(|k| k.key() == "a").unwrap();
    assert_eq!(a.count(), 1);
}

#[test]
fn profiles_a_field_across_a_wildcard() {
    let text = "{\"messages\":[{\"role\":\"user\"},{\"role\":\"assistant\"},{\"role\":\"user\"}]}\n\
                 {\"messages\":[]}\n\
                 {\"other\":true}\n";
    let options = StatsOptions {
        fields: vec![FieldPath::parse("messages[].role").unwrap()],
        ..StatsOptions::default()
    };
    let s = stats_for(text, options);
    let field = &s.fields[0];
    assert_eq!(field.present(), 1);
    assert_eq!(field.values(), 3);
    assert_eq!(field.types(), &[("string", 3)]);
    assert_eq!(number(field.present_rate(s.valid)), 1.0 / 3.0);
    assert_eq!(
        field.top(10),
        vec![("\"user\"", 2), ("\"assistant\"", 1)],
    );
}

#[test]
fn field_top_breaks_ties_alphabetically() {
    let text = "{\"v\":\"b\"}\n{\"v\":\"a\"}\n";
    let options = StatsOptions {
        fields: vec![FieldPath::parse("v").unwrap()],
        ..StatsOptions::default()
    };
    let s = stats_for(text, options);
    assert_eq!(s.fields[0].top(5), vec![("\"a\"", 1), ("\"b\"", 1)]);
}

#[test]
fn truncates_the_key_table_past_the_cap() {
    let mut line = String::from("{");
    for i in 0..(MAX_KEYS + 1) {
        if i > 0 {
            line.push(',');
        }
        line.push_str(&format!("\"k{}\":1", i));
    }
    line.push_str("}\n");
    let s = stats_for(&line, StatsOptions::default());
    assert_eq!(s.keys.len(), MAX_KEYS);
    assert!(s.keys_truncated);
}

#[test]
fn truncates_the_field_value_table_past_the_cap() {
    let mut text = String::new();
    for i in 0..(MAX_FIELD_VALUES + 1) {
        text.push_str(&format!("{{\"v\":\"{}\"}}\n", i));
    }
    let options = StatsOptions {
        fields: vec![FieldPath::parse("v").unwrap()],
        ..StatsOptions::default()
    };
    let s = stats_for(&text, options);
    let field = &s.fields[0];
    assert_eq!(field.values(), (MAX_FIELD_VALUES + 1) as u64);
    assert_eq!(field.distinct(), MAX_FIELD_VALUES);
    assert!(field.truncated());
}

#[test]
fn stats_write_report_includes_the_expected_sections() {
    let text = "{\"id\":1,\"meta\":{\"source\":\"web\"}}\n{bad}\n";
    let options = StatsOptions {
        fields: vec![FieldPath::parse("meta.source").unwrap()],
        ..StatsOptions::default()
    };
    let s = stats_for(text, options);
    let report = printed(&s.write_report("sample.jsonl", 10));
    assert!(report.contains("file    sample.jsonl"));
    assert!(report.contains("lines   2   blank 0   invalid 1   valid 1"));
    assert!(report.contains("top level keys over 1 objects"));
    assert!(report.contains("field meta.source"));
    assert!(report.contains("\"web\""));
    assert!(report.contains("invalid lines (1 total, showing 1)"));
}

#[test]
fn to_json_reports_line_length_and_issue_details() {
    let text = "{\"a\":1}\n{bad}\n";
    let s = stats_for(text, StatsOptions::default());
    let json = s.to_json();
    assert_eq!(json.get("lines").and_then(Value::as_i64), Some(2));
    assert_eq!(json.get("valid").and_then(Value::as_i64), Some(1));
    assert_eq!(json.get("invalid").and_then(Value::as_i64), Some(1));

    let line_length = json.get("line_length").unwrap();
    assert_eq!(line_length.get("min").and_then(Value::as_i64), Some(5));
    assert_eq!(line_length.get("max").and_then(Value::as_i64), Some(7));

    let issues = json.get("issues").unwrap().as_array().unwrap();
    assert_eq!(issues.len(), 1);
    assert_eq!(issues[0].get("line").and_then(Value::as_i64), Some(2));
}

#[test]
fn empty_input_reports_zero_everything() {
    let s = stats_for("", StatsOptions::default());
    assert_eq!(s.lines, 0);
    assert_eq!(s.valid, 0);
    assert!(s.line_length.min().is_none());

    assert!(printed(&s.write_report("-", 10)).contains("lines   0"));
}

#[test]
fn the_whole_report_reads_as_documented() {
    let text = "{\"id\":1,\"meta\":{\"source\":\"web\"}}\n{bad}\n";
    let s = stats_for(text, profiling("meta.source"));
    let mut expected = String::new();
    expected.push_str("file    sample.jsonl\n");
    expected.push_str("lines   2   blank 0   invalid 1   valid 1\n");
    expected.push_str("bytes   37   (0.0 KiB)\n");
    expected.push_str("top level  object:1\n");
    expected.push_str("\n");
    expected.push_str("line length in bytes\n");
    expected.push_str("  min 5   p50 5   p90 32   p99 32   max 32   mean 18.5\n");
    expected.push_str("\n");
    expected.push_str("top level keys over 1 objects\n");
    expected.push_str("  key                          count     rate  types\n");
    expected.push_str("  id                                  1  100.0%  int:1\n");
    expected.push_str("  meta                                1  100.0%  object:1\n");
    expected.push_str("\n");
    expected.push_str("field meta.source\n");
    expected.push_str("  present in 1 of 1 records (100.0%), 1 values, types string:1\n");
    expected.push_str("  1 distinct values\n");
    expected.push_str("         1  100.0%  \"web\"\n");
    expected.push_str("\n");
    expected.push_str("invalid lines (1 total, showing 1)\n");
    expected.push_str("  line 2 col 2: expected a quoted object key\n");
    assert_eq!(printed(&s.write_report("sample.jsonl", 10)), expected);
}

#[test]
fn truncated_tables_are_noted_in_the_report() {
    let mut text = String::from("{");
    for i in 0..(MAX_KEYS + 1) {
        text.push_str(&format!("{}\"k{}\":1", if i > 0 { "," } else { "" }, i));
    }
    text.push_str("}\n");
    for i in 0..(MAX_FIELD_VALUES + 1) {
        text.push_str(&format!("{{\"v\":{}}}\n", i));
    }
    let report = printed(&stats_for(&text, profiling("v")).write_report("-", 1));
    assert!(report.contains("  ... key table truncated at 512 keys\n"));
    assert!(report.contains("  10000 distinct values (truncated)\n         1  0.0%  0\n"));
    assert!(report.contains("lines   10,002   blank 0   invalid 0   valid 10,002\n"));
}

#[test]
fn keys_are_padded_by_characters() {
    let s = stats_for("{\"\u{e9}\":1}\n", StatsOptions::default());
    let report = printed(&s.write_report("-", 0));
    assert!(report.contains(&format!("  \u{e9}{} {:>8}  100.0%  int:1\n", " ".repeat(27), 1)));
}

#[test]
fn shares_are_exact_quotients() {
    let s = stats_for("{\"a\":1}\n{\"b\":1}\n{\"a\":2}\n", profiling("a"));
    assert_eq!(s.keys[0].rate(s.object_records), Ratio { part: 2, whole: 3 });
    assert_eq!(s.keys[0].rate(0), Ratio { part: 0, whole: 1 });
    assert_eq!(s.fields[0].present_rate(s.valid), Ratio { part: 2, whole: 3 });
    assert_eq!(s.fields[0].present_rate(0), Ratio { part: 0, whole: 1 });
}

#[test]
fn line_endings_and_blank_lines() {
    let s = stats_for("1\r\n \t\r\n2", StatsOptions::default());
    assert_eq!((s.lines, s.blank, s.valid, s.invalid, s.bytes), (3, 1, 2, 0, 2));
    let (line, rest) = split_line(b"ab\r\ncd");
    assert_eq!((line, rest), (&b"ab"[..], &b"cd"[..]));
    let (line, rest) = split_line(b"\n");
    assert_eq!((line, rest), (&b""[..], &b""[..]));
}

#[test]
fn the_column_of_invalid_utf8_follows_the_valid_prefix() {
    let s = Stats::from_reader(b"[\"\xc3\xa9\xff\"]", StatsOptions::default());
    assert_eq!((s.issues[0].line, s.issues[0].column), (1, 5));
    assert_eq!(s.issues[0].reason, "invalid UTF-8");
}

#[test]
fn every_line_is_counted_once() {
    let s = stats_for("1\n\nx\n{}\n \n]\n", StatsOptions::default());
    assert_eq!(s.lines, s.blank + s.valid + s.invalid);
    assert_eq!((s.blank, s.valid, s.invalid), (2, 2, 2));
    let lines: Vec<u64> = s.issues.iter().map(|issue| issue.line).collect();
    assert_eq!(lines, vec![3, 6]);
    assert_eq!(s.issues[1].reason, "unexpected ']'");
}

#[test]
fn type_counts_add_up() {
    let s = stats_for("{\"v\":1}\n{\"v\":null}\n[]\n{\"v\":2}\n", profiling("v"));
    let sum = |types: &[(&'static str, u64)]| types.iter().map(|t| t.1).sum::<u64>();
    assert_eq!(sum(&s.top_level), s.valid);
    assert_eq!(sum(s.keys[0].types()), s.keys[0].count());
    assert_eq!(sum(s.fields[0].types()), s.fields[0].values());
    assert_eq!(s.fields[0].types(), &[("int", 2), ("null", 1)]);
    assert_eq!(s.fields[0].values(), s.fields[0].present());
}

#[test]
fn fewer_top_values_are_a_prefix_of_more() {
    let s = stats_for("[3,1,2,3,2,3,\"1\"]\n", profiling("[]"));
    let all = s.fields[0].top(10);
    assert_eq!(all, vec![("3", 3), ("2", 2), ("\"1\"", 1), ("1", 1)]);
    for n in 0..5usize {
        assert_eq!(s.fields[0].top(n)[..], all[..n.min(4)]);
    }
    assert_eq!(s.fields[0].path().as_str(), "[]");
}

#[test]
fn quantiles_of_line_lengths() {
    let mut text = String::new();
    for i in 1..101usize {
        text.push_str(&format!("{}\n", "1".repeat(i)));
    }
    let s = stats_for(&text, StatsOptions::default());
    assert_eq!(s.line_length.min(), Some(1));
    assert_eq!(s.line_length.quantile(0), Some(1));
    assert_eq!(s.line_length.quantile(50), Some(50));
    assert_eq!(s.line_length.quantile(90), Some(90));
    assert_eq!(s.line_length.quantile(99), Some(99));
    assert_eq!(s.line_length.quantile(100), Some(100));
    assert_eq!(s.line_length.max(), Some(100));
    assert_eq!(s.line_length.mean(), Some(Ratio { part: 5050, whole: 100 }));
}

#[test]
fn a_pass_can_be_made_in_pieces() {
    let first = "{\"a\":1}\nbad\n";
    let second = "\n{\"a\":[2]}\n{\"b\":1}";
    let whole = stats_for(&format!("{}{}", first, second), profiling("a"));
    let mut pieces = Stats::new(&[FieldPath::parse("a").unwrap()]);
    for text in [first, second] {
        let mut rest = text.as_bytes();
        while !rest.is_empty() {
            let (line, after) = split_line(rest);
            pieces.record_line(line, 10);
            rest = after;
        }
    }
    assert_eq!(pieces.to_json(), whole.to_json());
    assert_eq!(pieces.write_report("-", 5), whole.write_report("-", 5));
}

#[test]
fn the_whole_json_report() {
    let s = stats_for("{\"a\":\"x\"}\n[\n", profiling("a"));
    let int = |n: i64| Value::Int(n);
    let text = |t: &str| Value::Str(t.to_string());
    let ratio = |part: u64, whole: u64| Value::Ratio(Ratio { part, whole });
    let object = |members: Vec<(&str, Value)>| {
        Value::Object(members.into_iter().map(|(k, v)| (k.to_string(), v)).collect())
    };
    let expected = object(vec![
        ("lines", int(2)),
        ("blank", int(0)),
        ("valid", int(1)),
        ("invalid", int(1)),
        ("bytes", int(10)),
        ("top_level", object(vec![("object", int(1))])),
        (
            "line_length",
            object(vec![
                ("min", int(1)),
                ("p50", int(1)),
                ("p90", int(9)),
                ("p99", int(9)),
                ("max", int(9)),
                ("mean", ratio(10, 2)),
            ]),
        ),
        (
            "keys",
            Value::Array(vec![object(vec![
                ("key", text("a")),
                ("count", int(1)),
                ("rate", ratio(1, 1)),
                ("types", object(vec![("string", int(1))])),
            ])]),
        ),
        (
            "fields",
            Value::Array(vec![object(vec![
                ("path", text("a")),
                ("present", int(1)),
                ("values", int(1)),
                ("types", object(vec![("string", int(1))])),
                ("distinct", int(1)),
                ("truncated", Value::Bool(false)),
            ])]),
        ),
        (
            "issues",
            Value::Array(vec![object(vec![
                ("line", int(2)),
                ("column", int(2)),
                ("reason", text("unexpected end of input")),
            ])]),
        ),
    ]);
    assert_eq!(s.to_json(), expected);
}

#[test]
fn large_counters_are_grouped_by_threes() {
    assert_eq!(jsonl_peek::text::with_commas(0), "0");
    assert_eq!(jsonl_peek::text::with_commas(999), "999");
    assert_eq!(jsonl_peek::text::with_commas(1000), "1,000");
    assert_eq!(jsonl_peek::text::with_commas(1234567), "1,234,567");
    assert_eq!(jsonl_peek::text::with_commas(u64::MAX), "18,446,744,073,709,551,615");
}

#[test]
fn grouping_adds_commas_only() {
    for n in [7u64, 1000, 65536, 10_000_000, u64::MAX] {
        assert_eq!(jsonl_peek::text::with_commas(n).replace(',', ""), format!("{}", n));
    }
}

#[test]
fn full_tables_are_not_truncated() {
    let mut text = String::from("{");
    for i in 0..MAX_KEYS {
        text.push_str(&format!("{}\"k{}\":1", if i > 0 { "," } else { "" }, i));
    }
    text.push_str("}\n");
    let s = stats_for(&text, StatsOptions::default());
    assert_eq!(s.keys.len(), MAX_KEYS);
    assert!(!s.keys_truncated);

    let mut text = String::new();
    for i in 0..MAX_FIELD_VALUES {
        text.push_str(&format!("{{\"v\":{}}}\n", i));
    }
    let s = stats_for(&text, profiling("v"));
    assert_eq!(s.fields[0].distinct(), MAX_FIELD_VALUES);
    assert!(!s.fields[0].truncated());
}

#[test]
fn a_full_value_table_still_counts_what_it_holds() {
    let mut text = String::new();
    for i in 0..(MAX_FIELD_VALUES + 5) {
        text.push_str(&format!("{{\"v\":{}}}\n", i));
    }
    text.push_str("{\"v\":3}\n{\"v\":10004}\n");
    let s = stats_for(&text, profiling("v"));
    assert_eq!(s.fields[0].top(1), vec![("3", 2)]);
    assert_eq!(s.fields[0].values(), (MAX_FIELD_VALUES + 7) as u64);
}

#[test]
fn the_order_of_lines_does_not_change_the_lengths() {
    let one = stats_for("1\n22\n22\n333\n", StatsOptions::default());
    let other = stats_for("22\n333\n1\n22\n", StatsOptions::default());
    assert_eq!(one.to_json().get("line_length"), other.to_json().get("line_length"));
    assert_eq!(one.line_length.mean(), Some(Ratio { part: 8, whole: 4 }));
}

#[test]
fn values_with_equal_json_texts_are_one_value() {
    let s = stats_for("{\"v\":[ 1,{} ]}\n{\"v\":[1, { }]}\n{\"v\":\"1\"}\n{\"v\":1}\n", profiling("v"));
    assert_eq!(s.fields[0].top(9), vec![("[1,{}]", 2), ("\"1\"", 1), ("1", 1)]);
}

#[test]
fn a_pass_continues_with_lines_that_were_read_already() {
    let rounded = |line: Line| match line {
        Line::Record(Value::Float(text)) => {
            Line::Record(Value::Float(format!("{:?}", text.parse::<f64>().unwrap())))
        }
        other => other,
    };
    let mut s = Stats::new(&[FieldPath::parse("[0]").unwrap()]);
    for line in ["1.5", "", "1.50", "x", "[1.50]"] {
        s.record_content(rounded(read_line(line.as_bytes())), line.len(), 10);
    }
    assert_eq!((s.lines, s.blank, s.valid, s.invalid, s.bytes), (5, 1, 3, 1, 14));
    assert_eq!(s.top_level, vec![("float", 2), ("array", 1)]);
    assert_eq!(s.fields[0].top(5), vec![("1.5", 1)]);
    assert_eq!((s.issues[0].line, s.issues[0].column), (4, 1));
}

#[test]
fn top_values_were_counted_at_least_once() {
    let s = stats_for("[1,2,2]\n[]\n", profiling("[]"));
    assert!(s.fields[0].top(10).iter().all(|one| one.1 >= 1));
    assert!(s.fields[0].top(0).is_empty());
    assert!(stats_for("[]\n", profiling("[]")).fields[0].top(10).is_empty());
}

#[test]
fn numbers_that_are_equal_are_one_value() {
    let s = stats_for("{\"v\":1.5}\n{\"v\":1.50}\n{\"v\":15e-1}\n{\"v\":2.5}\n", profiling("v"));
    assert_eq!(s.fields[0].top(9), vec![("1.5", 3), ("2.5", 1)]);
    assert_eq!(s.fields[0].distinct(), 2);
}

#[test]
fn a_field_is_profiled_record_by_record() {
    let mut field = FieldStats::new(FieldPath::parse("tags[]").unwrap());
    for text in ["{\"tags\":[\"a\",\"b\",1]}", "{\"other\":[1,2,3]}", "{\"tags\":[]}", "{\"tags\":[\"a\"]}"] {
        field.record(&parse(text).unwrap());
    }
    assert_eq!((field.present(), field.values(), field.distinct()), (2, 4, 3));
    assert_eq!(field.types().to_vec(), vec![("string", 3), ("int", 1)]);
    assert_eq!(field.top(1), vec![("\"a\"", 2)]);
    assert!(!field.truncated());
}
