use jsonl_peek::json::{parse as parse_json, Value};
use jsonl_peek::path::{FieldPath, Segment};

#[test]
fn parses_a_bare_key() {
    let p = FieldPath::parse("role").unwrap();
    assert_eq!(p.segments(), &[Segment::Key("role".to_string())]);
    assert_eq!(p.as_str(), "role");
}

#[test]
fn parses_a_dotted_path() {
    let p = FieldPath::parse("meta.source").unwrap();
    assert_eq!(
        p.segments(),
        &[Segment::Key("meta".to_string()), Segment::Key("source".to_string())]
    );
}

#[test]
fn parses_a_fixed_index() {
    let p = FieldPath::parse("messages[0].content").unwrap();
    assert_eq!(
        p.segments(),
        &[
            Segment::Key("messages".to_string()),
            Segment::Index(0),
            Segment::Key("content".to_string()),
        ]
    );
}

#[test]
fn parses_a_negative_index() {
    let p = FieldPath::parse("messages[-1].content").unwrap();
    assert_eq!(
        p.segments(),
        &[
            Segment::Key("messages".to_string()),
            Segment::Index(-1),
            Segment::Key("content".to_string()),
        ]
    );
}

#[test]
fn parses_a_wildcard() {
    let p = FieldPath::parse("messages[].role").unwrap();
    assert_eq!(
        p.segments(),
        &[
            Segment::Key("messages".to_string()),
            Segment::All,
            Segment::Key("role".to_string()),
        ]
    );
}

#[test]
fn parses_a_leading_index() {
    let p = FieldPath::parse("[0].id").unwrap();
    assert_eq!(p.segments(), &[Segment::Index(0), Segment::Key("id".to_string())]);
}

#[test]
fn rejects_empty_and_malformed_paths() {
    assert!(FieldPath::parse("").is_err());
    assert!(FieldPath::parse("a..b").is_err());
    assert!(FieldPath::parse(".a").is_err());
    assert!(FieldPath::parse("a[").is_err());
    assert!(FieldPath::parse("a[x]").is_err());
    assert!(FieldPath::parse("a]b").is_err());
}

#[test]
fn resolves_a_simple_key() {
    let record = parse_json(r#"{"role":"user"}"#).unwrap();
    let p = FieldPath::parse("role").unwrap();
    assert_eq!(p.resolve(&record), vec![&Value::Str("user".to_string())]);
}

#[test]
fn resolves_a_missing_key_to_nothing() {
    let record = parse_json(r#"{"role":"user"}"#).unwrap();
    let p = FieldPath::parse("meta.source").unwrap();
    assert!(p.resolve(&record).is_empty());
}

#[test]
fn resolves_a_wildcard_across_an_array() {
    let record =
        parse_json(r#"{"messages":[{"role":"user"},{"role":"assistant"},{"role":"user"}]}"#).unwrap();
    let p = FieldPath::parse("messages[].role").unwrap();
    let roles: Vec<&str> = p.resolve(&record).iter().filter_map(|v| v.as_str()).collect();
    assert_eq!(roles, vec!["user", "assistant", "user"]);
}

#[test]
fn resolves_positive_and_negative_indices() {
    let record = parse_json(r#"{"messages":[{"role":"user"},{"role":"assistant"}]}"#).unwrap();
    let first = FieldPath::parse("messages[0].role").unwrap();
    let last = FieldPath::parse("messages[-1].role").unwrap();
    assert_eq!(first.resolve(&record)[0].as_str(), Some("user"));
    assert_eq!(last.resolve(&record)[0].as_str(), Some("assistant"));
}

#[test]
fn out_of_range_index_resolves_to_nothing() {
    let record = parse_json(r#"{"messages":[{"role":"user"}]}"#).unwrap();
    let p = FieldPath::parse("messages[5].role").unwrap();
    assert!(p.resolve(&record).is_empty());
    let p = FieldPath::parse("messages[-9].role").unwrap();
    assert!(p.resolve(&record).is_empty());
}

#[test]
fn indexing_a_non_array_resolves_to_nothing() {
    let record = parse_json(r#"{"role":"user"}"#).unwrap();
    let p = FieldPath::parse("role[0]").unwrap();
    assert!(p.resolve(&record).is_empty());
    let p = FieldPath::parse("role[]").unwrap();
    assert!(p.resolve(&record).is_empty());
}

#[test]
fn resolves_records_that_are_themselves_arrays() {
    let record = parse_json(r#"[{"id":1},{"id":2}]"#).unwrap();
    let p = FieldPath::parse("[1].id").unwrap();
    assert_eq!(p.resolve(&record), vec![&Value::Int(2)]);
}

#[test]
fn display_round_trips_the_original_text() {
    let p = FieldPath::parse("messages[].role").unwrap();
    assert_eq!(p.to_string(), "messages[].role");
}

fn message(path: &str) -> String {
    FieldPath::parse(path).unwrap_err().message().to_string()
}

#[test]
fn each_malformed_path_has_its_message() {
    assert_eq!(message(""), "field path is empty");
    assert_eq!(message("a..b"), "empty segment in 'a..b'");
    assert_eq!(message("a."), "empty segment in 'a.'");
    assert_eq!(message("a]b"), "unexpected ']' in 'a]b'");
    assert_eq!(message("a[0]b"), "expected '[' in 'a[0]b'");
    assert_eq!(message("a[0"), "unterminated '[' in 'a[0'");
    assert_eq!(message("a[x]"), "invalid array index 'x' in 'a[x]'");
    assert_eq!(message("a[-]"), "invalid array index '-' in 'a[-]'");
    assert_eq!(message("a[1.5]"), "unterminated '[' in 'a[1.5]'");
}

#[test]
fn the_first_fault_counts() {
    assert_eq!(message("a]b..c"), "unexpected ']' in 'a]b..c'");
    assert_eq!(message("[0]x[y]"), "expected '[' in '[0]x[y]'");
}

#[test]
fn indices_cover_the_whole_range_of_an_i64() {
    let p = FieldPath::parse("[9223372036854775807][-9223372036854775808][+7]").unwrap();
    assert_eq!(
        p.segments(),
        &[Segment::Index(i64::MAX), Segment::Index(i64::MIN), Segment::Index(7)]
    );
    assert_eq!(
        message("[9223372036854775808]"),
        "invalid array index '9223372036854775808' in '[9223372036854775808]'"
    );
    assert!(FieldPath::parse("[-9223372036854775809]").is_err());
    let record = parse_json("[1,2]").unwrap();
    let p = FieldPath::parse("[-9223372036854775808]").unwrap();
    assert!(p.resolve(&record).is_empty());
    let p = FieldPath::parse("[9223372036854775807]").unwrap();
    assert!(p.resolve(&record).is_empty());
}

#[test]
fn keys_may_hold_any_other_character() {
    let record = parse_json("{\"größe\":{\"a b\":3}}").unwrap();
    let p = FieldPath::parse("größe.a b").unwrap();
    assert_eq!(p.resolve(&record), vec![&Value::Int(3)]);
    assert_eq!(p.clone(), p);
}

#[test]
fn fan_outs_nest() {
    let record = parse_json("[[1,2],[],[3],4]").unwrap();
    let p = FieldPath::parse("[][]").unwrap();
    assert_eq!(p.resolve(&record), vec![&Value::Int(1), &Value::Int(2), &Value::Int(3)]);
}

#[test]
fn a_repeated_key_selects_its_first_member() {
    let record = parse_json(r#"{"a":1,"a":2}"#).unwrap();
    let p = FieldPath::parse("a").unwrap();
    assert_eq!(p.resolve(&record), vec![&Value::Int(1)]);
}

#[test]
fn joining_paths_by_a_dot_resolves_one_inside_the_other() {
    let record = parse_json(r#"{"a":[{"b":[1,2]},{"b":[3]}]}"#).unwrap();
    let whole = FieldPath::parse("a[].b[0]").unwrap();
    let outer = FieldPath::parse("a[]").unwrap();
    let inner = FieldPath::parse("b[0]").unwrap();
    let mut stepwise: Vec<&Value> = Vec::new();
    for value in outer.resolve(&record) {
        stepwise.extend(inner.resolve(value));
    }
    assert_eq!(whole.resolve(&record), stepwise);
    assert_eq!(stepwise, vec![&Value::Int(1), &Value::Int(3)]);
}

#[test]
fn a_path_without_a_fan_out_names_at_most_one_value() {
    let record = parse_json(r#"{"a":[[1,2],[3]],"b":{"c":4}}"#).unwrap();
    for text in ["a", "a[0]", "a[-1][0]", "b.c", "b.d", "a[0][7]"] {
        assert!(FieldPath::parse(text).unwrap().resolve(&record).len() <= 1);
    }
    assert_eq!(FieldPath::parse("a[][]").unwrap().resolve(&record).len(), 3);
}

#[test]
fn steps_are_spelled_and_read_back() {
    let p = FieldPath::parse("a[][-3].b c[0]").unwrap();
    assert_eq!(
        p.segments(),
        &[
            Segment::Key("a".to_string()),
            Segment::All,
            Segment::Index(-3),
            Segment::Key("b c".to_string()),
            Segment::Index(0),
        ]
    );
    assert_eq!(p.as_str(), "a[][-3].b c[0]");
}

#[test]
fn the_steps_have_the_shape_of_the_path() {
    for text in ["a", "a.b", "[0]", "[].a[1][].b", "x[-1].y.z[][]", "a[+3]"] {
        let p = FieldPath::parse(text).unwrap();
        let keys: Vec<&String> = p
            .segments()
            .iter()
            .filter_map(|segment| match segment {
                Segment::Key(key) => Some(key),
                _ => None,
            })
            .collect();
        assert!(p.segments().len() >= text.split('.').count());
        assert_eq!(keys.len(), text.split('.').filter(|part| !part.starts_with('[')).count());
        assert_eq!(p.segments().len() - keys.len(), text.matches('[').count());
        assert!(keys.iter().all(|key| !key.is_empty() && !key.contains(['.', '[', ']'])));
    }
}

#[test]
fn a_dot_joins_paths_and_faults() {
    for first in ["", "a", "a[0]", "a]", "[x]"] {
        for second in ["", "b", "[]", "b["] {
            let joined = FieldPath::parse(&format!("{}.{}", first, second));
            let both = (FieldPath::parse(first), FieldPath::parse(second));
            assert_eq!(joined.is_ok(), both.0.is_ok() && both.1.is_ok());
            if let (Ok(whole), Ok(a), Ok(b)) = (joined, both.0, both.1) {
                let mut steps: Vec<Segment> = a.segments().to_vec();
                steps.extend_from_slice(b.segments());
                assert_eq!(whole.segments(), &steps[..]);
            }
        }
    }
    assert_eq!(message(".b"), "empty segment in '.b'");
}
