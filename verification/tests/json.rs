use jsonl_peek::grammar::{parse, ErrorKind, ParseError, MAX_DEPTH};
use jsonl_peek::json::Value;
use jsonl_peek::ratio::Ratio;

fn error(text: &str) -> ParseError {
    parse(text).unwrap_err()
}

#[test]
fn parses_every_kind_of_value() {
    let value = parse(" { \"a\" : [ null , true , false , -12 , 1.50e+3 , \"x\" ] , \"b\" : { } } ").unwrap();
    let expected = Value::Object(vec![
        (
            "a".to_string(),
            Value::Array(vec![
                Value::Null,
                Value::Bool(true),
                Value::Bool(false),
                Value::Int(-12),
                Value::Float("1500.0".to_string()),
                Value::Str("x".to_string()),
            ]),
        ),
        ("b".to_string(), Value::Object(vec![])),
    ]);
    assert_eq!(value, expected);
}

#[test]
fn names_every_kind_of_value() {
    let names: Vec<&str> = parse("[null,true,1,1.0,\"\",[],{}]")
        .unwrap()
        .as_array()
        .unwrap()
        .iter()
        .map(|v| v.kind_name())
        .collect();
    assert_eq!(names, vec!["null", "bool", "int", "float", "string", "array", "object"]);
    assert_eq!(Value::Ratio(Ratio { part: 1, whole: 2 }).kind_name(), "float");
}

#[test]
fn integers_beyond_an_i64_are_floats() {
    assert_eq!(parse("9223372036854775807").unwrap(), Value::Int(i64::MAX));
    assert_eq!(parse("-9223372036854775808").unwrap(), Value::Int(i64::MIN));
    assert_eq!(
        parse("9223372036854775808").unwrap(),
        Value::Float("9223372036854775808.0".to_string())
    );
}

#[test]
fn string_escapes_stand_for_their_characters() {
    let value = parse(r#""\"\\\/\b\f\n\r\t\u0041\u00e9\ud83d\ude00""#).unwrap();
    assert_eq!(value.as_str(), Some("\"\\/\u{8}\u{c}\n\r\tA\u{e9}\u{1f600}"));
}

#[test]
fn renders_compact_json() {
    let text = "{ \"a\" : [ 1 , -2.5 , \"q\\\"\\\\\\n\\u0001\\u00e9\" ] , \"b\" : null }";
    assert_eq!(
        parse(text).unwrap().to_json(),
        "{\"a\":[1,-2.5,\"q\\\"\\\\\\n\\u0001\u{e9}\"],\"b\":null}"
    );
    assert_eq!(parse("[]").unwrap().to_json(), "[]");
    assert_eq!(parse("{}").unwrap().to_json(), "{}");
    assert_eq!(parse("-9223372036854775808").unwrap().to_json(), "-9223372036854775808");
}

#[test]
fn rendering_and_parsing_are_inverse() {
    let text = "[{\"k\":[true,false,null,0,-7,1e5,\"\\t\\u001f/\\u2028\"]},{},[],\"\"]";
    let value = parse(text).unwrap();
    assert_eq!(parse(&value.to_json()).unwrap(), value);
}

#[test]
fn each_kind_of_error_is_reported_where_it_is() {
    assert_eq!(error("[1,"), ParseError { offset: 3, kind: ErrorKind::UnexpectedEnd });
    assert_eq!(error("[,]"), ParseError { offset: 1, kind: ErrorKind::Unexpected(',') });
    assert_eq!(error("{\"a\":1,}"), ParseError { offset: 7, kind: ErrorKind::ExpectedKey });
    assert_eq!(error("{\"a\" 1}"), ParseError { offset: 5, kind: ErrorKind::ExpectedColon });
    assert_eq!(error("\"a\tb\""), ParseError { offset: 2, kind: ErrorKind::ControlCharacter });
    assert_eq!(error("\"\\x\"").kind, ErrorKind::InvalidEscape);
    assert_eq!(error("\"\\ud800\"").kind, ErrorKind::InvalidEscape);
    assert_eq!(error("1.").kind, ErrorKind::InvalidNumber);
    assert_eq!(error("1 2"), ParseError { offset: 2, kind: ErrorKind::Unexpected('2') });
    assert_eq!(error(""), ParseError { offset: 0, kind: ErrorKind::UnexpectedEnd });
}

#[test]
fn offsets_are_counted_in_bytes() {
    assert_eq!(error("[\"\u{e9}\u{1f600}\" x]"), ParseError { offset: 10, kind: ErrorKind::Unexpected('x') });
}

#[test]
fn each_kind_of_error_has_its_reason() {
    assert_eq!(ErrorKind::UnexpectedEnd.reason(), "unexpected end of input");
    assert_eq!(ErrorKind::Unexpected(',').reason(), "unexpected ','");
    assert_eq!(ErrorKind::ExpectedKey.reason(), "expected a quoted object key");
    assert_eq!(ErrorKind::ExpectedColon.reason(), "expected ':' after an object key");
    assert_eq!(ErrorKind::ControlCharacter.reason(), "unescaped control character in a string");
    assert_eq!(ErrorKind::InvalidEscape.reason(), "invalid escape sequence");
    assert_eq!(ErrorKind::InvalidNumber.reason(), "invalid number");
    assert_eq!(ErrorKind::TooDeep.reason(), "nested too deeply");
}

#[test]
fn nesting_is_bounded() {
    let deep = format!("{}{}", "[".repeat(MAX_DEPTH), "]".repeat(MAX_DEPTH));
    assert!(parse(&deep).is_ok());
    let deeper = format!("[{}]", deep);
    assert_eq!(error(&deeper), ParseError { offset: MAX_DEPTH, kind: ErrorKind::TooDeep });
}

#[test]
fn a_repeated_key_reads_as_its_first_member() {
    let value = parse(r#"{"a":1,"b":2,"a":3}"#).unwrap();
    assert_eq!(value.get("a").and_then(Value::as_i64), Some(1));
    assert_eq!(value.get("c"), None);
    assert_eq!(value.as_object().unwrap().len(), 3);
    assert_eq!(Value::Null.get("a"), None);
    assert_eq!(value.as_array(), None);
    assert_eq!(value.as_str(), None);
    assert_eq!(value.as_ratio(), None);
}

fn float(text: &str) -> String {
    parse(text).unwrap().to_json()
}

#[test]
fn equal_numbers_have_one_text() {
    for text in ["1.5", "1.50", "15e-1", "0.15E+1", "150.0e-002", "1.5e0"] {
        assert_eq!(float(text), "1.5");
    }
    for text in ["0.0", "0.000", "0e5", "0.0e-7"] {
        assert_eq!(float(text), "0.0");
    }
    assert_eq!(float("-0.0"), "-0.0");
    assert_eq!(float("-2.50"), "-2.5");
    assert_eq!(float("1e2"), "100.0");
    assert_eq!(float("1e20"), "100000000000000000000.0");
    assert_eq!(float("1e21"), "1.0e21");
    assert_eq!(float("12.5e30"), "1.25e31");
    assert_eq!(float("0.000001"), "0.000001");
    assert_eq!(float("0.0000001"), "1.0e-7");
    assert_eq!(float("123e-9"), "1.23e-7");
    assert_eq!(float("18446744073709551616"), "18446744073709551616.0");
}

#[test]
fn texts_of_numbers_stand_for_the_same_floating_point_number() {
    for text in ["3.14", "2.5e-3", "1e300", "4.9e-324", "0.1", "123456789.125", "-7.0e10", "1E0"] {
        assert_eq!(float(text).parse::<f64>().unwrap(), text.parse::<f64>().unwrap());
        assert_eq!(float(&float(text)), float(text));
    }
}

#[test]
fn vast_exponents_stay_as_they_are_written() {
    assert_eq!(float("1.50e1000000000"), "1.50e1000000000");
    assert_eq!(float("1.50e999999999"), "1.5e999999999");
    assert_eq!(float("1.50e-0000000001"), "0.15");
}
