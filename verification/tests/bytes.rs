//! The one byte form of values, and how texts are read.
use jev_datafusion::canonical::canonical_bytes;
use jev_datafusion::json::JsonValue;
use jev_datafusion::number::canonical_number;
use jev_datafusion::parse::{
    json_text_value, parse_json_value, parse_structured_text, parse_value, structured_text,
};

#[test]
fn numbers_of_one_value_have_one_spelling() {
    for (text, expected) in [
        ("0", "0"),
        ("-0.0", "0"),
        ("0e99", "0"),
        ("1.0", "1"),
        ("10e-1", "1"),
        ("1E2", "100"),
        ("-12.50", "-12.5"),
        ("0.001", "0.001"),
        ("123456789012345678901.2500", "123456789012345678901.25"),
        ("123456789012345678901234567890.1250", "1.23456789012345678901234567890125e+29"),
        ("0.0000012", "0.0000012"),
        ("0.00000012", "1.2e-7"),
    ] {
        assert_eq!(canonical_number(text).unwrap(), expected, "{text}");
    }
    assert_eq!(canonical_number("1e400").unwrap(), canonical_number("10e399").unwrap());
    assert_eq!(canonical_number("1e-400").unwrap(), canonical_number("0.1e-399").unwrap());
    assert!(canonical_number("1e99999999999999999999999").is_err());
}

#[test]
fn members_are_sorted_and_texts_are_quoted() {
    let value = JsonValue::Object(vec![
        ("b".into(), JsonValue::Array(vec![JsonValue::Bool(true), JsonValue::Null])),
        ("a\n".into(), JsonValue::Text("\u{1}\"é".into())),
        ("b".into(), JsonValue::Bool(false)),
    ]);
    assert_eq!(
        String::from_utf8(canonical_bytes(&value).unwrap()).unwrap(),
        "{\"a\\n\":\"\\u0001\\\"é\",\"b\":false}"
    );
}

#[test]
fn strict_texts_are_read_exactly() {
    let value = parse_json_value(r#" {"z": [1.50, "A", {}], "a": null} "#).unwrap();
    assert_eq!(
        canonical_bytes(&value).unwrap(),
        r#"{"a":null,"z":[1.5,"A",{}]}"#.as_bytes()
    );
    assert_eq!(
        parse_json_value("[1,]").unwrap_err().message,
        "Jev input contains invalid JSON"
    );
    let message = parse_json_value(r#"{"a":1,"a":2}"#).unwrap_err().message;
    assert!(message.contains("duplicate"), "{message}");
    assert!(json_text_value("[[]]", 63).unwrap_err().message.contains("64 nesting levels"));
    assert!(json_text_value("[[]]", 62).is_ok());
}

#[test]
fn what_is_written_is_read_back() {
    let number = |text: &str| JsonValue::Number(text.into());
    let mut nested = JsonValue::Text("\u{7f}".into());
    for _ in 0..63 {
        nested = JsonValue::Array(vec![nested]);
    }
    for value in [
        JsonValue::Null,
        JsonValue::Bool(true),
        number("-12.50"),
        number("123456789012345678901234567890.1250"),
        number("1e-400"),
        JsonValue::Text("\u{0}\u{8}\u{c}\n\r\t\u{1f}\\\"/ é\u{2028}\u{1f600}".into()),
        JsonValue::Array(vec![]),
        JsonValue::Object(vec![]),
        JsonValue::Object(vec![
            ("$serde_json::private::Number".into(), number("1.0")),
            ("a\"\\".into(), JsonValue::Array(vec![JsonValue::Null, number("0.5")])),
            ("".into(), JsonValue::Object(vec![("b".into(), JsonValue::Bool(false))])),
            ("a\"\\".into(), JsonValue::Array(vec![JsonValue::Text("]}".into()), number("1e2")])),
        ]),
        nested,
    ] {
        let bytes = canonical_bytes(&value).unwrap();
        let read = parse_json_value(std::str::from_utf8(&bytes).unwrap()).unwrap();
        assert_eq!(canonical_bytes(&read).unwrap(), bytes);
    }
}

#[test]
fn texts_are_structured_only_where_they_are_containers() {
    assert_eq!(parse_structured_text("[1]").unwrap(), Some(parse_json_value("[1]").unwrap()));
    assert_eq!(parse_structured_text("1").unwrap(), None);
    assert_eq!(parse_structured_text("{broken").unwrap(), None);
    assert!(parse_structured_text(r#"{"a":1,"a":2}"#).is_err());
    assert_eq!(structured_text("[1]".into()), parse_json_value("[1]").unwrap());
    assert_eq!(structured_text("x".into()), JsonValue::Text("x".into()));
}

#[test]
fn responses_are_read_leniently() {
    let value = parse_value(r#"{"a":1,"a":{"$serde_json::private::Number":"7"}}"#).unwrap();
    let inner = value.member("a");
    assert_eq!(
        inner.member("$serde_json::private::Number"),
        JsonValue::Text("7".into())
    );
    assert_eq!(parse_value("{"), None);
    assert_eq!(parse_value(r#""é""#), Some(JsonValue::Text("é".into())));
    let deep = |levels: usize| format!("{}{}", "[".repeat(levels), "]".repeat(levels));
    assert!(parse_value(&deep(127)).is_some());
    assert!(parse_value(&deep(128)).is_none());
}

#[test]
fn values_with_other_meanings_have_other_bytes() {
    let texts = [
        "null", "false", "0", "\"0\"", "\"\"", "[]", "[[]]", "[0,0]", "[\"0,0\"]", "[[0],0]",
        "{}", r#"{"a":0}"#, r#"{"a":[0]}"#, r#"{"a":0,"b":0}"#, r#"{"a\":0,\"b":0}"#, "0.1", "-0.1",
    ];
    let all: Vec<Vec<u8>> = texts
        .iter()
        .map(|text| canonical_bytes(&parse_json_value(text).unwrap()).unwrap())
        .collect();
    for i in 0..all.len() {
        for j in 0..i {
            assert_ne!(all[i], all[j], "{} {}", texts[i], texts[j]);
        }
    }
}
