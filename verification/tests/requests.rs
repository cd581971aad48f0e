//! Requests and questions as JSON.
use jev_datafusion::canonical::canonical_bytes;
use jev_datafusion::json::JsonValue;
use jev_datafusion::parse::parse_value;
use jev_datafusion::questions::{parse_criteria, parse_questions, validate_criteria};
use jev_datafusion::{JevQuestion, JevQuestionType, JevRequest};

const EVIDENCE: &str = r#"{
    "nested": [
        {"$serde_json::private::Number": "1"},
        {"$serde_json::private::RawValue": "true"},
        {"$serde_json::private::Number": "not a number", "other": 2},
        {"$serde_json::private::RawValue": "not JSON", "other": null},
        null,
        "",
        {},
        []
    ],
    "precise": 12345678901234567890.123456789012345678901234567890
}"#;

fn json(text: &str) -> JsonValue {
    parse_value(text).unwrap()
}

fn text(value: &str) -> JsonValue {
    JsonValue::Text(value.into())
}

fn object(members: Vec<(&str, JsonValue)>) -> JsonValue {
    JsonValue::Object(members.into_iter().map(|(name, value)| (name.into(), value)).collect())
}

fn evidence() -> JsonValue {
    object(vec![
        (
            "nested",
            JsonValue::Array(vec![
                object(vec![("$serde_json::private::Number", text("1"))]),
                object(vec![("$serde_json::private::RawValue", text("true"))]),
                object(vec![
                    ("$serde_json::private::Number", text("not a number")),
                    ("other", JsonValue::Number("2".into())),
                ]),
                object(vec![
                    ("$serde_json::private::RawValue", text("not JSON")),
                    ("other", JsonValue::Null),
                ]),
                JsonValue::Null,
                text(""),
                object(vec![]),
                JsonValue::Array(vec![]),
            ]),
        ),
        (
            "precise",
            JsonValue::Number("12345678901234567890.123456789012345678901234567890".into()),
        ),
    ])
}

#[test]
fn generated_jev_types_preserve_generic_json_from_text_and_values() {
    let expected = evidence();
    let written =
        format!(r#"{{"type":"noul", "instructions":{EVIDENCE}, "criteria":{EVIDENCE}}}"#);
    let question = JsonValue::Object(vec![
        ("type".into(), JsonValue::Text("noul".into())),
        ("instructions".into(), expected.clone()),
        ("criteria".into(), expected.clone()),
    ]);
    for decoded in [
        JevQuestion::from_json(&json(&written)).unwrap(),
        JevQuestion::from_json(&question).unwrap(),
    ] {
        assert_eq!(decoded.instructions, expected);
        assert_eq!(decoded.criteria, Some(expected.clone()));
    }
    let written = format!(
        r#"{{"state":{EVIDENCE}, "questions":{{"q":{written}}}, "model":"controlled-fixture"}}"#
    );
    let request = JsonValue::Object(vec![
        ("state".into(), expected.clone()),
        ("questions".into(), JsonValue::Object(vec![("q".into(), question)])),
        ("model".into(), JsonValue::Text("controlled-fixture".into())),
    ]);
    for decoded in [
        JevRequest::from_json(&json(&written)).unwrap(),
        JevRequest::from_json(&request).unwrap(),
    ] {
        assert_eq!(decoded.state, expected);
        assert_eq!(decoded.questions[0].0, "q");
        assert_eq!(decoded.questions[0].1.instructions, expected);
        assert_eq!(decoded.questions[0].1.criteria, Some(expected.clone()));
    }
}

#[test]
fn generated_jev_json_presence_and_null_semantics_are_unchanged() {
    for input in [
        r#"{"type":"noul","instructions":null}"#,
        r#"{"type":"noul","instructions":null,"criteria":null}"#,
    ] {
        let value = JevQuestion::from_json(&json(input)).unwrap();
        assert_eq!(value.instructions, JsonValue::Null);
        assert!(value.criteria.is_none());
    }
    assert!(JevQuestion::from_json(&json(r#"{"type":"noul"}"#)).is_none());
    assert!(JevRequest::from_json(&json(r#"{"questions":{},"model":"test"}"#)).is_none());
    let request =
        JevRequest::from_json(&json(r#"{"state":null,"questions":{},"model":"test"}"#)).unwrap();
    assert_eq!(request.state, JsonValue::Null);
    assert!(request.questions.is_empty());
}

#[test]
fn requests_read_back() {
    let text = r#"{"model":"m","questions":{"q0":{"criteria":["a","b"],"instructions":"i","type":"score"}},"state":{"n":1}}"#;
    let request = JevRequest::from_json(&json(text)).unwrap();
    assert_eq!(canonical_bytes(&request.to_json()).unwrap(), text.as_bytes());
    assert_eq!(JevRequest::from_json(&request.to_json()), Some(request));
}

#[test]
fn question_types_have_names() {
    for kind in JevQuestionType::ALL {
        assert_eq!(JevQuestionType::from_name(kind.as_str()), Some(kind));
    }
    assert_eq!(JevQuestionType::from_name("Noul"), None);
}

#[test]
fn criteria_fit_their_question() {
    let check = |kind: &str, text: Option<&str>| {
        validate_criteria(kind, &text.map(json)).err().map(|error| error.message)
    };
    assert_eq!(check("noul", None), None);
    assert_eq!(check("noul", Some(r#"{"true":1,"false":2}"#)), None);
    assert_eq!(
        check("noul", Some(r#"{"maybe":1}"#)).unwrap(),
        "noul criteria must be a JSON object with true/false rubrics, or SQL NULL"
    );
    assert_eq!(check("choice", Some(r#"{"a":1}"#)), None);
    assert_eq!(
        check("choice", Some("{}")).unwrap(),
        "choice criteria must be a nonempty JSON object"
    );
    assert_eq!(check("score", Some("[1,2]")), None);
    assert_eq!(
        check("score", Some("[1]")).unwrap(),
        "score criteria must be a JSON array with at least two ordered levels"
    );
    assert_eq!(check("other", None).unwrap(), "unknown Jev criteria type");
}

#[test]
fn criteria_and_questions_are_strict_json() {
    assert_eq!(parse_criteria(&None).unwrap(), None);
    assert_eq!(
        parse_criteria(&Some("[1]".into())).unwrap(),
        Some(JsonValue::Array(vec![JsonValue::Number("1".into())]))
    );
    for text in ["{bad", r#"{"a":1,"a":2}"#] {
        assert_eq!(
            parse_criteria(&Some(text.into())).unwrap_err().message,
            "Jev criteria must be valid JSON without duplicate keys"
        );
    }
    let message = |text: &str| parse_questions(text).unwrap_err().message;
    assert!(message("{bad").starts_with("ask questions must be valid JSON: "));
    assert_eq!(message("[]"), "ask questions must be a JSON map of typed questions");
    assert_eq!(
        message(r#"{"q":{"type":"other","instructions":"i"}}"#),
        "ask questions must be a JSON map of typed questions"
    );
    assert_eq!(message("{}"), "ask questions cannot be empty");
    assert_eq!(
        message(r#"{"q":{"type":"score","instructions":"i"}}"#),
        "score criteria must be a JSON array with at least two ordered levels"
    );
    let questions = parse_questions(r#"{"q":{"type":"noul","instructions":{"a":1}}}"#).unwrap();
    let one = JsonValue::Number("1".into());
    assert_eq!(questions[0].1.instructions, object(vec![("a", one)]));
    // A name that is the same only once its escape is read.
    for text in [
        r#"{"q":{"type":"noul","instructions":"first"},"q":{"type":"noul","instructions":"x"}}"#,
        r#"{"q":{"type":"noul","instructions":{"x":1,"\u0078":2}}}"#,
        r#"{"q":{"type":"choice","instructions":"Q?","criteria":{"a":"first","a":"second"}}}"#,
    ] {
        assert!(message(text).starts_with("ask questions must be valid JSON: "));
    }
}
