//! The SQL functions: planning, rows and answers.
use std::sync::Arc;

use datafusion::execution::memory_pool::{
    GreedyMemoryPool, MemoryConsumer, MemoryPool, UnboundedMemoryPool,
};
use jev_datafusion::answers::{judge, response_value};
use jev_datafusion::arrow_json::ArrowType;
use jev_datafusion::canonical::canonical_bytes;
use jev_datafusion::execution::{consumer_name, BatchCache};
use jev_datafusion::json::JsonValue;
use jev_datafusion::parse::parse_value;
use jev_datafusion::state::StateScalar;
use jev_datafusion::udf::{accept_row, PlannedArgument, RowStep};
use jev_datafusion::{
    register_jev, ErrorKind, JevError, JevMetrics, JevOnError, JevProvider, JevUdf, OpenRouter,
};

fn provider(key: Option<&str>) -> Arc<JevProvider> {
    Arc::new(JevProvider::new(key.map(str::to_owned), "http://127.0.0.1:1"))
}

fn function(name: &'static str) -> JevUdf {
    JevUdf::new(name, provider(Some("test-only"))).unwrap()
}

fn cache() -> BatchCache {
    let pool: Arc<dyn MemoryPool> = Arc::new(UnboundedMemoryPool::default());
    BatchCache::new(MemoryConsumer::new(consumer_name(0)).register(&pool), 0).unwrap()
}

fn text(value: &str) -> StateScalar {
    StateScalar::Text(value.to_owned())
}

fn json(text: &str) -> JsonValue {
    parse_value(text).unwrap()
}

fn row(state: &str, instructions: &str) -> Vec<StateScalar> {
    vec![text(state), text(instructions), StateScalar::Null, StateScalar::Null]
}

#[test]
fn synchronous_entry_point_returns_error_without_panic() {
    let error = function("noul").invoke_with_args();
    assert!(error.shown().contains("asynchronous execution"));
    assert_eq!(error.kind, ErrorKind::NotImplemented);
}

#[test]
fn unknown_functions_are_rejected() {
    let error = JevUdf::new("other", provider(None)).err().unwrap();
    assert_eq!((error.kind, error.message.as_str()), (ErrorKind::Plan, "unknown Jev function"));
}

#[test]
fn rows_ask_for_exactly_their_arguments() {
    let request = function("noul")
        .row_request(&row(r#"{"b":1.0,"a":2}"#, "Q?"), &None, "default")
        .unwrap()
        .unwrap();
    assert_eq!(
        canonical_bytes(&request.to_json()).unwrap(),
        br#"{"model":"default","questions":{"q0":{"instructions":"Q?","type":"noul"}},"state":{"a":2,"b":1}}"#
    );
    let values = vec![
        text("work"),
        text("Q?"),
        text(r#"{"true":"A"}"#),
        text("explicit"),
    ];
    let request = function("noul").row_request(&values, &None, "default").unwrap().unwrap();
    assert_eq!(request.model, "explicit");
    assert_eq!(request.questions[0].1.criteria, Some(json(r#"{"true":"A"}"#)));
    let none = vec![StateScalar::Null, text("Q?"), StateScalar::Null, StateScalar::Null];
    assert!(function("noul").row_request(&none, &None, "default").unwrap().is_none());
}

#[test]
fn rows_that_are_not_valid_are_errors() {
    let message = |name: &'static str, values: Vec<StateScalar>| {
        let error = function(name).row_request(&values, &None, "default").err().unwrap();
        assert_eq!(error.kind, ErrorKind::Execution);
        error.message
    };
    let error = function("noul").check_count(1).unwrap_err();
    assert_eq!(error.kind, ErrorKind::Execution);
    assert_eq!(error.message, "noul expects 4 arguments after optional defaults are filled");
    assert!(function("noul").check_count(4).is_ok());
    assert!(function("ask").check_count(4).is_err());
    assert_eq!(
        message("noul", vec![text("s"), StateScalar::Null, StateScalar::Null, StateScalar::Null]),
        "Jev instructions cannot be NULL"
    );
    assert_eq!(
        message("noul", vec![text("s"), StateScalar::Int(1), StateScalar::Null, StateScalar::Null]),
        "Jev instructions must be UTF-8 text"
    );
    assert_eq!(
        message("noul", vec![text("s"), text("i"), StateScalar::Null, text(" ")]),
        "Jev model cannot be empty"
    );
    assert_eq!(
        message("choice", row("s", "i")),
        "choice criteria must be a nonempty JSON object"
    );
    assert_eq!(
        message("ask", vec![text("s"), text("{}"), StateScalar::Null]),
        "ask questions cannot be empty"
    );
    assert!(message("noul", row(r#"{"a":1,"a":2}"#, "i")).contains("duplicate"));
}

fn sent(step: RowStep) -> ([u8; 32], String) {
    match step {
        RowStep::Send { request, key } => (key, request.model),
        RowStep::Done(result) => panic!("{result:?}"),
    }
}

fn done(step: RowStep) -> Result<JsonValue, JevError> {
    match step {
        RowStep::Done(result) => result,
        RowStep::Send { .. } => panic!("a request would be sent"),
    }
}

#[test]
fn identical_requests_of_a_batch_are_sent_once() {
    let noul = function("noul");
    let mut cache = cache();
    let mut metrics = JevMetrics::new();
    let step = noul.begin_row(&row(r#"{"n":1}"#, "Q?"), &None, "m", &mut metrics, &mut cache);
    let (key, model) = sent(step);
    assert_eq!(model, "m");
    let raw = r#"{"answers":{"q0":{"noul":0.50}}}"#;
    let value = noul.finish_row(key, Ok(raw.into()), &mut cache).unwrap();
    assert_eq!(value, JsonValue::Number("0.5".into()));
    let same = row(r#"{"n":10e-1}"#, "Q?");
    let step = noul.begin_row(&same, &None, "m", &mut metrics, &mut cache);
    assert_eq!(done(step).unwrap(), JsonValue::Number("0.5".into()));
    assert_eq!(metrics.cache_hits, 1);
    let (other, _) = sent(noul.begin_row(&same, &None, "n", &mut metrics, &mut cache));
    assert_ne!(other, key);
    let (other, _) =
        sent(noul.begin_row(&row(r#"{"n":2}"#, "Q?"), &None, "m", &mut metrics, &mut cache));
    assert_ne!(other, key);
}

#[test]
fn failures_are_shared_unless_they_are_fatal() {
    let noul = function("noul");
    let mut cache = cache();
    let mut metrics = JevMetrics::new();
    let values = row("s", "Q?");
    let (key, _) = sent(noul.begin_row(&values, &None, "m", &mut metrics, &mut cache));
    let fatal = JevError {
        kind: ErrorKind::Http { status: 401, fatal: true },
        message: "Jev HTTP 401 for noul".into(),
    };
    assert!(noul.finish_row(key, Err(fatal), &mut cache).unwrap_err().is_fatal());
    assert_eq!(cache.len(), 0);
    let (key, _) = sent(noul.begin_row(&values, &None, "m", &mut metrics, &mut cache));
    let error = noul
        .finish_row(key, Err(jev_datafusion::provider::transport_error()), &mut cache)
        .unwrap_err();
    assert_eq!(error.message, "Jev request failed or timed out");
    let step = noul.begin_row(&values, &None, "m", &mut metrics, &mut cache);
    assert_eq!(done(step).unwrap_err().message, "cached Jev request failed");
}

#[test]
fn answers_that_one_function_cannot_read_stay_for_others() {
    let mut cache = cache();
    let mut metrics = JevMetrics::new();
    let noul = function("noul");
    let (key, _) = sent(noul.begin_row(&row("s", "Q?"), &None, "m", &mut metrics, &mut cache));
    let raw = r#"{"answers":{"q0":{"noul":2}}}"#;
    let error = noul.finish_row(key, Ok(raw.into()), &mut cache).unwrap_err();
    assert_eq!(error.message, "Jev noul answer is outside 0.0..=1.0");
    let ask = function("ask");
    let questions = r#"{"q0":{"type":"noul","instructions":"Q?"}}"#;
    let values = vec![text("s"), text(questions), StateScalar::Null];
    let step = ask.begin_row(&values, &None, "m", &mut metrics, &mut cache);
    assert_eq!(done(step).unwrap(), JsonValue::Text(raw.into()));
}

#[test]
fn exhausted_memory_stops_a_row_before_it_is_paid_for() {
    let pool: Arc<dyn MemoryPool> = Arc::new(GreedyMemoryPool::new(1));
    let reservation = MemoryConsumer::new(consumer_name(0)).register(&pool);
    let mut cache = BatchCache::new(reservation, 0).unwrap();
    let mut metrics = JevMetrics::new();
    let step =
        function("noul").begin_row(&row("s", "Q?"), &None, "m", &mut metrics, &mut cache);
    let error = done(step).unwrap_err();
    assert_eq!(error.kind, ErrorKind::ResourcesExhausted);
    assert!(error.is_fatal());
}

#[test]
fn policies_decide_what_a_row_error_does() {
    let failure = || Err(jev_datafusion::provider::transport_error());
    let mut results = Vec::new();
    let mut metrics = JevMetrics::new();
    let number = JsonValue::Number("1".into());
    accept_row(&mut results, Ok(number.clone()), JevOnError::Null, &mut metrics).unwrap();
    accept_row(&mut results, failure(), JevOnError::Null, &mut metrics).unwrap();
    assert_eq!(results, vec![number, JsonValue::Null]);
    assert!(accept_row(&mut results, failure(), JevOnError::Fail, &mut metrics).is_err());
    let fatal = Err(JevError { kind: ErrorKind::Plan, message: "x".into() });
    assert!(accept_row(&mut results, fatal, JevOnError::Null, &mut metrics).is_err());
    assert_eq!((results.len(), metrics.failures), (2, 3));
}

fn argument(data_type: &str, literal: Option<StateScalar>) -> PlannedArgument {
    PlannedArgument { data_type: data_type.into(), extension: None, literal }
}

fn planned(values: Vec<Option<StateScalar>>) -> Vec<PlannedArgument> {
    values.into_iter().map(|literal| argument("Utf8", literal)).collect()
}

#[test]
fn planning_rejects_what_no_row_can_satisfy() {
    let message = |name: &'static str, arguments: Vec<PlannedArgument>| {
        let error = function(name).return_field_from_args(&arguments).err().unwrap();
        assert_eq!(error.kind, ErrorKind::Plan);
        error.message
    };
    let open = || planned(vec![None, None, None, None]);
    let noul = function("noul");
    let field = noul.return_field_from_args(&open()).ok().unwrap();
    assert_eq!((field.name, field.nullable), ("noul", true));
    assert!(matches!(field.data_type, ArrowType::Float64));
    let keyless = JevUdf::new("noul", provider(None)).unwrap();
    assert_eq!(
        keyless.return_field_from_args(&open()).err().unwrap().message,
        "noul requires TYPESAFE_API_KEY before planning a Jev query"
    );
    assert_eq!(
        message("noul", planned(vec![None])),
        "noul expects 4 arguments after optional defaults are filled"
    );
    let mut typed = open();
    typed[2] = argument("Int64", None);
    assert_eq!(message("noul", typed), "noul argument 3 must be UTF-8 text or NULL");
    assert!(message("noul", planned(vec![None, Some(StateScalar::Null), None, None]))
        .contains("Jev instructions cannot be NULL"));
    assert!(message("noul", planned(vec![None, None, None, Some(text(" "))]))
        .contains("Jev model cannot be empty"));
    assert!(message("choice", planned(vec![None, None, Some(text("[]")), None]))
        .contains("choice criteria must be a nonempty JSON object"));
    assert!(message("ask", planned(vec![None, Some(text("{bad")), None]))
        .contains("ask questions must be valid JSON"));
    assert!(message("noul", planned(vec![Some(text(r#"{"a":1,"a":2}"#)), None, None, None]))
        .contains("duplicate"));
}

#[test]
fn registration_is_checked_as_a_whole() {
    let registration = register_jev(&vec!["sum".into()], provider(None), false).unwrap();
    let names: Vec<&str> = registration.functions.iter().map(|function| function.name).collect();
    assert_eq!(names, vec!["noul", "choice", "score", "ask"]);
    assert_eq!(registration.config.unwrap().0.model, "jev-1.13.0");
    let server = Arc::new(OpenRouter::new(None, "http://h"));
    assert!(register_jev(&Vec::new(), server, true).unwrap().config.is_none());
    let taken = vec!["score".to_owned(), "choice".to_owned()];
    let error = register_jev(&taken, provider(None), false).err().unwrap();
    assert_eq!(error.message, "Jev cannot replace already registered function choice");
    let twice: Vec<String> = names.into_iter().map(str::to_owned).collect();
    assert!(register_jev(&twice, provider(None), true).is_err());
}

#[test]
fn typed_answers_are_read() {
    let choice = json(
        r#"{"answers":{"q0":{"choice":"b","confidence":0.75,"probabilities":{"a":0.25,"b":0.75}}}}"#,
    );
    let value = judge("choice", &choice).unwrap();
    assert_eq!(
        canonical_bytes(&value).unwrap(),
        br#"{"confidence":0.75,"label":"b","probabilities":{"a":0.25,"b":0.75}}"#
    );
    let score = json(
        r#"{"answers":{"q0":{"score":3.10,"confidence":1,"probabilities":{"3":1e0}}}}"#,
    );
    let value = judge("score", &score).unwrap();
    assert_eq!(value.member("score"), JsonValue::Number("3.1".into()));
    assert_eq!(value.member("confidence"), JsonValue::Number("1.0".into()));
    for (number, expected) in [("0", "0.0"), ("1", "1.0"), ("-0.0", "-0.0")] {
        let response = json(&format!(r#"{{"answers":{{"q0":{{"noul":{number}}}}}}}"#));
        assert_eq!(judge("noul", &response).unwrap(), JsonValue::Number(expected.into()));
    }
}

#[test]
fn malformed_answers_are_row_errors() {
    let message = |function: &str, raw: &str| {
        let error = response_value(function, raw).unwrap_err();
        assert_eq!(error.kind, ErrorKind::Execution);
        error.message
    };
    assert_eq!(message("noul", "no JSON"), "invalid Jev JSON value");
    assert_eq!(
        message("noul", "{}"),
        "Jev noul answer must be a probability from 0 to 1"
    );
    assert_eq!(
        message("noul", r#"{"answers":{"q0":{"noul":1.0001}}}"#),
        "Jev noul answer is outside 0.0..=1.0"
    );
    assert_eq!(message("choice", "{}"), "invalid Jev choice answer");
    assert_eq!(
        message("choice", r#"{"answers":{"q0":{"choice":1}}}"#),
        "invalid Jev choice response field label"
    );
    assert_eq!(
        message("choice", r#"{"answers":{"q0":{"choice":"a"}}}"#),
        "invalid Jev choice response field result"
    );
    assert_eq!(
        message(
            "choice",
            r#"{"answers":{"q0":{"choice":"a","confidence":2,"probabilities":{}}}}"#
        ),
        "Jev choice confidence is outside 0.0..=1.0"
    );
    assert_eq!(
        message(
            "score",
            r#"{"answers":{"q0":{"score":9,"confidence":0,"probabilities":{"a":-1}}}}"#
        ),
        "Jev score probabilities is outside 0.0..=1.0"
    );
    assert_eq!(
        message("score", r#"{"answers":{"q0":{"probabilities":{"a":"x"}}}}"#),
        "invalid Jev score response field probabilities"
    );
    let markers = r#"{"answers":{"q0":{"noul":{"$serde_json::private::Number":"0.5"}}}}"#;
    assert_eq!(
        message("noul", markers),
        "Jev noul answer must be a probability from 0 to 1"
    );
    assert_eq!(
        response_value("ask", "no JSON").unwrap(),
        JsonValue::Text("no JSON".into())
    );
}
