//! Servers: endpoints, retries, bodies and costs.
use std::time::{Duration, SystemTime};

use jev_datafusion::json::JsonValue;
use jev_datafusion::provider::{
    deadline_error, finish_body, join_url, read_chunk, record_usage, retry_after, retry_after_at,
    transport_error, usage_of, SendStep, NANOS_PER_MILLISECOND, NANOS_PER_SECOND,
};
use jev_datafusion::{
    Compatible, ErrorKind, JevHttpError, JevMetrics, JevProvider, JevRequest, OpenRouter, TypeSafe,
};

fn duration(nanos: Option<u128>) -> Option<Duration> {
    nanos.map(|nanos| Duration::from_nanos(u64::try_from(nanos).unwrap()))
}

#[test]
fn retry_after_supports_seconds_dates_and_malformed_headers() {
    assert_eq!(duration(retry_after("3")), Some(Duration::from_secs(3)));
    assert_eq!(retry_after("invalid"), None);
    assert_eq!(retry_after("-1"), None);
    assert_eq!(
        duration(retry_after("Sun, 06 Nov 1994 08:49:37 GMT")),
        Some(Duration::ZERO)
    );
    let future = httpdate::fmt_http_date(SystemTime::now() + Duration::from_secs(3));
    let wait = duration(retry_after(&future)).unwrap();
    assert!(wait > Duration::from_secs(1) && wait <= Duration::from_secs(3));
}

#[test]
fn servers_choose_their_own_endpoint_and_model() {
    let typesafe = TypeSafe::new(None, "https://api.typesafe.ai/");
    assert_eq!(typesafe.endpoint, "https://api.typesafe.ai/v1/systemone");
    assert_eq!(typesafe.default_model, "jev-1.13.0");
    assert_eq!(typesafe.key_name, "TYPESAFE_API_KEY");

    let openrouter = OpenRouter::new(None, "https://openrouter.ai");
    assert_eq!(openrouter.endpoint, "https://openrouter.ai/api/alpha/decisions");
    assert_eq!(openrouter.default_model, "typesafe/jev-1.13");
    assert_eq!(openrouter.key_name, "OPENROUTER_API_KEY");

    let compatible = Compatible::new(
        None,
        "https://ai-gateway.vercel.sh/typesafe/v1/systemone",
        "typesafe-ai/jev",
    );
    assert_eq!(compatible.endpoint, "https://ai-gateway.vercel.sh/typesafe/v1/systemone");
    assert_eq!(compatible.default_model, "typesafe-ai/jev");
}

#[test]
fn keys_are_used_as_given_unless_they_are_blank() {
    assert_eq!(TypeSafe::new(Some(" \t".into()), "x").api_key, None);
    assert_eq!(TypeSafe::new(Some(" k ".into()), "x").api_key, Some(" k ".to_owned()));
    assert_eq!(JevProvider::new(None, "http://h").endpoint, "http://h/v1/systemone");
    assert_eq!(join_url("http://h///", "/p"), "http://h/p");
    assert_eq!(Compatible::new(None, "http://h/p/", "m").key_name, "JEV_API_KEY");
}

#[test]
fn a_date_is_measured_from_the_given_time() {
    // 784111777 seconds after 1970.
    let date = "Sun, 06 Nov 1994 08:49:37 GMT";
    let now = 784_111_770 * NANOS_PER_SECOND + 5;
    assert_eq!(retry_after_at(date, now), Some(7 * NANOS_PER_SECOND - 5));
    assert_eq!(retry_after_at(date, now + 8 * NANOS_PER_SECOND), Some(0));
    assert_eq!(retry_after_at(" 12 ", now), Some(12 * NANOS_PER_SECOND));
    assert_eq!(retry_after_at("+4", now), Some(4 * NANOS_PER_SECOND));
}

fn pause(step: SendStep) -> u128 {
    match step {
        SendStep::Pause(nanos) => nanos,
        other => panic!("{other:?}"),
    }
}

#[test]
fn pauses_double_and_have_a_random_part() {
    let server = TypeSafe::new(None, "http://h");
    for (attempt, base) in [(0, 100), (1, 200), (2, 400)] {
        let least = base * NANOS_PER_MILLISECOND;
        assert_eq!(pause(server.step_with("noul", attempt, 429, None, 0)), least);
        assert_eq!(pause(server.step_with("noul", attempt, 429, None, 7)), least + 7_000_000);
        for _ in 0..20 {
            let nanos = pause(server.step("noul", attempt, 429, None));
            assert!(least <= nanos && nanos <= 2 * least);
        }
        assert_eq!(pause(server.step("noul", attempt, 529, Some("2"))), 2 * NANOS_PER_SECOND);
    }
    assert!(matches!(server.step("noul", 0, 200, None), SendStep::Read));
}

#[test]
fn exhausted_and_refused_requests_fail() {
    let failure = |server: &JevProvider, attempt, status, header| {
        match server.step("noul", attempt, status, header) {
            SendStep::Fail(error) => error,
            other => panic!("{other:?}"),
        }
    };
    let typesafe = TypeSafe::new(None, "http://h");
    let openrouter = OpenRouter::new(None, "http://h");
    let error = failure(&typesafe, 3, 429, None);
    assert_eq!(error.message, "Jev HTTP 429 for noul");
    assert_eq!(error.kind, ErrorKind::Http { status: 429, fatal: false });
    assert!(!error.is_fatal());
    assert!(failure(&typesafe, 0, 401, None).is_fatal());
    assert!(!failure(&typesafe, 0, 402, None).is_fatal());
    assert!(failure(&openrouter, 0, 402, None).is_fatal());
    assert!(failure(&openrouter, 0, 422, None).is_fatal());
    assert_eq!(failure(&openrouter, 0, 529, None).message, "Jev HTTP 529 for noul");
    assert_eq!(
        failure(&typesafe, 0, 429, Some("60")).message,
        "Jev noul HTTP 429 Retry-After exceeds its 60 second request deadline"
    );
    let error = JevHttpError { status: 500, function: "ask".into(), fatal: true };
    assert_eq!(error.message(), "Jev HTTP 500 for ask");
    assert_eq!(transport_error().message, "Jev request failed or timed out");
    assert_eq!(
        deadline_error("ask").message,
        "Jev ask exceeded its 60 second request deadline"
    );
}

#[test]
fn a_request_needs_a_key_and_has_one_byte_form() {
    let request = JevRequest {
        state: JsonValue::Object(vec![
            ("b".into(), JsonValue::Number("1.0".into())),
            ("a".into(), JsonValue::Text("\u{1}".into())),
        ]),
        questions: Vec::new(),
        model: "m".into(),
    };
    let error = TypeSafe::new(None, "x").prepare(&request, "noul").err().unwrap();
    assert_eq!(error.message, "noul requires TYPESAFE_API_KEY");
    let outgoing = TypeSafe::new(Some("k".into()), "x").prepare(&request, "noul").unwrap();
    assert_eq!(outgoing.key, "k");
    assert_eq!(outgoing.endpoint, "x/v1/systemone");
    assert_eq!(
        outgoing.body,
        br#"{"model":"m","questions":{},"state":{"a":"\u0001","b":1}}"#
    );
}

#[test]
fn a_run_counts_what_it_sends() {
    let server = TypeSafe::new(Some("k".into()), "x");
    let request = JevRequest {
        state: JsonValue::Null,
        questions: Vec::new(),
        model: "m".into(),
    };
    let run = |statuses: &[u16]| {
        let mut attempts = server.begin(&request, "noul").unwrap();
        let body = attempts.outgoing().body.clone();
        let mut metrics = JevMetrics::new();
        for status in statuses {
            attempts.count(&mut metrics);
            assert_eq!(attempts.outgoing().body, body);
            match attempts.answer(&server, "noul", *status, Some("0")) {
                SendStep::Pause(nanos) => assert!(nanos >= 100 * NANOS_PER_MILLISECOND),
                SendStep::Read => return (metrics.requests, metrics.retries, None),
                SendStep::Fail(error) => {
                    return (metrics.requests, metrics.retries, Some(error.message))
                }
            }
        }
        panic!("the run goes on");
    };
    let failed = |status: u16| Some(format!("Jev HTTP {status} for noul"));
    assert_eq!(run(&[200]), (1, 0, None));
    assert_eq!(run(&[429, 529, 200]), (3, 2, None));
    assert_eq!(run(&[429, 401, 200]), (2, 1, failed(401)));
    assert_eq!(run(&[429, 429, 429, 429, 200]), (4, 3, failed(429)));
    let error = TypeSafe::new(None, "x").begin(&request, "noul").err().unwrap();
    assert_eq!(error.message, "noul requires TYPESAFE_API_KEY");
}

#[test]
fn bodies_are_bounded_and_utf8() {
    let mut body = vec![b'x'; 1_048_575];
    read_chunk(&mut body, b"y").unwrap();
    assert_eq!(body.len(), 1_048_576);
    read_chunk(&mut body, b"").unwrap();
    let error = read_chunk(&mut body, b"z").unwrap_err();
    assert_eq!(error.message, "Jev response exceeds the local 1048576-byte JSON limit");
    assert_eq!(body.len(), 1_048_576);
    assert_eq!(finish_body("é".as_bytes().to_vec()).unwrap(), "é");
    assert_eq!(
        finish_body(vec![0xff]).unwrap_err().message,
        "Jev response is not valid UTF-8"
    );
}

#[test]
fn answers_are_metered() {
    let raw = r#"{"model":"jev-1.13.0","usage":{"input_tokens":10,"output_tokens":2,"cost":0.5}}"#;
    let usage = usage_of(raw);
    let read = usage.as_ref().unwrap();
    assert_eq!(read.model.as_deref(), Some("jev-1.13.0"));
    assert_eq!(read.cost, Some(0.5_f64.to_bits()));
    let typesafe = TypeSafe::new(None, "x");
    let mut metrics = JevMetrics::new();
    record_usage(&usage, &mut metrics, typesafe.pricing, None);
    assert_eq!(
        metrics,
        JevMetrics {
            input_tokens: 10,
            output_tokens: 2,
            estimated_cost_nano_usd: 420,
            ..JevMetrics::new()
        }
    );
    record_usage(&usage_of("no JSON"), &mut metrics, typesafe.pricing, None);
    assert_eq!(metrics.unpriced_requests, 1);
    let other = usage_of(r#"{"model":"other","usage":{"input_tokens":10}}"#);
    record_usage(&other, &mut metrics, typesafe.pricing, None);
    assert_eq!((metrics.input_tokens, metrics.unpriced_requests), (20, 2));
    let openrouter = OpenRouter::new(None, "x");
    record_usage(&usage, &mut metrics, openrouter.pricing, Some(7));
    assert_eq!(metrics.estimated_cost_nano_usd, 427);
    record_usage(&usage, &mut metrics, openrouter.pricing, None);
    assert_eq!(metrics.unpriced_requests, 3);
}

#[test]
fn attempts_are_counted() {
    let mut metrics = JevMetrics::new();
    metrics.count_attempt(0);
    metrics.count_attempt(1);
    assert_eq!((metrics.requests, metrics.retries), (2, 1));
}
