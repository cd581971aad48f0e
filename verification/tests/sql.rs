//! The SQL surface.
use std::borrow::Cow;

use jev_datafusion::sql::{default_arguments, SqlArgument, SqlName};
use jev_datafusion::tokens::is_parsable;
use jev_datafusion::{normalize_jev_sql, parameter_names, try_normalize_jev_sql, ErrorKind};

#[test]
fn parameter_names_of_each_function() {
    assert_eq!(parameter_names("ask"), Some(vec!["state", "questions", "model"]));
    for name in ["noul", "choice", "score"] {
        assert_eq!(
            parameter_names(name),
            Some(vec!["state", "instructions", "criteria", "model"])
        );
    }
    assert_eq!(parameter_names("NOUL"), None);
}

fn normalized(sql: &str) -> String {
    normalize_jev_sql(sql).unwrap().into_owned()
}

#[test]
fn omitted_optional_arguments_are_filled() {
    assert_eq!(
        normalized("SELECT noul(message, 'Q?') FROM t"),
        "SELECT noul(message, 'Q?', NULL, NULL) FROM t"
    );
    assert_eq!(
        normalized("select Noul('work', instructions => 'recurring?', model => 'jev-1.13.0')"),
        "SELECT Noul('work', instructions => 'recurring?', model => 'jev-1.13.0', criteria => NULL)"
    );
    assert_eq!(
        normalized("SELECT choice(m, instructions => 'Q', criteria => '{}') FROM t"),
        "SELECT choice(m, instructions => 'Q', criteria => '{}', model => NULL) FROM t"
    );
    assert_eq!(normalized("SELECT ask(m, 'q')"), "SELECT ask(m, 'q', NULL)");
    assert_eq!(
        normalized("SELECT ask(MODEL => 'x', state => m, questions => 'q')"),
        "SELECT ask(MODEL => 'x', state => m, questions => 'q')"
    );
}

#[test]
fn nested_calls_and_several_statements_are_filled() {
    assert_eq!(
        normalized("SELECT noul(ask(a, 'q'), 'Q') FROM t WHERE noul(b, 'R') > 0.5; SELECT 1"),
        "SELECT noul(ask(a, 'q', NULL), 'Q', NULL, NULL) FROM t \
         WHERE noul(b, 'R', NULL, NULL) > 0.5; SELECT 1"
    );
}

#[test]
fn other_queries_stay_as_they_are() {
    for sql in [
        "select  1",
        "SELECT noul(a)",
        "SELECT noul(a, 'Q', NULL, 'm')",
        "SELECT choice(a, 'Q')",
        "SELECT noul(DISTINCT a, 'Q')",
        "SELECT s.noul(a, 'Q')",
        "SELECT \"NOUL\"(a, 'Q')",
        "SELECT count(*) FROM t",
    ] {
        assert!(matches!(normalize_jev_sql(sql).unwrap(), Cow::Borrowed(text) if text == sql));
    }
    assert_eq!(normalized("SELECT \"noul\"(a, 'Q')"), "SELECT \"noul\"(a, 'Q', NULL, NULL)");
}

#[test]
fn filled_queries_need_no_more() {
    for sql in ["SELECT noul(a, 'Q')", "SELECT noul(a, instructions => 'Q')"] {
        let once = normalized(sql);
        assert!(matches!(normalize_jev_sql(sql).unwrap(), Cow::Owned(_)));
        assert!(matches!(normalize_jev_sql(&once).unwrap(), Cow::Borrowed(text) if text == once));
    }
}

#[test]
fn texts_that_are_no_queries_are_rejected() {
    let error = normalize_jev_sql("SELECT FROM WHERE (").unwrap_err();
    assert_eq!(error.kind, ErrorKind::Plan);
    assert!(error.message.starts_with("invalid SQL: sql parser error"), "{}", error.message);
}

#[test]
fn queries_that_the_parser_does_not_survive_have_no_result() {
    for sql in [
        "FLUSH RELAY LOGS FOR CHANNEL",
        "select 1; flush local relay logs for /* none */ channel ;",
        "FLUSH NO_WRITE_TO_BINLOG RELAY LOGS FOR CHANNEL a.",
        "FLUSH RELAY LOGS FOR CHANNEL a.(b)",
        "SET AUTHORIZATION DEFAULT",
        "SET authorization TO x",
        "SET AUTHORIZATION 'x'",
        "SET HIVEVAR : AUTHORIZATION x",
        "EXPLAIN SET AUTHORIZATION x",
        "EXPLAIN FORMAT = JSON SET AUTHORIZATION x",
        "EXPLAIN (VERBOSE) SET AUTHORIZATION x",
        "PREPARE p AS SET AUTHORIZATION x",
        "IF a THEN SET AUTHORIZATION x; END IF",
        "WHILE a = 1 SET AUTHORIZATION x; END",
        "/*! SET AUTHORIZATION DEFAULT */",
        "SELECT noul(a, 'Q') FROM t LIMIT ALL BY a",
    ] {
        assert!(!is_parsable(sql), "{sql}");
        assert!(try_normalize_jev_sql(sql).is_none(), "{sql}");
    }
}

#[test]
fn queries_that_only_look_so_are_parsed() {
    for sql in [
        "FLUSH RELAY LOGS",
        "FLUSH RELAY LOGS FOR CHANNEL a",
        "FLUSH RELAY LOGS FOR CHANNEL 'a'.\"b\"",
        "SET SESSION AUTHORIZATION DEFAULT",
        "SET x = 1",
        "SELECT set authorization FROM t",
        "UPDATE t SET authorization = 1",
        "SELECT 'SET AUTHORIZATION DEFAULT'",
        "SELECT 1 -- SET AUTHORIZATION DEFAULT",
        "SELECT 1 /* FLUSH RELAY LOGS FOR CHANNEL */",
        "SELECT \"SET\" AUTHORIZATION",
        "SELECT a FROM t LIMIT ALL",
        "SELECT a FROM t LIMIT 1 BY a",
    ] {
        assert!(is_parsable(sql), "{sql}");
        let result = try_normalize_jev_sql(sql).unwrap();
        assert!(matches!(result.unwrap(), Cow::Borrowed(text) if text == sql), "{sql}");
    }
    for sql in ["SET AUTHORIZATION", "SET AUTHORIZATION = 1", "FLUSH RELAY LOGS FOR CHANNEL a.1"] {
        assert!(try_normalize_jev_sql(sql).unwrap().is_err(), "{sql}");
    }
}

#[test]
fn quoted_argument_names_are_taken_literally() {
    let parts = vec![Some(SqlName { value: "SCORE".into(), quoted: false })];
    let args = |value: &str, quoted| {
        vec![SqlArgument::Unnamed, SqlArgument::Named(value.into(), quoted)]
    };
    let fill = |args: Vec<SqlArgument>| default_arguments(&parts, Some((false, 0)), &args);
    assert_eq!(fill(args("Model", false)), Vec::<String>::new());
    assert_eq!(fill(args("Model", true)), vec!["model => NULL".to_owned()]);
    assert_eq!(fill(vec![SqlArgument::Computed]), vec!["model => NULL".to_owned()]);
    assert_eq!(
        default_arguments(&parts, None, &args("x", false)),
        Vec::<String>::new()
    );
    assert_eq!(
        default_arguments(&parts, Some((false, 1)), &args("x", false)),
        Vec::<String>::new()
    );
    assert_eq!(
        default_arguments(&vec![None], Some((false, 0)), &args("x", false)),
        Vec::<String>::new()
    );
}
