use ruuter_on_rust::json::{JsonNumber, JsonValue, to_json_string};
use ruuter_on_rust::logfmt::{level_label, render_event, render_timestamp, LogEvent, LogLevel};
use ruuter_on_rust::logging::{cap_and_sanitize, error_chain, redact_headers, redact_json, sanitize_log_value, trace_id_from_traceparent};

fn s(x: &str) -> JsonValue {
    JsonValue::String(x.to_string())
}
fn n(x: &str) -> JsonValue {
    JsonValue::Number(JsonNumber { repr: x.to_string() })
}
fn obj(ms: Vec<(&str, JsonValue)>) -> JsonValue {
    JsonValue::Object(ms.into_iter().map(|(k, v)| (k.to_string(), v)).collect())
}
fn names(xs: &[&str]) -> Vec<String> {
    xs.iter().map(|x| x.to_string()).collect()
}

#[test]
fn timestamp_is_hh_mm_ss_mmm() {
    let ts = render_timestamp();
    assert_eq!(ts.len(), 12, "expected HH:MM:SS.mmm, got '{}'", ts);
    assert_eq!(ts.chars().nth(2), Some(':'));
    assert_eq!(ts.chars().nth(5), Some(':'));
    assert_eq!(ts.chars().nth(8), Some('.'));
}

#[test]
fn level_label_ansi_wraps_but_plain_is_five_chars() {
    assert_eq!(level_label(LogLevel::Info, false).trim(), "INFO");
    assert_eq!(level_label(LogLevel::Warn, false).trim(), "WARN");
    assert!(level_label(LogLevel::Info, true).contains("INFO"));
    assert!(level_label(LogLevel::Info, true).contains("\x1b["));
    assert_eq!(level_label(LogLevel::Info, false).len(), 5);
}

#[test]
fn crlf_stripped_from_log_value() {
    assert_eq!(sanitize_log_value("a\nb\rc"), "a b c");
    assert_eq!(sanitize_log_value("plain"), "plain");
}

#[test]
fn trace_id_extract() {
    assert_eq!(
        trace_id_from_traceparent("00-4bf92f3577b34da6a3ce929d0e0e4736-00f067aa0ba902b7-01").as_deref(),
        Some("4bf92f3577b34da6a3ce929d0e0e4736")
    );
    assert_eq!(trace_id_from_traceparent("garbage"), None);
}

#[test]
fn error_chain_bounded() {
    // An error wrapped ten times: its cause chain is nine "wrap"s and the leaf.
    let mut causes: Vec<String> = (0..9).map(|_| "wrap".to_string()).collect();
    causes.push("leaf".to_string());
    let chain = error_chain(&causes);
    assert!(chain.contains("caused by"));
    assert!(chain.ends_with("caused by: ..."));
}

#[test]
fn error_chain_short_lists_every_cause() {
    let causes = vec!["a\nb".to_string(), "c".to_string()];
    assert_eq!(error_chain(&causes), " -> caused by: a b -> caused by: c");
    assert_eq!(error_chain(&Vec::new()), "");
}

#[test]
fn cap_body_ok_shorter() {
    assert_eq!(cap_and_sanitize("hi", 100), "hi");
}

#[test]
fn cap_body_truncates() {
    let out = cap_and_sanitize(&"x".repeat(50), 10);
    assert_eq!(out.len(), 10 + '…'.len_utf8());
    assert!(out.ends_with('…'));
}

#[test]
fn cap_body_keeps_whole_characters() {
    // "é" takes two bytes: four of them do not fit in seven bytes.
    let out = cap_and_sanitize("éééé", 7);
    assert_eq!(out, "ééé…");
}

#[test]
fn redacts_top_level() {
    let v = obj(vec![("user", s("a")), ("password", s("hunter2"))]);
    let out = redact_json(&v, &names(&["password"]));
    assert_eq!(to_json_string(&out), r#"{"password":"[REDACTED]","user":"a"}"#);
}

#[test]
fn redacts_case_insensitive() {
    let v = obj(vec![("Authorization", s("Bearer xyz"))]);
    let out = redact_json(&v, &names(&["authorization"]));
    assert_eq!(to_json_string(&out), r#"{"Authorization":"[REDACTED]"}"#);
}

#[test]
fn redacts_nested() {
    let v = obj(vec![("outer", obj(vec![("token", s("abc")), ("keep", n("1"))]))]);
    let out = redact_json(&v, &names(&["token"]));
    assert_eq!(to_json_string(&out), r#"{"outer":{"keep":1,"token":"[REDACTED]"}}"#);
}

#[test]
fn redacts_in_arrays() {
    let v = JsonValue::Array(vec![obj(vec![("secret", s("s1"))]), obj(vec![("secret", s("s2"))])]);
    let out = redact_json(&v, &names(&["secret"]));
    assert_eq!(to_json_string(&out), r#"[{"secret":"[REDACTED]"},{"secret":"[REDACTED]"}]"#);
}

#[test]
fn header_redaction() {
    let h = vec![
        ("Authorization".to_string(), "Bearer xyz".to_string()),
        ("x-custom".to_string(), "keep".to_string()),
    ];
    let out = redact_headers(&h, &names(&["authorization"]));
    assert_eq!(out[0], ("Authorization".to_string(), "[REDACTED]".to_string()));
    assert_eq!(out[1], ("x-custom".to_string(), "keep".to_string()));
}

#[test]
fn log_lines_have_the_compact_shape() {
    let mut ev = LogEvent::new(LogLevel::Info);
    ev.record_text("message", "booting".into());
    ev.record_text("port", "8080".into());
    assert_eq!(render_event("12:00:00.000", &ev, false, "", ""), "12:00:00.000 INFO  booting  port=8080\n");
    assert_eq!(
        render_event("12:00:00.000", &ev, false, "abcd1234", "p"),
        "12:00:00.000 INFO  [t=abcd1234 p] booting  port=8080\n"
    );
    let mut step = LogEvent::new(LogLevel::Info);
    step.record_text("message", "Executed".into());
    step.record_text("dsl.step", "get_user".into());
    step.record_text("dsl.step.type", "http".into());
    step.duration = Some("12ms".into());
    step.record_text("dsl.next.step", "reply".into());
    assert_eq!(
        render_event("12:00:00.000", &step, false, "", ""),
        "12:00:00.000 INFO  ▸ get_user (http) 12ms → reply\n"
    );
}
