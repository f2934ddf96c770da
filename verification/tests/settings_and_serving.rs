use ruuter_on_rust::client::{enforce_status_and_size, rewrite_url_for_tests, ClientSettings};
use ruuter_on_rust::config::{AppConfig, HttpVersion, LogFormat};
use ruuter_on_rust::executors::{GuardSystem, HttpMockStep, HttpMockStepExecutor, LogStepExecutor, SwitchStepExecutor};
use ruuter_on_rust::json::{to_json_string, JsonNumber, JsonValue};
use ruuter_on_rust::loader::{
    build_dsl_key, build_guard_key, is_guard_file, is_processable_file, is_source_definition, project_dir_role, source_layout,
    ProjectDir, SourceLayout,
};
use ruuter_on_rust::observability::{generate_traceparent, otlp_endpoint, resolve_format, service_name, traceparent_text};
use ruuter_on_rust::logging::trace_id_from_traceparent;
use ruuter_on_rust::openapi::{
    collect_return_statuses, effective_statuses, is_openapi_method, operation_id, status_reason, summary_from_key,
};
use ruuter_on_rust::runner::{check_headers, get_header_ci, merge_constants_with_mock, replace_all_str, to_result, HeaderMismatch, RunSummary};
use ruuter_on_rust::selfcall::{self_call_request, self_call_status_gate};
use ruuter_on_rust::serve::{default_headers_to_add, frame_payload, ws_endpoint, UdsHttpVersion, UdsPool};
use ruuter_on_rust::settings::{config_search_paths, parse_constants, stale_config_warnings};
use ruuter_on_rust::state::{StateError, StateStore};
use ruuter_on_rust::steps::{Condition, LogStep, SwitchAction, SwitchStep};

fn s(x: &str) -> JsonValue {
    JsonValue::String(x.to_string())
}
fn n(x: &str) -> JsonValue {
    JsonValue::Number(JsonNumber { repr: x.to_string() })
}
fn strs(xs: &[&str]) -> Vec<String> {
    xs.iter().map(|x| x.to_string()).collect()
}
fn pairs(xs: &[(&str, &str)]) -> Vec<(String, String)> {
    xs.iter().map(|(k, v)| (k.to_string(), v.to_string())).collect()
}

#[test]
fn loader_keys() {
    assert_eq!(build_dsl_key(&strs(&["basic", "hello.yml"]), "GET"), "GET/basic/hello");
    assert_eq!(build_dsl_key(&strs(&["a.b.yml"]), "POST"), "POST/a.b");
    assert_eq!(build_guard_key(&strs(&["admin.guard.yml"]), "POST").unwrap(), "POST/admin");
    assert_eq!(build_guard_key(&strs(&["x", "admin.guard.yml"]), "POST").unwrap(), "POST/x/admin");
    assert_eq!(build_guard_key(&strs(&["admin", ".guard"]), "GET").unwrap(), "GET/admin");
    assert_eq!(build_guard_key(&strs(&[".guard.yml"]), "GET").unwrap(), "GET");
    assert_eq!(build_guard_key(&strs(&["guard"]), "GET").unwrap_err(), "Malformed guard filename");
    assert!(is_guard_file("a.guard.yml") && is_guard_file(".guard") && !is_guard_file("guard.yml"));
    let types = strs(&[".yml", "yaml"]);
    assert!(is_processable_file("x.yml", &types));
    assert!(is_processable_file("x.yaml", &types));
    assert!(!is_processable_file("x.json", &types));
    assert!(is_processable_file(".guard", &types));
    assert_eq!(project_dir_role("triggers"), ProjectDir::Triggers);
    assert_eq!(project_dir_role("sources"), ProjectDir::Reserved);
    assert_eq!(project_dir_role("GET"), ProjectDir::Method);
    assert_eq!(source_layout(true, true), (Some(SourceLayout::Outbound), true));
    assert_eq!(source_layout(false, true), (Some(SourceLayout::Legacy), true));
    assert_eq!(source_layout(false, false), (None, false));
    assert!(is_source_definition("feed.yaml") && !is_source_definition("feed.txt"));
}

#[test]
fn observability_choices() {
    assert_eq!(resolve_format(LogFormat::Text, &Some("JSON".into())), LogFormat::Json);
    assert_eq!(resolve_format(LogFormat::Pretty, &Some("bogus".into())), LogFormat::Pretty);
    assert_eq!(resolve_format(LogFormat::Text, &None), LogFormat::Text);
    assert_eq!(otlp_endpoint(Some(String::new())), None);
    assert_eq!(otlp_endpoint(Some("http://c:4317".into())).as_deref(), Some("http://c:4317"));
    assert_eq!(service_name(None), "ruuter-on-rust");
    assert_eq!(
        traceparent_text(0x4bf92f3577b34da6a3ce929d0e0e4736, 0x00f067aa0ba902b7),
        "00-4bf92f3577b34da6a3ce929d0e0e4736-00f067aa0ba902b7-01"
    );
    let tp = generate_traceparent();
    assert_eq!(tp.len(), 55);
    let tid = trace_id_from_traceparent(&tp).unwrap();
    assert_eq!(&tp[3..35], tid);
}

#[test]
fn openapi_pieces() {
    assert!(is_openapi_method("trace") && !is_openapi_method("WS"));
    assert_eq!(operation_id("svc", "GET", "GET/users/{id}"), "get_svc_users__id_");
    assert_eq!(summary_from_key("GET/a/b"), "b");
    assert_eq!(summary_from_key("plain"), "plain");
    let codes = collect_return_statuses(&vec![Some(n("201")), Some(n("201")), Some(s("200")), None, Some(n("99")), Some(n("404"))]);
    assert_eq!(codes, vec![201, 404]);
    assert_eq!(effective_statuses(&vec![]), vec![200, 400, 500]);
    assert_eq!(effective_statuses(&vec![201, 404]), vec![201, 404, 500]);
    assert_eq!(effective_statuses(&vec![302]), vec![302, 200, 400, 500]);
    assert_eq!(status_reason(412), "Precondition Failed");
    assert_eq!(status_reason(418), "Response");
}

#[test]
fn constants_file_format() {
    let text = "# comment\n[DSL]\nA = 1\n B=two words \nA=3\nnoequals\n=x\r\n";
    let c = parse_constants(text);
    let get = |k: &str| c.iter().find(|(n, _)| n == k).map(|(_, v)| v.clone());
    assert_eq!(get("A").as_deref(), Some("3"));
    assert_eq!(get("B").as_deref(), Some("two words"));
    assert_eq!(get("").as_deref(), Some("x"));
    assert_eq!(c.len(), 3);
}

#[test]
fn config_search_order() {
    assert_eq!(
        config_search_paths(&strs(&["--port", "1", "--config", "/etc/r.yml"]), Some("/env.yml".into())),
        strs(&["/etc/r.yml", "/env.yml", "./ruuter.yaml", "./ruuter.yml"])
    );
    assert_eq!(config_search_paths(&strs(&["--config=/x.yml"]), Some(String::new())), strs(&["/x.yml", "./ruuter.yaml", "./ruuter.yml"]));
    assert_eq!(config_search_paths(&strs(&["--config"]), None), strs(&["./ruuter.yaml", "./ruuter.yml"]));
}

#[test]
fn stale_settings_are_flagged() {
    let mut cfg = AppConfig::default();
    assert_eq!(stale_config_warnings(&cfg), (false, false));
    cfg.stop_in_case_of_exception = false;
    cfg.dsl.allowed_filetypes = strs(&[".yml"]);
    assert_eq!(stale_config_warnings(&cfg), (true, true));
}

#[test]
fn serving_pieces() {
    assert_eq!(ws_endpoint("/proj/chat/room"), Some(("proj".to_string(), "WS/chat/room".to_string())));
    assert_eq!(ws_endpoint("//proj//"), None);
    assert!(matches!(frame_payload(None, "hi".into()), JsonValue::String(t) if t == "hi"));
    let add = default_headers_to_add(&strs(&["content-type"]), &pairs(&[("Content-Type", "x"), ("X-Frame-Options", "DENY")]));
    assert_eq!(add, pairs(&[("X-Frame-Options", "DENY")]));
    let mut pool = UdsPool::with_version(1, 2, UdsHttpVersion::Http2);
    assert!(pool.client_for("/run/a.sock"));
    assert!(!pool.client_for("/run/a.sock"));
    assert!(pool.client_for("/run/b.sock"));
    assert_eq!(UdsHttpVersion::from_config(HttpVersion::Http2), UdsHttpVersion::Http2);
}

#[test]
fn client_checks() {
    assert!(enforce_status_and_size(&vec![], None, 500, &None).is_ok());
    assert_eq!(
        enforce_status_and_size(&vec![200], None, 404, &None).unwrap_err(),
        "upstream status 404 not in http_codes_allow_list"
    );
    assert_eq!(
        enforce_status_and_size(&vec![], Some(3), 200, &Some(s("abcd"))).unwrap_err(),
        "uds upstream body 6 bytes exceeds http_response_size_limit 3"
    );
    assert!(enforce_status_and_size(&vec![], Some(6), 200, &Some(s("abcd"))).is_ok());
    let env = Some("http://a=http://mock, bad ,http://b=".to_string());
    assert_eq!(rewrite_url_for_tests("http://a/x", &env).as_deref(), Some("http://mock/x"));
    assert_eq!(rewrite_url_for_tests("http://z/x", &env), None);
    assert_eq!(rewrite_url_for_tests("http://a/x", &None), None);
    let skip = Some("=x,http://q= http://r ".to_string());
    assert_eq!(rewrite_url_for_tests("http://q/1", &skip).as_deref(), Some("http://r/1"));
    let bare = ClientSettings::with_timeout_ms(5);
    assert_eq!(bare.default_timeout_ms, 5);
    let full = ClientSettings::new(&AppConfig::default());
    assert_eq!(full.uds_pool.max_idle_per_host, 32);
}

#[test]
fn runner_pieces() {
    let hs = pairs(&[("Content-Type", "json"), ("Idempotency-Replayed", "TRUE")]);
    assert_eq!(get_header_ci(&hs, "content-type").as_deref(), Some("json"));
    assert!(check_headers(&hs, &pairs(&[("content-type", "json")]), &strs(&["CONTENT-TYPE"]), &strs(&["x-none"]), Some(true)).is_ok());
    assert!(matches!(
        check_headers(&hs, &pairs(&[("content-type", "xml")]), &vec![], &vec![], None),
        Err(HeaderMismatch::WrongValue(_, _, a)) if a == "json"
    ));
    assert!(matches!(check_headers(&hs, &vec![], &vec![], &vec![], Some(false)), Err(HeaderMismatch::Replayed(false, true))));
    assert!(matches!(check_headers(&hs, &vec![], &strs(&["etag"]), &vec![], None), Err(HeaderMismatch::ShouldBePresent(_))));
    assert_eq!(replace_all_str("{MOCK}/a/{MOCK}", "{MOCK}", "http://m"), "http://m/a/http://m");
    let merged = merge_constants_with_mock(pairs(&[("API", "{MOCK}/v1"), ("K", "k")]), "http://m");
    let get = |k: &str| merged.iter().find(|(n, _)| n == k).map(|(_, v)| v.clone());
    assert_eq!(get("API").as_deref(), Some("http://m/v1"));
    assert_eq!(get("K").as_deref(), Some("k"));
    assert_eq!(get("__MOCK__").as_deref(), Some("http://m"));
    assert_eq!(to_result("t", Err("e".into())), ("t".to_string(), false, Some("e".to_string())));
    let mut sum = RunSummary::new(false);
    sum.record("f", "a", true, None);
    sum.record("f", "b", false, Some("x".into()));
    assert_eq!((sum.passed, sum.failed, sum.records.len()), (1, 1, 2));
}

#[test]
fn state_store_update_and_stats() {
    let mut st = StateStore::with_max_entries_per_project(2);
    st.set("p", "a", n("1")).unwrap();
    assert!(matches!(st.update_check("p", "a"), Ok(Some(_))));
    assert!(matches!(st.update_check("p", "b"), Ok(None)));
    st.set("p", "b", n("2")).unwrap();
    st.set("q", "a", n("3")).unwrap();
    assert!(matches!(st.update_check("p", "c"), Err(StateError::CapReached { entries: 2, cap: 2 })));
    let stats = st.project_stats();
    let p = stats.iter().find(|x| x.project == "p").unwrap();
    assert_eq!((p.entries, p.cap), (2, Some(2)));
    assert_eq!(stats.len(), 2);
}

#[test]
fn executors() {
    let log = LogStepExecutor::new(LogStep { log: s("x"), next: None });
    assert_eq!(log.message(&s("a\nb")), "a b");
    assert_eq!(log.message(&n("5")), "5");
    let sw = SwitchStepExecutor::new(SwitchStep {
        switch: vec![Condition { condition: "${a}".into(), next: "yes".into() }],
        next: Some("fallback".into()),
    });
    assert!(matches!(sw.start(), SwitchAction::Evaluate(0)));
    assert!(matches!(sw.after_condition(0, &s("x")), SwitchAction::Jump(t) if t == "yes"));
    let mock = HttpMockStepExecutor::new(HttpMockStep { status: None, result: Some("r".into()), next: None });
    assert_eq!(mock.status(), 200);
    assert_eq!(
        to_json_string(&mock.binding(s("b"), None).unwrap()),
        r#"{"response":{"body":"b","headers":{},"status":200}}"#
    );
    assert!(GuardSystem::new().check_guards("/x"));
}

#[test]
fn self_call_requests() {
    let query = Some(vec![("b".to_string(), n("2"))]);
    let headers = Some(vec![("X-Token".to_string(), s("t")), ("x-token".to_string(), n("5"))]);
    let req = self_call_request("http://localhost:8080/p/a?a=1&b=x&a=3+4", Some(s("raw")), query, &headers).unwrap();
    assert_eq!(req.path, "/p/a");
    let get = |k: &str| req.query.iter().find(|(n, _)| n == k).map(|(_, v)| to_json_string(v));
    assert_eq!(get("a").as_deref(), Some("\"3 4\""));
    assert_eq!(get("b").as_deref(), Some("2"));
    assert_eq!(req.query.len(), 2);
    assert_eq!(req.headers, pairs(&[("x-token", "5")]));
    assert_eq!(req.body.len(), 1);
    assert_eq!(req.body[0].0, "_body");
    let err = self_call_request("not a url", None, None, &None).unwrap_err();
    assert_eq!(err, "invalid self-call url 'not a url': relative URL without a base");
    assert!(self_call_status_gate(&vec![], 500).is_ok());
    assert_eq!(self_call_status_gate(&vec![200], 404).unwrap_err(), "self-call status 404 not in http_codes_allow_list");
}
