use ruuter_on_rust::audit::{MethodRoutes, ProjectRoutes};
use ruuter_on_rust::context::ExecutionContext;
use ruuter_on_rust::flow::{
    assigned_keys_log, find_template, iterate_items, mock_binding, sort_strings, state_get_binding, template_dsl_key, IterateError,
};
use ruuter_on_rust::idempotency::IdempotencyStore;
use ruuter_on_rust::json::{to_json_string, JsonNumber, JsonValue};
use ruuter_on_rust::single_flight::{follower_action, leader_outcome, FollowerAction, FollowerWait, Outcome, Registry};
use ruuter_on_rust::supervisor::{admin_enabled, watch_step, SourceId, SourceStatus, SourceSupervisor, TaskExit, Watch};
use ruuter_on_rust::testkit::{calls_matching, find_mock, type_matches, CallRecord, Mode, MockUpstream};
use ruuter_on_rust::triggers::{trigger_body, trigger_key, TriggerChannel};
use sha2::{Digest, Sha256};

fn s(x: &str) -> JsonValue {
    JsonValue::String(x.to_string())
}
fn n(x: &str) -> JsonValue {
    JsonValue::Number(JsonNumber { repr: x.to_string() })
}
fn strs(xs: &[&str]) -> Vec<String> {
    xs.iter().map(|x| x.to_string()).collect()
}
fn id(p: &str, n: &str) -> SourceId {
    SourceId { project: p.into(), name: n.into(), kind: "websocket".into() }
}

#[test]
fn watchdog_decisions() {
    match watch_step(TaskExit::Returned, 0, 500, 60_000) {
        Watch::Stop(SourceStatus::Dead { reason }) => assert_eq!(reason, "clean exit"),
        other => panic!("{other:?}"),
    }
    match watch_step(TaskExit::Cancelled, 3, 500, 60_000) {
        Watch::Stop(SourceStatus::Dead { reason }) => assert_eq!(reason, "task cancelled"),
        other => panic!("{other:?}"),
    }
    match watch_step(TaskExit::Panicked("boom".into()), 2, 40_000, 60_000) {
        Watch::Restart { status, restart_count, sleep_ms, next_backoff_ms } => {
            assert_eq!((restart_count, sleep_ms, next_backoff_ms), (3, 40_000, 60_000));
            match status {
                SourceStatus::Restarting { restart_count, last_error, next_attempt_in_ms } => {
                    assert_eq!((restart_count, last_error.as_str(), next_attempt_in_ms), (3, "panic: boom", 40_000));
                }
                other => panic!("{other:?}"),
            }
        }
        other => panic!("{other:?}"),
    }
    match watch_step(TaskExit::Aborted, 0, 500, 60_000) {
        Watch::Restart { status: SourceStatus::Restarting { last_error, .. }, next_backoff_ms, .. } => {
            assert_eq!(last_error, "task aborted");
            assert_eq!(next_backoff_ms, 1000);
        }
        other => panic!("{other:?}"),
    }
}

#[test]
fn supervisor_report_counts_statuses() {
    let mut sup = SourceSupervisor::new();
    sup.register(&id("p", "a"), 1);
    sup.register(&id("p", "b"), 1);
    sup.register(&id("p", "c"), 1);
    sup.table.set_status(&id("p", "a"), SourceStatus::Running, 0, 2);
    sup.table.set_status(&id("p", "b"), SourceStatus::Dead { reason: "clean exit".into() }, 0, 3);
    sup.table.set_status(&id("p", "a"), SourceStatus::Running, 0, 4);
    let r = sup.table.report();
    assert_eq!((r.total, r.running, r.restarting, r.dead), (3, 1, 0, 1));
    let a = r.sources.iter().find(|s| s.id.name == "a").unwrap();
    assert_eq!(a.last_status_change_unix_ms, 4);
}

#[test]
fn admin_flag_values() {
    assert!(admin_enabled(&Some("TRUE".into())));
    assert!(admin_enabled(&Some("1".into())));
    assert!(admin_enabled(&Some("yes".into())));
    assert!(!admin_enabled(&Some("on".into())));
    assert!(!admin_enabled(&None));
}

#[test]
fn context_variables_and_trace() {
    let headers = vec![("traceparent".to_string(), "00-4bf92f3577b34da6a3ce929d0e0e4736-00f067aa0ba902b7-01".to_string())];
    let mut ctx = ExecutionContext::new(vec![], vec![], headers, "origin".into());
    assert_eq!(ctx.trace_id().as_deref(), Some("4bf92f3577b34da6a3ce929d0e0e4736"));
    assert!(ctx.get_variable("x").is_none());
    ctx.set_variable("x".into(), n("1"));
    ctx.set_variable("x".into(), n("2"));
    assert_eq!(to_json_string(ctx.get_variable("x").unwrap()), "2");
    assert_eq!(ctx.variables.len(), 1);
    let plain = ExecutionContext::new(vec![], vec![], vec![], "o".into());
    assert_eq!(plain.trace_id(), None);
}

#[test]
fn dedup_key_is_deterministic() {
    let a = IdempotencyStore::dedup_key("k", "POST", "svc", "orders");
    let b = IdempotencyStore::dedup_key("k", "POST", "svc", "orders");
    assert_eq!(a, b);
    let c = IdempotencyStore::dedup_key("k", "POST", "svc", "OTHER");
    assert_ne!(a, c);
}

#[test]
fn dedup_key_hashes_the_joined_fields() {
    let want: [u8; 32] = Sha256::digest(b"k|POST|svc|orders").into();
    assert_eq!(IdempotencyStore::dedup_key("k", "POST", "svc", "orders"), want);
}

#[test]
fn expired_entry_is_evicted_on_read() {
    let mut store = IdempotencyStore::new(10);
    let key = IdempotencyStore::dedup_key("k", "POST", "s", "p");
    store.insert_at(key, 200, None, vec![], 1_000);
    assert!(store.get_at(&key, 1_005).is_some());
    assert!(store.get_at(&key, 1_020).is_none());
    assert_eq!(store.len(), 0);
}

#[test]
fn insert_sweeps_expired_entries() {
    let mut store = IdempotencyStore::new(10);
    let k1 = IdempotencyStore::dedup_key("1", "POST", "s", "p");
    let k2 = IdempotencyStore::dedup_key("2", "POST", "s", "p");
    store.insert_at(k1, 201, Some(n("1")), vec![], 0);
    store.insert_at(k2, 202, None, vec![], 100);
    assert_eq!(store.len(), 1);
    assert_eq!(store.get_at(&k2, 105).unwrap().status, 202);
}

#[test]
fn single_flight_one_leader_until_removed() {
    let mut reg = Registry::new();
    assert!(reg.claim("k"));
    assert!(!reg.claim("k"));
    assert!(reg.claim("other"));
    reg.remove("k");
    assert!(reg.claim("k"));
    assert_eq!(reg.len(), 2);
}

#[test]
fn single_flight_cap_evicts_beyond_the_first_slots() {
    let mut reg = Registry::with_capacity(2);
    assert!(reg.claim("a"));
    assert!(reg.claim("b"));
    assert!(reg.claim("c"));
    assert_eq!(reg.len(), 3);
    assert!(reg.claim("d"));
    assert_eq!(reg.len(), 3);
    assert!(reg.claim("c"));
}

#[test]
fn leader_and_follower_outcomes() {
    assert!(matches!(leader_outcome(Some("bad".into()), &Some("r".into()), None), Outcome::Failed(m) if m == "bad"));
    assert!(matches!(leader_outcome(None, &Some("r".into()), None), Outcome::Value(Some(JsonValue::Null))));
    assert!(matches!(leader_outcome(None, &None, Some(n("1"))), Outcome::Value(None)));
    assert!(matches!(
        follower_action(FollowerWait::Received(Outcome::Value(Some(n("3")))), &None),
        FollowerAction::Continue(None)
    ));
    assert!(matches!(follower_action(FollowerWait::Closed, &None), FollowerAction::LeaderDropped));
    assert!(matches!(follower_action(FollowerWait::TimedOut, &None), FollowerAction::TimedOut));
}

#[test]
fn triggers_pick_key_then_default() {
    let table = vec![TriggerChannel { project: "p".into(), channel: "bars".into(), keys: strs(&["AAPL", "_default"]) }];
    assert_eq!(trigger_key(&table, "p", "bars", "AAPL").as_deref(), Some("AAPL"));
    assert_eq!(trigger_key(&table, "p", "bars", "MSFT").as_deref(), Some("_default"));
    assert_eq!(trigger_key(&table, "p", "quotes", "AAPL"), None);
    let only = vec![TriggerChannel { project: "p".into(), channel: "c".into(), keys: strs(&["x"]) }];
    assert_eq!(trigger_key(&only, "p", "c", "y"), None);
    let body = trigger_body(n("5"));
    assert_eq!(body.len(), 1);
    assert_eq!(body[0].0, "value");
}

#[test]
fn flow_helpers() {
    assert_eq!(sort_strings(strs(&["b", "a", "B", "a"])), strs(&["B", "a", "a", "b"]));
    assert_eq!(assigned_keys_log(strs(&["z", "m"])), "m,z");
    assert_eq!(template_dsl_key(&None, "/templates/x/"), ("GET".to_string(), "GET/templates/x".to_string()));
    assert_eq!(template_dsl_key(&Some("post".into()), "t"), ("POST".to_string(), "POST/t".to_string()));
    let http = vec![ProjectRoutes { project: "p".into(), methods: vec![MethodRoutes { method: "GET".into(), keys: strs(&["GET/t"]) }] }];
    assert!(find_template(&http, "p", "GET", "GET/t").is_ok());
    assert_eq!(find_template(&http, "q", "GET", "GET/t").unwrap_err(), "template not found: GET/t (project=q)");
    assert!(matches!(iterate_items(JsonValue::Array(vec![n("1"), n("2")]), Some(1)), Err(IterateError::TooMany { count: 2, max: 1 })));
    assert_eq!(iterate_items(JsonValue::Array(vec![n("1")]), None).unwrap().len(), 1);
    assert!(matches!(iterate_items(s("x"), None), Err(IterateError::NotArray(_))));
    let (v, hit) = state_get_binding(None);
    assert!(matches!(v, JsonValue::Null) && !hit);
    assert_eq!(
        to_json_string(&mock_binding(201, s("b"), Some(n("7")))),
        r#"{"request":7,"response":{"body":"b","headers":{},"status":201}}"#
    );
}

#[test]
fn testkit_pieces() {
    assert_eq!(Mode::from_name("mock-http"), Some(Mode::MockHttp));
    assert_eq!(Mode::from_name("bogus"), None);
    assert_eq!(Mode::default(), Mode::Inprocess);
    assert!(type_matches("number", &n("42")));
    assert!(!type_matches("number", &s("42")));
    assert!(type_matches("boolean", &JsonValue::Bool(true)));
    assert!(type_matches("any", &JsonValue::Null));
    assert!(!type_matches("nope", &JsonValue::Null));
    let mocks = vec![
        MockUpstream { url_matches: "/orders".into(), method: "POST".into(), status: 201, body: None, headers: vec![] },
        MockUpstream { url_matches: "/orders".into(), method: "get".into(), status: 200, body: None, headers: vec![] },
    ];
    assert_eq!(find_mock(&mocks, "GET", "http://x/orders/1"), Some(1));
    assert_eq!(find_mock(&mocks, "DELETE", "http://x/orders/1"), None);
    let calls = vec![
        CallRecord { method: "GET".into(), url: "/a/orders".into(), body: JsonValue::Null },
        CallRecord { method: "GET".into(), url: "/b".into(), body: JsonValue::Null },
        CallRecord { method: "GET".into(), url: "/orders".into(), body: JsonValue::Null },
    ];
    assert_eq!(calls_matching(&calls, "orders"), vec![0, 2]);
}
