use ruuter_on_rust::config::{AppConfig, CsrfConfig, GuardMode, IncomingRequestsConfig, OptimisticConcurrencyConfig, ResponseConfig};
use ruuter_on_rust::dsl::{classify_step, DslParser, StepKind, StepParseError};
use ruuter_on_rust::engine::{per_step_cap, RunAction, RunState, StepInfo};
use ruuter_on_rust::guards::{guard_keys_for_dsl, GuardEntry, GuardStack, GuardStackError, ProjectGuards};
use ruuter_on_rust::json::{to_json_string, JsonNumber, JsonValue};
use ruuter_on_rust::netaddr::{canonicalise_ip, is_private_or_local, IpAddress};
use ruuter_on_rust::outbound::{host_alias_lookup, merge_query_params, route_outbound, split_host_port, urlencoding_encode, OutboundRoute, SelfOrigins};
use ruuter_on_rust::router::{
    choose_origin, final_status, gate_request, origin_allowed, is_websocket_upgrade, request_target, resolve_dsl_key, self_call_split, GateVerdict,
};
use ruuter_on_rust::ssrf::{addresses_allowed, check_ssrf, SsrfRejection, SsrfVerdict};
use ruuter_on_rust::selfcall::self_call_request;

fn strs(xs: &[&str]) -> Vec<String> {
    xs.iter().map(|x| x.to_string()).collect()
}
fn s(x: &str) -> JsonValue {
    JsonValue::String(x.to_string())
}

fn entry(k: &str, o: bool) -> GuardEntry {
    GuardEntry { key: k.into(), override_ancestors: o }
}

#[test]
fn guards_stack_outermost_first() {
    let table = vec![ProjectGuards {
        project: "p".into(),
        guards: vec![entry("POST/admin/users", false), entry("_project", false), entry("POST/admin", false), entry("POST/other", false)],
    }];
    assert_eq!(
        guard_keys_for_dsl("p", "POST/admin/users/list", &table, GuardMode::Stack),
        strs(&["_project", "POST/admin", "POST/admin/users"])
    );
    assert_eq!(
        guard_keys_for_dsl("p", "POST/admin/users/list", &table, GuardMode::ClosestOnly),
        strs(&["_project", "POST/admin/users"])
    );
    assert_eq!(guard_keys_for_dsl("p", "POST/admin", &table, GuardMode::Stack), strs(&["_project", "POST/admin"]));
    assert_eq!(guard_keys_for_dsl("q", "POST/admin", &table, GuardMode::Stack), Vec::<String>::new());
    assert_eq!(guard_keys_for_dsl("p", "POST/administrator", &table, GuardMode::Stack), strs(&["_project"]));
}

#[test]
fn guard_override_replaces_every_other_guard() {
    let table = vec![ProjectGuards {
        project: "p".into(),
        guards: vec![entry("_project", false), entry("GET/a", true), entry("GET/a/b", true), entry("GET/a/b/c", false)],
    }];
    assert_eq!(guard_keys_for_dsl("p", "GET/a/b/c/d", &table, GuardMode::Stack), strs(&["GET/a/b"]));
}

#[test]
fn guard_stack_push_pop() {
    let mut st = GuardStack::new();
    let r1 = st.push_guard("a".into()).unwrap();
    assert!(st.is_guard_on_stack("a"));
    assert!(matches!(st.push_guard("a".into()), Err(GuardStackError::Cycle)));
    let r2 = st.push_guard("b".into()).unwrap();
    assert_eq!(st.guard_stack_depth(), 2);
    st.pop_guard(r2);
    st.pop_guard(r1);
    assert_eq!(st.guard_stack_depth(), 0);
    assert!(!st.is_guard_on_stack("a"));
    for i in 0..32 {
        st.push_guard(format!("g{i}")).unwrap();
    }
    assert!(matches!(st.push_guard("one-more".into()), Err(GuardStackError::DepthExceeded)));
}

#[test]
fn request_gate_order() {
    let incoming = IncomingRequestsConfig::default();
    let mut csrf = CsrfConfig::default();
    let occ = OptimisticConcurrencyConfig::default();
    assert_eq!(gate_request(&incoming, &csrf, &occ, "GET", &None, &None, false), GateVerdict::Pass);
    assert_eq!(gate_request(&incoming, &csrf, &occ, "BREW", &None, &None, false), GateVerdict::MethodNotAllowed);
    csrf.allowed_origins = strs(&["https://app.example"]);
    let post = csrf.enforce_on_methods.iter().any(|m| m.eq_ignore_ascii_case("POST"));
    if post {
        assert_eq!(gate_request(&incoming, &csrf, &occ, "POST", &None, &None, false), GateVerdict::CsrfOriginNotAllowed);
        assert_eq!(
            gate_request(&incoming, &csrf, &occ, "POST", &Some("https://app.example".into()), &None, false),
            GateVerdict::Pass
        );
        assert_eq!(
            gate_request(&incoming, &csrf, &occ, "POST", &None, &Some("https://app.example/page?x=1".into()), false),
            GateVerdict::Pass
        );
    }
    assert_eq!(GateVerdict::MethodNotAllowed.rejection().map(|r| r.0), Some(405));
    assert_eq!(GateVerdict::Pass.rejection(), None);
}

#[test]
fn routing_helpers() {
    assert!(is_websocket_upgrade(&Some("WebSocket".into()), "GET"));
    assert!(!is_websocket_upgrade(&Some("websocket".into()), "POST"));
    let t = request_target("/proj/a//b/").unwrap();
    assert_eq!((t.project.as_str(), t.endpoint_path.as_str()), ("proj", "a/b"));
    assert!(request_target("///").is_none());
    let keys = strs(&["GET/users", "GET/users/by-id"]);
    let m = resolve_dsl_key(&keys, "GET", "users/42/details").unwrap();
    assert_eq!(m.key, "GET/users");
    assert_eq!(m.path_params, strs(&["42", "details"]));
    assert!(resolve_dsl_key(&keys, "GET", "nothing").is_none());
    assert_eq!(self_call_split("//svc/a/b"), ("svc".to_string(), "a/b".to_string()));
    assert_eq!(self_call_split("svc"), ("svc".to_string(), "".to_string()));
    let cfg = ResponseConfig::default();
    let st = final_status(&cfg, 200, true);
    assert!(st == 200 || st == 204);
}

#[test]
fn client_ip_choice() {
    let peer = Some(IpAddress::V4(10, 0, 0, 1));
    let fwd = Some(IpAddress::V4(203, 0, 113, 9));
    assert_eq!(choose_origin(peer, &vec![], fwd), peer);
    assert_eq!(choose_origin(peer, &vec![IpAddress::V4(10, 0, 0, 1)], fwd), fwd);
}

#[test]
fn addresses() {
    assert!(is_private_or_local(IpAddress::V4(127, 0, 0, 1)));
    assert!(is_private_or_local(IpAddress::V4(192, 168, 1, 1)));
    assert!(!is_private_or_local(IpAddress::V4(8, 8, 8, 8)));
    assert!(is_private_or_local(IpAddress::V6(0, 0, 0, 0, 0, 0, 0, 1)));
    assert_eq!(
        canonicalise_ip(IpAddress::V6(0, 0, 0, 0, 0, 0xffff, 0x7f00, 0x0001)),
        IpAddress::V4(127, 0, 0, 1)
    );
    assert!(addresses_allowed(&vec![IpAddress::V4(8, 8, 8, 8)]).is_ok());
    assert!(addresses_allowed(&vec![IpAddress::V4(8, 8, 8, 8), IpAddress::V4(10, 1, 1, 1)]).is_err());
}

#[test]
fn url_parsing_goes_through_the_url_crate() {
    let map = vec![("example.com".to_string(), "/run/ex.sock".to_string())];
    assert_eq!(host_alias_lookup(&map, "HTTPS://Example.COM:443/a%20b?x=1").as_deref(), Some("/run/ex.sock"));
    assert_eq!(host_alias_lookup(&map, "not a url"), None);
    let req = self_call_request("HTTPS://Example.COM:443/a%20b?x=1", None, None, &None).unwrap();
    assert_eq!(req.path, "/a%20b");
    assert!(origin_allowed(&None, &Some("HTTPS://App.Example:443/page".into()), &vec!["https://app.example".to_string()]));
}

#[test]
fn ssrf_policy() {
    let mut policy = AppConfig::default().internal_requests;
    policy.disabled = true;
    assert!(matches!(check_ssrf(&policy, "http://x/"), SsrfVerdict::Rejected(SsrfRejection::Disabled)));
    policy.disabled = false;
    policy.block_private_networks = false;
    assert!(matches!(check_ssrf(&policy, "http://10.0.0.1/"), SsrfVerdict::Allowed));
}

#[test]
fn outbound_helpers() {
    assert_eq!(split_host_port("example.com:8080"), Some(("example.com".to_string(), 8080)));
    assert_eq!(split_host_port("example.com"), None);
    assert_eq!(urlencoding_encode("a b&c/é"), "a%20b%26c%2F%C3%A9");
    let extra = Some(vec![("q".to_string(), s("x y")), ("n".to_string(), JsonValue::Number(JsonNumber { repr: "2".into() }))]);
    assert_eq!(merge_query_params("/p?a=1", &extra), "/p?a=1&q=x%20y&n=2");
    assert_eq!(merge_query_params("/p", &extra), "/p?q=x%20y&n=2");
    assert_eq!(merge_query_params("/p", &None), "/p");
    let origins = SelfOrigins::new();
    let map = vec![("svc".to_string(), "/run/svc.sock".to_string())];
    assert!(matches!(route_outbound(true, &origins, false, &map, "http://svc/x"), OutboundRoute::Disabled));
    assert!(matches!(route_outbound(false, &origins, false, &map, "unix:///run/a.sock/x"), OutboundRoute::UnixUrl));
    assert!(matches!(route_outbound(false, &origins, false, &map, "http://svc/x"), OutboundRoute::Alias(p) if p == "/run/svc.sock"));
    assert!(matches!(route_outbound(false, &origins, false, &map, "http://other/x"), OutboundRoute::Tcp));
}

#[test]
fn step_classification() {
    let keys = |ks: &[&str]| ks.iter().map(|k| Some(k.to_string())).collect::<Vec<_>>();
    assert!(matches!(classify_step(&keys(&["assign", "next"]), &None), Ok(StepKind::Assign)));
    assert!(matches!(classify_step(&keys(&["call", "args"]), &Some("http.post".into())), Ok(StepKind::Http)));
    assert!(matches!(classify_step(&keys(&["call"]), &Some("declare".into())), Ok(StepKind::Declaration)));
    assert!(matches!(classify_step(&keys(&["call"]), &Some("bogus".into())), Err(StepParseError::UnknownCall(c)) if c == "bogus"));
    assert!(matches!(classify_step(&keys(&["log", "assign"]), &None), Err(StepParseError::MultipleActions(p)) if p.len() == 2));
    assert!(matches!(classify_step(&keys(&["next"]), &None), Ok(StepKind::Declaration)));
    assert!(matches!(classify_step(&keys(&["weird"]), &None), Err(StepParseError::NoDiscriminator)));
    let p = DslParser::new(vec![("HOST".to_string(), "h".to_string())]);
    assert_eq!(p.replace_constants("url: http://[#HOST]/#{X}"), "url: http://h/#{X}");
}

#[test]
fn scheduler_runs_in_order_and_respects_caps() {
    let steps = vec![
        StepInfo { name: "a".into(), max_recursions: None, skip: false, reload_dsl: false },
        StepInfo { name: "b".into(), max_recursions: Some(1), skip: true, reload_dsl: false },
    ];
    assert_eq!(per_step_cap(&steps[1], 10), 1);
    let mut st = RunState::new(2, 10);
    assert!(matches!(st.next_action(&steps), RunAction::Dispatch { index: 0, skipped: false }));
    st.after_step(&steps, 0, &Some("b".into()));
    assert!(matches!(st.next_action(&steps), RunAction::Dispatch { index: 1, skipped: true }));
    st.after_step(&steps, 1, &Some("end".into()));
    assert!(matches!(st.next_action(&steps), RunAction::Finished));
}

#[test]
fn json_text_matches_serde_json() {
    let v = JsonValue::Object(vec![
        ("s".into(), s("a\"b\\c\n\u{1}")),
        ("a".into(), JsonValue::Array(vec![JsonValue::Null, JsonValue::Bool(false)])),
    ]);
    let ours = to_json_string(&v);
    let theirs = serde_json::to_string(&serde_json::Value::String("a\"b\\c\n\u{1}".to_string())).unwrap();
    assert!(ours.contains(&theirs));
    assert_eq!(ours, "{\"a\":[null,false],\"s\":\"a\\\"b\\\\c\\n\\u0001\"}");
}
