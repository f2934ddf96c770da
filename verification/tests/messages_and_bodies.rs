use ruuter_on_rust::config::ResponseConfig;
use ruuter_on_rust::dsl::{decode_failure_message, not_mapping_message, StepParseError};
use ruuter_on_rust::engine::DslExecutionResult;
use ruuter_on_rust::json::{to_json_string, JsonValue};
use ruuter_on_rust::outbound::upstream_body;
use ruuter_on_rust::sources::text_frame_dispatches;
use ruuter_on_rust::router::{body_needs_parse, parsed_body, request_body, response_body, return_wrapper};
use ruuter_on_rust::scripting::{find_script_segments, Builder};
use ruuter_on_rust::ssrf::SsrfRejection;
use ruuter_on_rust::state::{StateError, StateStore};
use ruuter_on_rust::steps::http_result_value;
use ruuter_on_rust::uds::UnixUrlError;

fn members(v: &JsonValue) -> &Vec<(String, JsonValue)> {
    match v {
        JsonValue::Object(ms) => ms,
        _ => panic!("not an object"),
    }
}

fn text(v: &JsonValue) -> &str {
    match v {
        JsonValue::String(s) => s.as_str(),
        _ => panic!("not a string"),
    }
}

#[test]
fn body_without_return_is_bare_null() {
    assert!(matches!(response_body(None, None), JsonValue::Null));
    assert!(matches!(response_body(None, Some(JsonValue::Bool(true))), JsonValue::Bool(true)));
}

#[test]
fn run_without_return_answers_null() {
    let r = DslExecutionResult::empty();
    assert_eq!(r.status, 200);
    assert!(matches!(response_body(r.wrapper, r.value), JsonValue::Null));
    let cfg = ResponseConfig::default();
    let done = DslExecutionResult::from_return(None, Some(201), None, return_wrapper(&cfg, None));
    assert_eq!(done.status, 201);
    assert_eq!(done.wrapper, Some(true));
}

#[test]
fn return_wrapper_follows_step_then_config() {
    let cfg = ResponseConfig::default();
    assert!(return_wrapper(&cfg, None));
    assert!(!return_wrapper(&cfg, Some(false)));
    let wrapped = response_body(Some(return_wrapper(&cfg, None)), None);
    let ms = members(&wrapped);
    assert_eq!(ms.len(), 1);
    assert_eq!(ms[0].0, "response");
    assert!(members(&ms[0].1).is_empty());
    let raw = response_body(Some(false), Some(JsonValue::Bool(false)));
    assert!(matches!(raw, JsonValue::Bool(false)));
}

#[test]
fn segment_bounds_are_byte_offsets() {
    let segs = find_script_segments("\u{e9}${x}");
    assert_eq!(segs, vec![(2, 6, "x".to_string())]);
    let s = "\u{e9}${x}";
    assert_eq!(&s[segs[0].0..segs[0].1], "${x}");
    assert!(find_script_segments("${a").is_empty());
    assert_eq!(find_script_segments("${'}'}"), vec![(0, 6, "'}'".to_string())]);
    assert_eq!(
        find_script_segments("a ${b} \u{4e2d} ${c}"),
        vec![(2, 6, "b".to_string()), (11, 15, "c".to_string())]
    );
}

#[test]
fn http_result_keeps_last_header_value() {
    let headers = vec![
        ("x-a".to_string(), "1".to_string()),
        ("content-type".to_string(), "text/plain".to_string()),
        ("x-a".to_string(), "3".to_string()),
    ];
    let r = http_result_value(502, None, headers);
    let top = members(&r);
    assert_eq!(top[0].0, "response");
    let resp = members(&top[0].1);
    assert_eq!(resp[0].0, "body");
    assert!(matches!(resp[0].1, JsonValue::Null));
    let hs = members(&resp[1].1);
    assert_eq!(hs.len(), 2);
    assert_eq!(hs[0].0, "content-type");
    assert_eq!(text(&hs[0].1), "text/plain");
    assert_eq!(hs[1].0, "x-a");
    assert_eq!(text(&hs[1].1), "3");
    match &resp[2].1 {
        JsonValue::Number(n) => assert_eq!(n.repr, "502"),
        _ => panic!("status is not a number"),
    }
}

#[test]
fn state_cap_refuses_new_keys_and_accepts_updates() {
    let mut store = StateStore::with_max_entries_per_project(2);
    assert!(store.set("p", "a", JsonValue::Bool(true)).is_ok());
    assert!(store.set("p", "b", JsonValue::Bool(true)).is_ok());
    assert_eq!(store.project_entry_count("p"), 2);
    let refused = store.set("p", "c", JsonValue::Bool(true));
    assert!(matches!(refused, Err(StateError::CapReached { entries: 2, cap: 2 })));
    assert!(store.get("p", "c").is_none());
    assert_eq!(store.len(), 2);
    assert!(matches!(store.set("p", "a", JsonValue::Bool(false)), Ok(false)));
    assert_eq!(store.project_entry_count("p"), 2);
    assert!(matches!(store.get("p", "a"), Some(JsonValue::Bool(false))));
    assert!(store.set("q", "c", JsonValue::Null).is_ok());
    assert_eq!(store.project_entry_count("q"), 1);
    assert_eq!(store.len(), 3);
}

#[test]
fn registry_lookup_agrees_with_listing() {
    let mut b = Builder::new();
    b.register("a + 1");
    b.register("b");
    b.register("a + 1");
    let r = b.freeze();
    let listed = r.ordered();
    assert_eq!(listed.len(), 2);
    for (id, src) in listed.iter() {
        assert_eq!(r.id_for(src), Some(*id));
    }
    assert_eq!(r.id_for("c"), None);
}

#[test]
fn step_error_messages() {
    let multi = StepParseError::MultipleActions(vec!["call".to_string(), "assign".to_string()]);
    assert_eq!(
        multi.message("s1"),
        "step 's1': multiple action keys present (call, assign). Each step must contain exactly one action \u{2014} split into separate steps and chain them with `next:`."
    );
    assert_eq!(
        StepParseError::UnknownCall("foo".to_string()).message("s2"),
        "step 's2': unknown call 'foo' (expected 'declare', 'reflect.mock', or 'http.<verb>')"
    );
    assert_eq!(
        StepParseError::NoDiscriminator.message("s3"),
        "step 's3': no recognised step discriminator (expected one of call:, template:, assign:, return:, switch:, log:, state:, iterate:, ws_send:, single_flight:, or a declaration field)"
    );
}

#[test]
fn step_shape_messages() {
    assert_eq!(not_mapping_message("s", "String(\"x\")"), "step 's' must be a YAML mapping, got String(\"x\")");
    assert_eq!(decode_failure_message("s", "missing field `x`"), "Failed to parse step 's': missing field `x`");
}

#[test]
fn outbound_refusal_messages() {
    assert_eq!(
        SsrfRejection::Disabled.message("http://x/", "x", ""),
        "outbound HTTP is disabled by internal_requests.disabled"
    );
    assert_eq!(
        SsrfRejection::NotInAllowedUrls.message("http://x/a", "x", ""),
        "url not in internal_requests.allowed_urls: http://x/a"
    );
    assert_eq!(
        SsrfRejection::InvalidUrl.message("::", "", "relative URL without a base"),
        "invalid url '::': relative URL without a base"
    );
    assert_eq!(
        SsrfRejection::HostNotInAllowedIps.message("http://h/", "h", ""),
        "url host 'h' not in internal_requests.allowed_ips"
    );
    assert_eq!(
        SsrfRejection::PrivateTarget.message("http://10.0.0.1/", "10.0.0.1", ""),
        "outbound to private / link-local target '10.0.0.1' blocked (set internal_requests.block_private_networks=false or add the host to internal_requests.allowed_ips to opt in)"
    );
    assert_eq!(
        SsrfRejection::PrivateResolved.message("http://db/", "db", "10.1.2.3"),
        "outbound to 'db' blocked: DNS resolved to private / link-local 10.1.2.3 (set internal_requests.block_private_networks=false or add the host to internal_requests.allowed_ips to opt in)"
    );
    assert_eq!(
        UnixUrlError::NotUnixScheme.message("http://x/y"),
        "not a unix:// URL: http://x/y"
    );
    assert_eq!(
        UnixUrlError::MissingLeadingSlash.message("unix://host"),
        "unix:// URL missing leading / after scheme: unix://host"
    );
}

#[test]
fn declared_json_body_that_does_not_parse_is_refused() {
    assert!(body_needs_parse(2, "application/json; charset=utf-8"));
    assert!(body_needs_parse(2, "application/vnd.api+json"));
    assert!(!body_needs_parse(0, "application/json"));
    assert!(!body_needs_parse(5, "text/plain"));
    match parsed_body(Err("expected value at line 1 column 1".to_string())) {
        Err((status, b)) => {
            assert_eq!(status, 400);
            let ms = members(&b);
            assert_eq!(ms.len(), 1);
            assert_eq!(ms[0].0, "error");
            assert_eq!(text(&ms[0].1), "invalid JSON body: expected value at line 1 column 1");
        }
        Ok(_) => panic!("a parse error must be refused"),
    }
    match parsed_body(Ok(JsonValue::Bool(true))) {
        Ok(ms) => {
            assert_eq!(ms.len(), 1);
            assert_eq!(ms[0].0, "value");
        }
        Err(_) => panic!("a parsed body is accepted"),
    }
}

#[test]
fn request_body_decodes_declared_json() {
    match request_body(b"{bad", "application/json") {
        Err((status, b)) => {
            assert_eq!(status, 400);
            let ms = members(&b);
            assert_eq!(ms[0].0, "error");
            assert!(text(&ms[0].1).starts_with("invalid JSON body: "));
        }
        Ok(_) => panic!("malformed JSON must be refused"),
    }
    match request_body(br#"{"b":2,"a":"x"}"#, "application/json") {
        Ok(ms) => {
            assert_eq!(ms.len(), 2);
            assert_eq!(ms[0].0, "a");
            assert_eq!(text(&ms[0].1), "x");
            assert_eq!(ms[1].0, "b");
        }
        Err(_) => panic!("a JSON object is accepted"),
    }
    match request_body(b"[1,2]", "application/problem+json") {
        Ok(ms) => {
            assert_eq!(ms.len(), 1);
            assert_eq!(ms[0].0, "value");
            assert_eq!(to_json_string(&ms[0].1), "[1,2]");
        }
        Err(_) => panic!("a JSON array is accepted"),
    }
    assert!(matches!(request_body(b"{bad", "text/plain"), Ok(ms) if ms.is_empty()));
    assert!(matches!(request_body(b"", "application/json"), Ok(ms) if ms.is_empty()));
}

#[test]
fn upstream_body_is_decoded_or_absent() {
    assert!(upstream_body(b"").is_none());
    assert!(upstream_body(b"not json").is_none());
    let v = upstream_body(br#"{"ok":true,"n":1.50}"#).unwrap();
    assert_eq!(to_json_string(&v), r#"{"n":1.5,"ok":true}"#);
}

#[test]
fn text_frames_decode_into_dispatches() {
    let out = text_frame_dispatches(r#"[{"T":"t","S":"AAPL"},{"T":""},{"S":"x"}]"#, "$.T", "$.S").unwrap();
    assert_eq!(out.len(), 1);
    assert_eq!(out[0].channel, "t");
    assert_eq!(out[0].key, "AAPL");
    let one = text_frame_dispatches(r#"{"T":"q"}"#, "$.T", "$.S").unwrap();
    assert_eq!(one.len(), 1);
    assert!(text_frame_dispatches("{oops", "$.T", "$.S").is_err());
}
