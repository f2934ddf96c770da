use ruuter_on_rust::json::{to_json_string, JsonNumber, JsonValue};
use ruuter_on_rust::sources::{
    connect_frames, dispatch_messages, extract_path, frame_action, resolve_constants, substitute_strict, substitute_value,
    DispatchConfig, FrameAction, ReconnectPolicy, SourceFrame, WsSourceConfig,
};

fn s(x: &str) -> JsonValue {
    JsonValue::String(x.to_string())
}
fn n(x: &str) -> JsonValue {
    JsonValue::Number(JsonNumber { repr: x.to_string() })
}
fn obj(ms: Vec<(&str, JsonValue)>) -> JsonValue {
    JsonValue::Object(ms.into_iter().map(|(k, v)| (k.to_string(), v)).collect())
}
fn consts(pairs: &[(&str, &str)]) -> Vec<(String, String)> {
    pairs.iter().map(|(k, v)| (k.to_string(), v.to_string())).collect()
}

#[test]
fn extract_path_reads_nested_members() {
    let msg = obj(vec![("T", s("b")), ("S", obj(vec![("sym", s("AAPL")), ("px", n("1.5"))]))]);
    assert_eq!(extract_path(&msg, "$.T").as_deref(), Some("b"));
    assert_eq!(extract_path(&msg, "$.S.sym").as_deref(), Some("AAPL"));
    assert_eq!(extract_path(&msg, "$.S.px").as_deref(), Some("1.5"));
    assert_eq!(extract_path(&msg, "$.S").as_deref(), Some(r#"{"px":1.5,"sym":"AAPL"}"#));
    assert_eq!(extract_path(&msg, "$.missing"), None);
    assert_eq!(extract_path(&msg, "T"), None);
    assert_eq!(extract_path(&JsonValue::Null, "$.x"), None);
    assert_eq!(extract_path(&obj(vec![("n", JsonValue::Null)]), "$.n").as_deref(), Some("null"));
}

#[test]
fn strict_substitution_names_the_missing_constant() {
    let c = consts(&[("KEY", "k1")]);
    assert_eq!(substitute_strict("tok=[#KEY]", &c).unwrap(), "tok=k1");
    assert_eq!(substitute_strict("[#KEY]/#{NOPE}/[#ALSO]", &c).unwrap_err(), "undefined constant [#NOPE]");
}

#[test]
fn values_are_substituted_throughout() {
    let c = consts(&[("A", "1")]);
    let v = obj(vec![("k", JsonValue::Array(vec![s("[#A]"), n("2")])), ("[#A]", s("x"))]);
    let out = substitute_value(v, &c).unwrap();
    assert_eq!(to_json_string(&out), r#"{"[#A]":"x","k":["1",2]}"#);
    let bad = JsonValue::Array(vec![s("ok"), s("#{B}")]);
    assert_eq!(substitute_value(bad, &c).unwrap_err(), "undefined constant [#B]");
}

fn config() -> WsSourceConfig {
    WsSourceConfig {
        url: "wss://feed/[#HOST]".to_string(),
        headers: vec![("X-Token".to_string(), "[#TOKEN]".to_string())],
        on_connect: vec![obj(vec![("action", s("auth")), ("key", s("#{TOKEN}"))])],
        dispatch: DispatchConfig { channel: "$.T".to_string(), key: "$.S".to_string() },
        reconnect: ReconnectPolicy::default(),
    }
}

#[test]
fn resolve_constants_substitutes_every_field() {
    let c = consts(&[("HOST", "h"), ("TOKEN", "t0")]);
    let out = resolve_constants(config(), &c).unwrap();
    assert_eq!(out.url, "wss://feed/h");
    assert_eq!(out.headers, vec![("X-Token".to_string(), "t0".to_string())]);
    assert_eq!(connect_frames(&out), vec![r#"{"action":"auth","key":"t0"}"#.to_string()]);
    assert_eq!(out.dispatch.channel, "$.T");
    assert_eq!(out.reconnect.initial_backoff_ms, 500);
}

#[test]
fn resolve_constants_refuses_unknown_constants() {
    let c = consts(&[("HOST", "h")]);
    assert_eq!(resolve_constants(config(), &c).unwrap_err(), "undefined constant [#TOKEN]");
}

#[test]
fn reconnect_backoff_doubles_to_the_cap_and_resets_on_clean_close() {
    let p = ReconnectPolicy::default();
    assert_eq!(p.after_disconnect(500, false), (500, 1000));
    assert_eq!(p.after_disconnect(40_000, false), (40_000, 60_000));
    assert_eq!(p.after_disconnect(60_000, true), (500, 1000));
}

#[test]
fn frames_map_to_actions() {
    assert!(matches!(frame_action(SourceFrame::Text("x".into())), FrameAction::Dispatch(t) if t == "x"));
    assert!(matches!(frame_action(SourceFrame::Binary(b"{}".to_vec())), FrameAction::Dispatch(t) if t == "{}"));
    assert!(matches!(frame_action(SourceFrame::Binary(vec![0xff, 0xfe])), FrameAction::Ignore));
    assert!(matches!(frame_action(SourceFrame::Ping(vec![1, 2])), FrameAction::SendPong(p) if p == vec![1, 2]));
    assert!(matches!(frame_action(SourceFrame::Close), FrameAction::Stop));
    assert!(matches!(frame_action(SourceFrame::Pong(vec![])), FrameAction::Ignore));
}

#[test]
fn arrays_dispatch_each_message_with_a_channel() {
    let frame = JsonValue::Array(vec![
        obj(vec![("T", s("b")), ("S", s("AAPL"))]),
        obj(vec![("T", s(""))]),
        obj(vec![("S", s("X"))]),
        obj(vec![("T", s("q"))]),
    ]);
    let out = dispatch_messages(frame, "$.T", "$.S");
    let got: Vec<(String, String)> = out.iter().map(|m| (m.channel.clone(), m.key.clone())).collect();
    assert_eq!(got, vec![("b".to_string(), "AAPL".to_string()), ("q".to_string(), "".to_string())]);
    let single = dispatch_messages(obj(vec![("T", s("t"))]), "$.T", "$.S");
    assert_eq!(single.len(), 1);
    assert_eq!(to_json_string(&single[0].message), r#"{"T":"t"}"#);
}
