use ruuter_on_rust::json::{JsonNumber, JsonValue};
use ruuter_on_rust::ws::{apply_ws_tag, coerce_tag_value, client_id, random_client_id, send_targets, source_id, ResolvedWhere, SendTargets, TagRegistry};

fn s(x: &str) -> JsonValue {
    JsonValue::String(x.to_string())
}
fn tag(k: &str, v: &str) -> Vec<(String, String)> {
    vec![(k.to_string(), v.to_string())]
}
fn get(tags: &[(String, String)], k: &str) -> Option<String> {
    tags.iter().find(|(n, _)| n == k).map(|(_, v)| v.clone())
}
fn contains_filter(t: &str, c: &str) -> ResolvedWhere {
    ResolvedWhere::resolve(t.to_string(), None, Some(c.to_string())).unwrap()
}
fn equals_filter(t: &str, e: &str) -> ResolvedWhere {
    ResolvedWhere::resolve(t.to_string(), Some(e.to_string()), None).unwrap()
}

#[test]
fn coerce_tag_value_covers_json_shapes() {
    assert_eq!(coerce_tag_value(s("abc")), "abc");
    assert_eq!(coerce_tag_value(s("\"quoted\"")), "\"quoted\"");
    assert_eq!(coerce_tag_value(JsonValue::Null), "");
    assert_eq!(coerce_tag_value(JsonValue::Number(JsonNumber { repr: "42".to_string() })), "42");
    assert_eq!(coerce_tag_value(JsonValue::Bool(true)), "true");
    assert_eq!(coerce_tag_value(JsonValue::Array(vec![s("a"), s("b")])), "[\"a\",\"b\"]");
    assert_eq!(coerce_tag_value(JsonValue::Object(vec![("k".to_string(), s("v"))])), "{\"k\":\"v\"}");
}

#[test]
fn set_tags_merges_and_broadcast_where_filters() {
    let mut reg = TagRegistry::new();
    reg.register("client:a".into());
    reg.register("client:b".into());
    reg.set_tags("client:a", tag("roles", ",admin,ops,")).unwrap();
    reg.set_tags("client:b", tag("roles", ",viewer,")).unwrap();
    reg.set_tags("client:a", tag("tenant", "acme")).unwrap();

    let tags = reg.tags_of("client:a").unwrap();
    assert_eq!(get(&tags, "roles").as_deref(), Some(",admin,ops,"));
    assert_eq!(get(&tags, "tenant").as_deref(), Some("acme"));

    let delivered = reg.matching_ids(&contains_filter("roles", ",admin,"));
    assert_eq!(delivered, vec!["client:a".to_string()]);
}

#[test]
fn set_tags_errors_for_unknown_connection() {
    let mut reg = TagRegistry::new();
    let e = reg.set_tags("client:ghost", tag("k", "v")).unwrap_err();
    assert_eq!(e, "ws_tag: no such connection 'client:ghost'");
}

#[test]
fn tags_dropped_on_unregister() {
    let mut reg = TagRegistry::new();
    reg.register("client:a".into());
    reg.set_tags("client:a", tag("k", "v")).unwrap();
    reg.unregister("client:a");
    assert!(reg.tags_of("client:a").is_none());
}

#[test]
fn broadcast_where_equals_matches_whole_value_only() {
    let mut reg = TagRegistry::new();
    reg.register("client:a".into());
    reg.register("client:b".into());
    reg.set_tags("client:a", tag("tenant", "acme")).unwrap();
    reg.set_tags("client:b", tag("tenant", "acme-eu")).unwrap();
    let delivered = reg.matching_ids(&equals_filter("tenant", "acme"));
    assert_eq!(delivered, vec!["client:a".to_string()]);
}

#[test]
fn broadcast_where_skips_connections_missing_the_tag() {
    let mut reg = TagRegistry::new();
    reg.register("client:a".into());
    reg.register("client:b".into());
    reg.register("client:c".into());
    reg.set_tags("client:a", tag("roles", ",admin,")).unwrap();
    reg.set_tags("client:b", tag("roles", ",viewer,")).unwrap();
    let delivered = reg.matching_ids(&contains_filter("roles", ",admin,"));
    assert_eq!(delivered, vec!["client:a".to_string()]);
}

#[test]
fn broadcast_where_returns_zero_when_no_connections_match() {
    let mut reg = TagRegistry::new();
    reg.register("client:a".into());
    reg.set_tags("client:a", tag("roles", ",viewer,")).unwrap();
    let delivered = reg.matching_ids(&contains_filter("roles", ",admin,"));
    assert_eq!(delivered.len(), 0);
}

#[test]
fn set_tags_second_call_overwrites_same_key() {
    let mut reg = TagRegistry::new();
    reg.register("client:a".into());
    reg.set_tags("client:a", tag("roles", "viewer")).unwrap();
    reg.set_tags("client:a", tag("roles", "admin")).unwrap();
    assert_eq!(get(&reg.tags_of("client:a").unwrap(), "roles").as_deref(), Some("admin"));
}

#[test]
fn writes_evaluated_values_to_registry() {
    let mut reg = TagRegistry::new();
    reg.register("client:x".into());
    let entries = vec![
        ("user".to_string(), coerce_tag_value(s("alice"))),
        ("roles".to_string(), coerce_tag_value(s(",admin,ops,"))),
        ("nullable".to_string(), coerce_tag_value(JsonValue::Null)),
    ];
    reg.set_tags("client:x", entries).unwrap();
    let tags = reg.tags_of("client:x").unwrap();
    assert_eq!(get(&tags, "user").as_deref(), Some("alice"));
    assert_eq!(get(&tags, "roles").as_deref(), Some(",admin,ops,"));
    assert_eq!(get(&tags, "nullable").as_deref(), Some(""));
}

#[test]
fn empty_set_is_a_valid_noop_on_a_registered_connection() {
    let mut reg = TagRegistry::new();
    reg.register("client:x".into());
    reg.set_tags("client:x", Vec::new()).unwrap();
    assert!(reg.tags_of("client:x").unwrap().is_empty());
}

#[test]
fn later_entry_in_one_call_wins() {
    let mut reg = TagRegistry::new();
    reg.register("c".into());
    reg.set_tags("c", vec![("k".into(), "1".into()), ("k".into(), "2".into())]).unwrap();
    let tags = reg.tags_of("c").unwrap();
    assert_eq!(tags.len(), 1);
    assert_eq!(get(&tags, "k").as_deref(), Some("2"));
}

#[test]
fn where_filter_needs_exactly_one_operand() {
    assert!(ResolvedWhere::resolve("".into(), Some("x".into()), None).is_err());
    assert_eq!(
        ResolvedWhere::resolve("t".into(), Some("x".into()), Some("y".into())).unwrap_err(),
        "ws_send: broadcast_where takes exactly one of `equals` / `contains`"
    );
    assert_eq!(
        ResolvedWhere::resolve("t".into(), None, None).unwrap_err(),
        "ws_send: broadcast_where needs one of `equals` / `contains`"
    );
}

#[test]
fn ids_have_their_shapes() {
    assert_eq!(source_id("p", "feed"), "source:p:feed");
    assert_eq!(client_id(255), format!("client:{:032x}", 255u128));
}

#[test]
fn send_targets_from_to_or_connection() {
    match send_targets(Some(s("client:1")), &None).unwrap() {
        SendTargets::Unicast(t) => assert_eq!(t, "client:1"),
        _ => panic!("unicast expected"),
    }
    match send_targets(Some(JsonValue::Array(vec![s("a"), JsonNumber { repr: "7".into() }.into_value()])), &None).unwrap() {
        SendTargets::FanOut(ids) => assert_eq!(ids, vec!["a".to_string(), "7".to_string()]),
        _ => panic!("fan-out expected"),
    }
    match send_targets(None, &Some("client:me".to_string())).unwrap() {
        SendTargets::Unicast(t) => assert_eq!(t, "client:me"),
        _ => panic!("unicast expected"),
    }
    assert_eq!(
        send_targets(None, &None).unwrap_err(),
        "ws_send: no `to`, no `broadcast_prefix`, and context has no connection_id"
    );
    assert_eq!(
        send_targets(Some(JsonValue::Bool(true)), &None).unwrap_err(),
        "ws_send: `to` must resolve to a string or array of strings, got: true"
    );
}

trait IntoValue {
    fn into_value(self) -> JsonValue;
}
impl IntoValue for JsonNumber {
    fn into_value(self) -> JsonValue {
        JsonValue::Number(self)
    }
}

#[test]
fn random_client_ids_are_fresh() {
    let a = random_client_id();
    let b = random_client_id();
    assert!(a.starts_with("client:") && a.len() == 7 + 32);
    assert!(a[7..].chars().all(|c| c.is_ascii_hexdigit() && !c.is_ascii_uppercase()));
    assert_ne!(a, b);
}

#[test]
fn errors_when_context_has_no_connection_id() {
    let mut reg = TagRegistry::new();
    let err = apply_ws_tag(&mut reg, &None, vec![("k".to_string(), s("v"))]).unwrap_err();
    assert!(err.contains("connection_id"), "got: {err}");
}

#[test]
fn errors_when_connection_is_not_registered() {
    let mut reg = TagRegistry::new();
    let err = apply_ws_tag(&mut reg, &Some("client:ghost".to_string()), vec![("k".to_string(), s("v"))]).unwrap_err();
    assert!(err.contains("client:ghost"), "got: {err}");
}

#[test]
fn ws_tag_step_writes_tags_and_logs_keys() {
    let mut reg = TagRegistry::new();
    reg.register("client:x".into());
    let keys = apply_ws_tag(
        &mut reg,
        &Some("client:x".to_string()),
        vec![("user".to_string(), s("alice")), ("n".to_string(), JsonValue::Number(JsonNumber { repr: "3".into() }))],
    )
    .unwrap();
    assert_eq!(keys, "user,n");
    let tags = reg.tags_of("client:x").unwrap();
    assert_eq!(get(&tags, "n").as_deref(), Some("3"));
}
