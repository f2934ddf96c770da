use ruuter_on_rust::json::{to_json_string, JsonNumber, JsonValue};
use ruuter_on_rust::openapi::collect_return_statuses;
use ruuter_on_rust::openapi_doc::{
    build_named_parameter, build_object_schema, build_parameters, build_request_body, build_spec_from_http, field_schema,
    MethodDocs, ProjectDocs, RouteDoc,
};
use ruuter_on_rust::serve::{Allowlist, DeclarationStep, DslField};

fn get<'a>(v: &'a JsonValue, k: &str) -> Option<&'a JsonValue> {
    match v {
        JsonValue::Object(ms) => ms.iter().find(|(n, _)| n == k).map(|(_, v)| v),
        _ => None,
    }
}

fn text(v: Option<&JsonValue>) -> Option<String> {
    match v {
        Some(JsonValue::String(s)) => Some(s.clone()),
        _ => None,
    }
}

fn num(n: u16) -> Option<JsonValue> {
    Some(JsonValue::Number(JsonNumber { repr: n.to_string() }))
}

fn docs_with(project: &str, method: &str, key: &str, status: Option<u16>) -> Vec<ProjectDocs> {
    let statuses = collect_return_statuses(&vec![status.and_then(num)]);
    vec![ProjectDocs {
        project: project.into(),
        methods: vec![MethodDocs {
            method: method.into(),
            routes: vec![RouteDoc { key: format!("{}/{}", method, key), statuses, declaration: None }],
        }],
    }]
}

fn field(name: &str) -> DslField {
    DslField { field: name.into(), field_type: None, required: None, format: None, description: None, default: None, items: None }
}

#[test]
fn spec_emits_route_for_every_dsl() {
    let spec = build_spec_from_http(&docs_with("svc", "GET", "ping", Some(202)), "0.4.0");
    let paths = get(&spec, "paths").unwrap();
    let op = get(get(paths, "/svc/ping").unwrap(), "get").unwrap();
    assert_eq!(text(get(op, "operationId")).as_deref(), Some("get_svc_ping"));
    assert!(get(get(op, "responses").unwrap(), "202").is_some());
}

#[test]
fn spec_defaults_to_200_when_no_status_literal() {
    let spec = build_spec_from_http(&docs_with("svc", "POST", "orders", None), "0.4.0");
    let op = get(get(get(&spec, "paths").unwrap(), "/svc/orders").unwrap(), "post").unwrap();
    assert!(get(get(op, "responses").unwrap(), "200").is_some());
}

#[test]
fn spec_error_status_uses_error_schema_ref() {
    let spec = build_spec_from_http(&docs_with("svc", "GET", "bad", Some(400)), "0.4.0");
    let op = get(get(get(&spec, "paths").unwrap(), "/svc/bad").unwrap(), "get").unwrap();
    let resp = get(get(op, "responses").unwrap(), "400").unwrap();
    let schema = get(get(get(resp, "content").unwrap(), "application/json").unwrap(), "schema").unwrap();
    assert_eq!(text(get(schema, "$ref")).as_deref(), Some("#/components/schemas/Error"));
}

#[test]
fn document_top_level_shape() {
    let spec = build_spec_from_http(&vec![], "1.2.3");
    let keys: Vec<String> = match &spec {
        JsonValue::Object(ms) => ms.iter().map(|(k, _)| k.clone()).collect(),
        _ => vec![],
    };
    assert_eq!(keys, vec!["components", "info", "openapi", "paths", "security", "servers"]);
    assert_eq!(text(get(get(&spec, "info").unwrap(), "version")).as_deref(), Some("1.2.3"));
    assert_eq!(text(get(&spec, "openapi")).as_deref(), Some("3.1.0"));
}

#[test]
fn ws_routes_are_not_documented() {
    let spec = build_spec_from_http(&docs_with("svc", "WS", "echo", None), "1");
    assert_eq!(to_json_string(get(&spec, "paths").unwrap()), "{}");
}

#[test]
fn field_schemas() {
    let mut f = field("tags");
    f.field_type = Some("array".into());
    f.items = Some(Box::new(DslField { field_type: Some("integer".into()), format: Some("int64".into()), ..field("t") }));
    f.description = Some("labels".into());
    assert_eq!(
        to_json_string(&field_schema(&f)),
        r#"{"description":"labels","items":{"format":"int64","type":"integer"},"type":"array"}"#
    );
    let mut a = field("a");
    a.required = Some(true);
    let obj = build_object_schema(&vec![field("z"), a, field("z")]);
    assert_eq!(
        to_json_string(&obj),
        r#"{"properties":{"a":{"type":"string"},"z":{"type":"string"}},"required":["a"],"type":"object"}"#
    );
    assert_eq!(
        to_json_string(&build_named_parameter("id", "query", &field("id"))),
        r#"{"in":"query","name":"id","required":false,"schema":{"type":"string"}}"#
    );
}

fn decl() -> DeclarationStep {
    DeclarationStep {
        allowed_body: Some(vec!["b".into(), "a".into()]),
        allowed_header: Some(vec!["x-h".into()]),
        allowed_params: None,
        allowlist: Some(Allowlist { body: None, headers: None, params: Some(vec![field("q")]) }),
        strict: None,
        override_ancestors: None,
        description: None,
        returns: None,
    }
}

#[test]
fn parameters_and_body() {
    let d = Some(decl());
    assert_eq!(
        to_json_string(&build_parameters(&d).unwrap()),
        r#"[{"in":"query","name":"q","required":false,"schema":{"type":"string"}},{"in":"header","name":"x-h","required":false,"schema":{"type":"string"}}]"#
    );
    assert!(build_parameters(&None).is_none());
    assert_eq!(
        to_json_string(&build_request_body("post", &d).unwrap()),
        r#"{"content":{"application/json":{"schema":{"properties":{"a":{"type":"string"},"b":{"type":"string"}},"type":"object"}}},"required":true}"#
    );
    assert!(build_request_body("GET", &d).is_none());
}
