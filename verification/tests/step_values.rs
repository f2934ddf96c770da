use ruuter_on_rust::json::{is_truthy, JsonNumber, JsonValue};
use ruuter_on_rust::steps::render_set_cookie;

fn s(x: &str) -> JsonValue {
    JsonValue::String(x.to_string())
}
fn n(x: &str) -> JsonValue {
    JsonValue::Number(JsonNumber { repr: x.to_string() })
}
fn obj(ms: Vec<(&str, JsonValue)>) -> JsonValue {
    JsonValue::Object(ms.into_iter().map(|(k, v)| (k.to_string(), v)).collect())
}

#[test]
fn string_set_cookie_passes_through_verbatim() {
    assert_eq!(render_set_cookie(s("session=abc")), "session=abc");
}

#[test]
fn object_set_cookie_adds_java_parity_defaults() {
    let out = render_set_cookie(obj(vec![("session", s("abc"))]));
    assert!(out.contains("session=abc"), "kept the DSL-authored pair: {out}");
    assert!(out.contains("HttpOnly"), "added HttpOnly: {out}");
    assert!(out.contains("Secure"), "added Secure: {out}");
    assert!(out.contains("Path=/"), "added Path=/: {out}");
    assert!(out.contains("Max-Age=28800"), "added Max-Age=28800: {out}");
}

#[test]
fn object_set_cookie_does_not_override_dsl_authored_max_age() {
    let out = render_set_cookie(obj(vec![("Max-Age", n("60")), ("session", s("abc"))]));
    assert!(out.contains("Max-Age=60"), "kept DSL Max-Age: {out}");
    assert!(!out.contains("Max-Age=28800"));
}

#[test]
fn object_set_cookie_drops_explicit_false_flags() {
    let out = render_set_cookie(obj(vec![("HttpOnly", JsonValue::Bool(false)), ("session", s("abc"))]));
    assert!(!out.contains("HttpOnly"), "dropped HttpOnly: false: {out}");
    assert!(out.contains("session=abc"));
}

#[test]
fn null_and_undefined_are_falsy() {
    assert!(!is_truthy(&JsonValue::Null));
}

#[test]
fn booleans_pass_through() {
    assert!(is_truthy(&JsonValue::Bool(true)));
    assert!(!is_truthy(&JsonValue::Bool(false)));
}

#[test]
fn zero_is_falsy_other_finite_numbers_truthy() {
    assert!(!is_truthy(&n("0")));
    assert!(!is_truthy(&n("0.0")));
    assert!(!is_truthy(&n("-0.0")));
    assert!(is_truthy(&n("1")));
    assert!(is_truthy(&n("-1")));
    assert!(is_truthy(&n("0.1")));
    assert!(is_truthy(&n("-3.14")));
}

#[test]
fn empty_string_is_falsy_others_truthy() {
    assert!(!is_truthy(&s("")));
    assert!(is_truthy(&s("hello")));
    assert!(is_truthy(&s(" ")));
    assert!(is_truthy(&s("0")));
    assert!(is_truthy(&s("false")));
}

#[test]
fn arrays_and_objects_are_truthy_even_when_empty() {
    assert!(is_truthy(&JsonValue::Array(vec![])));
    assert!(is_truthy(&JsonValue::Array(vec![n("1"), n("2")])));
    assert!(is_truthy(&obj(vec![])));
    assert!(is_truthy(&obj(vec![("a", n("1"))])));
}
