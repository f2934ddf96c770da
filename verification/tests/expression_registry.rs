use ruuter_on_rust::scripting::Builder;

fn reg_from_strings(strings: &[&str]) -> Vec<(u64, String)> {
    let mut b = Builder::new();
    for s in strings {
        b.scan_string(s);
    }
    b.freeze().ordered()
}

#[test]
fn extracts_simple_dollar_brace() {
    let got = reg_from_strings(&["hello ${x} world"]);
    assert_eq!(got, vec![(0, "x".to_string())]);
}

#[test]
fn extracts_multiple_in_one_string() {
    let got = reg_from_strings(&["${a} + ${b}"]);
    assert_eq!(got, vec![(0, "a".to_string()), (1, "b".to_string())]);
}

#[test]
fn deduplicates_identical_sources() {
    let got = reg_from_strings(&["${x + 1}", "static text", "${x + 1}"]);
    assert_eq!(got, vec![(0, "x + 1".to_string())]);
}

#[test]
fn extracts_line_pattern() {
    let got = reg_from_strings(&["$=a + b="]);
    assert_eq!(got, vec![(0, "a + b".to_string())]);
}

#[test]
fn ignores_no_expression_strings() {
    let got = reg_from_strings(&["plain text", "no dollars here", ""]);
    assert!(got.is_empty());
}

#[test]
fn nested_braces_captured_correctly() {
    let got = reg_from_strings(&["${({ok: true})}"]);
    assert_eq!(got, vec![(0, "({ok: true})".to_string())]);
}

#[test]
fn registry_ids_follow_first_appearance() {
    let mut b = Builder::new();
    b.scan_string("${b} ${a}");
    b.scan_string("${a} ${c}");
    let r = b.freeze();
    assert_eq!(r.len(), 3);
    assert_eq!(r.id_for("a"), Some(1));
    assert_eq!(r.id_for("c"), Some(2));
    assert_eq!(r.id_for("zzz"), None);
}
