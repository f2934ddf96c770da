use ruuter_on_rust::interpolate::{iter_refs, substitute};

fn consts(pairs: &[(&str, &str)]) -> Vec<(String, String)> {
    pairs.iter().map(|(k, v)| (k.to_string(), v.to_string())).collect()
}

#[test]
fn bracket_form_still_works() {
    assert_eq!(substitute("hello [#FOO]!", &consts(&[("FOO", "bar")])), "hello bar!");
}

#[test]
fn brace_form_new_alias() {
    assert_eq!(substitute("hello #{FOO}!", &consts(&[("FOO", "bar")])), "hello bar!");
}

#[test]
fn both_forms_produce_identical_output() {
    let m = consts(&[("x", "1"), ("y", "2")]);
    let a = substitute("[#x] and [#y]", &m);
    let b = substitute("#{x} and #{y}", &m);
    assert_eq!(a, b);
}

#[test]
fn mixed_forms_in_one_input() {
    assert_eq!(substitute("[#a] then #{b}", &consts(&[("a", "A"), ("b", "B")])), "A then B");
}

#[test]
fn missing_key_preserves_original_literal_bracket() {
    assert_eq!(substitute("keep [#NOPE]", &consts(&[])), "keep [#NOPE]");
}

#[test]
fn missing_key_preserves_original_literal_brace() {
    assert_eq!(substitute("keep #{NOPE}", &consts(&[])), "keep #{NOPE}");
}

#[test]
fn iter_refs_finds_both_forms() {
    let refs: Vec<(String, String)> = iter_refs("[#a] and #{b} and [#c]")
        .into_iter()
        .map(|r| (r.key, r.literal))
        .collect();
    assert_eq!(
        refs,
        vec![
            ("a".to_string(), "[#a]".to_string()),
            ("b".to_string(), "#{b}".to_string()),
            ("c".to_string(), "[#c]".to_string()),
        ]
    );
}

#[test]
fn adjacent_refs_both_forms() {
    let m = consts(&[("a", "A"), ("b", "B")]);
    assert_eq!(substitute("[#a][#b]", &m), "AB");
    assert_eq!(substitute("#{a}#{b}", &m), "AB");
    assert_eq!(substitute("[#a]#{b}", &m), "AB");
}

#[test]
fn dollar_runtime_variables_untouched() {
    assert_eq!(
        substitute("prefix ${incoming.body.name} suffix", &consts(&[])),
        "prefix ${incoming.body.name} suffix"
    );
}

#[test]
fn empty_constants_leave_text_unchanged() {
    let s = "a [#X] b #{Y} c [#] #{}";
    assert_eq!(substitute(s, &consts(&[])), s);
}
