use ruuter_on_rust::audit::{audit_all_routes, is_http_method, strip_method, MethodRoutes, ProjectRoutes};
use ruuter_on_rust::config::GuardMode;
use ruuter_on_rust::guards::{GuardEntry, ProjectGuards};
use ruuter_on_rust::json::{JsonValue};
use ruuter_on_rust::lint::{check_dsl, reachable_steps, ParsedFile, ParsedStep};
use ruuter_on_rust::lint_files::{
    build_dsl_key_index, check_cron_job_shape, check_source_shape, dsl_key_for, is_cron_job_file, is_dsl_file,
    is_source_file, lint_target, parse_entries, yaml_kind, LintTarget, Report, StepBody, YamlKind,
};

fn strs(xs: &[&str]) -> Vec<String> {
    xs.iter().map(|x| x.to_string()).collect()
}
fn s(x: &str) -> JsonValue {
    JsonValue::String(x.to_string())
}
fn obj(ms: Vec<(&str, JsonValue)>) -> JsonValue {
    JsonValue::Object(ms.into_iter().map(|(k, v)| (k.to_string(), v)).collect())
}
fn members(ms: Vec<(&str, JsonValue)>) -> Vec<(String, JsonValue)> {
    ms.into_iter().map(|(k, v)| (k.to_string(), v)).collect()
}

fn step(name: &str, kind: &str, next: Option<&str>, sw: &[&str]) -> ParsedStep {
    ParsedStep { name: name.into(), kind: kind.into(), next: next.map(|x| x.to_string()), switch_targets: strs(sw) }
}

#[test]
fn audit_lists_http_routes_sorted_with_their_guards() {
    let http = vec![
        ProjectRoutes {
            project: "b".into(),
            methods: vec![MethodRoutes { method: "GET".into(), keys: strs(&["GET/z"]) }],
        },
        ProjectRoutes {
            project: "a".into(),
            methods: vec![
                MethodRoutes { method: "WS".into(), keys: strs(&["WS/echo"]) },
                MethodRoutes { method: "POST".into(), keys: strs(&["POST/admin/users", "POST/open"]) },
            ],
        },
    ];
    let guards = vec![ProjectGuards {
        project: "a".into(),
        guards: vec![GuardEntry { key: "POST/admin".into(), override_ancestors: false }],
    }];
    let out = audit_all_routes(&http, &guards, GuardMode::Stack);
    let rows: Vec<(String, String, String, Vec<String>)> =
        out.iter().map(|r| (r.project.clone(), r.method.clone(), r.path.clone(), r.guards.clone())).collect();
    assert_eq!(
        rows,
        vec![
            ("a".into(), "POST".into(), "admin/users".into(), strs(&["POST/admin"])),
            ("a".into(), "POST".into(), "open".into(), vec![]),
            ("b".into(), "GET".into(), "z".into(), vec![]),
        ]
    );
    assert!(!out[0].is_unguarded());
    assert!(out[1].is_unguarded());
}

#[test]
fn http_methods_and_paths() {
    assert!(is_http_method("get"));
    assert!(is_http_method("OPTIONS"));
    assert!(!is_http_method("WS"));
    assert_eq!(strip_method("GET/a/b", "GET"), "a/b");
    assert_eq!(strip_method("other", "GET"), "other");
}

#[test]
fn reachability_follows_next_switch_and_fallthrough() {
    let steps = vec![
        step("a", "assign", None, &[]),
        step("b", "switch", Some("end"), &["d", "end"]),
        step("c", "log", None, &[]),
        step("d", "return", None, &[]),
        step("e", "log", None, &[]),
    ];
    let r = reachable_steps(&"a".to_string(), &steps);
    let mut got = r.clone();
    got.sort();
    assert_eq!(got, strs(&["a", "b", "d"]));
}

#[test]
fn check_dsl_reports_each_problem_in_order() {
    let pf = ParsedFile {
        entry_step: Some("a".into()),
        steps: vec![
            step("a", "assign", Some("b"), &[]),
            step("b", "unknown", Some("nowhere"), &[]),
            step("c", "return", None, &[]),
        ],
        raw: "x: [#K] and [#MISSING]".into(),
        template_targets: strs(&["/t/one", "t/two"]),
    };
    let constants = vec![("K".to_string(), "v".to_string())];
    let keys = strs(&["proj/GET/t/one"]);
    let r = check_dsl(&pf, &constants, &keys);
    assert!(r.ok);
    let msgs: Vec<(bool, String)> = r.findings.iter().map(|f| (f.error, f.message.clone())).collect();
    assert_eq!(
        msgs,
        vec![
            (true, "step 'b': unrecognised step (expected one of: assign, return, call, switch, log, template, state, iterate, ws_send, single_flight, declaration)".to_string()),
            (true, "step 'b': next target 'nowhere' does not resolve to any step in this DSL".to_string()),
            (false, "step 'c' is not reachable from entry 'a'".to_string()),
            (false, "unresolved constant reference '[#MISSING]' — add to constants.ini or the runner will forward the literal to reqwest".to_string()),
            (true, "template step references 't/two' but no DSL with that key was found".to_string()),
        ]
    );
}

#[test]
fn check_dsl_refuses_a_file_without_steps() {
    let pf = ParsedFile {
        entry_step: Some("declaration".into()),
        steps: vec![step("declaration", "declaration", None, &[])],
        raw: String::new(),
        template_targets: vec![],
    };
    let r = check_dsl(&pf, &vec![], &vec![]);
    assert!(!r.ok);
    assert_eq!(r.findings.len(), 1);
    assert_eq!(r.findings[0].message, "DSL has no executable steps");
}

#[test]
fn entries_become_steps() {
    let entries = vec![
        ("first".to_string(), StepBody::Mapping(members(vec![("assign", obj(vec![])), ("next", s("sw"))]))),
        (
            "sw".to_string(),
            StepBody::Mapping(members(vec![(
                "switch",
                JsonValue::Array(vec![obj(vec![("condition", s("x")), ("next", s("t"))]), s("junk")]),
            )])),
        ),
        ("t".to_string(), StepBody::Mapping(members(vec![("template", s("tpl/x"))]))),
        ("odd".to_string(), StepBody::Other(YamlKind::Sequence)),
    ];
    let pf = parse_entries(&entries, "raw".into(), false).unwrap();
    assert_eq!(pf.entry_step.as_deref(), Some("first"));
    assert_eq!(pf.steps.len(), 3);
    assert_eq!(pf.steps[0].kind, "assign");
    assert_eq!(pf.steps[0].next.as_deref(), Some("sw"));
    assert_eq!(pf.steps[1].kind, "switch");
    assert_eq!(pf.steps[1].switch_targets, strs(&["t"]));
    assert_eq!(pf.template_targets, strs(&["tpl/x"]));
    let errs = parse_entries(&entries, "raw".into(), true).unwrap_err();
    assert_eq!(errs, strs(&["step 'odd': body is not a mapping (got: sequence)"]));
    assert_eq!(yaml_kind(YamlKind::Tagged), "tagged");
}

#[test]
fn file_classification() {
    assert!(is_dsl_file("a.yml", false));
    assert!(is_dsl_file(".guard", false));
    assert!(!is_dsl_file("a.yml.disabled", false));
    assert!(is_dsl_file("a.yml.disabled", true));
    assert!(!is_dsl_file(".yml", false));
    assert!(is_source_file(&strs(&["DSL", "p", "sources", "x.yml"])));
    assert!(is_source_file(&strs(&["p", "WS", "outbound", "x.yml"])));
    assert!(!is_source_file(&strs(&["p", "WS", "inbound", "x.yml"])));
    assert!(is_cron_job_file(&strs(&["p", "cronmanager-jobs", "j.yml"])));
    assert_eq!(lint_target(&strs(&["p", "GET", "x.yml"])), LintTarget::Dsl);
    assert_eq!(lint_target(&strs(&["p", "sources", "x.yml"])), LintTarget::Source);
}

#[test]
fn dsl_keys_of_files() {
    assert_eq!(dsl_key_for("samples/GET/basic/hello.yml").as_deref(), Some("samples/GET/basic/hello"));
    assert_eq!(dsl_key_for("p/POST/x.yml.disabled").as_deref(), Some("p/POST/x"));
    assert_eq!(dsl_key_for("p/POST/admin.guard.yml"), None);
    let idx = build_dsl_key_index(&strs(&["a/GET/x.yml", "a/GET/x.yaml", "a/GET/.guard"]));
    assert_eq!(idx, strs(&["a/GET/x"]));
}

#[test]
fn source_and_job_shapes() {
    let ok = check_source_shape(&Ok(obj(vec![("kind", s("websocket"))])));
    assert!(ok.ok && ok.findings.is_empty());
    let other = check_source_shape(&Ok(obj(vec![("kind", s("mqtt"))])));
    assert_eq!(other.findings[0].message, "source kind 'mqtt' is not currently supported (only 'websocket')");
    assert!(!other.findings[0].error);
    let missing = check_source_shape(&Ok(obj(vec![])));
    assert_eq!(missing.findings[0].message, "source is missing required 'kind' field");
    let bad = check_source_shape(&Err("oops".into()));
    assert!(!bad.ok);
    assert_eq!(bad.findings[0].message, "YAML parse error: oops");

    let jobs = obj(vec![
        ("a", obj(vec![("trigger", s("x")), ("type", s("y")), ("url", s("z"))])),
        ("b", obj(vec![("type", s("y"))])),
        ("c", s("nope")),
    ]);
    let r = check_cron_job_shape(&Ok(jobs));
    let msgs: Vec<String> = r.findings.iter().map(|f| f.message.clone()).collect();
    assert_eq!(
        msgs,
        strs(&[
            "cron-job 'b': missing required field 'trigger'",
            "cron-job 'b': missing required field 'url'",
            "cron-job 'c': body must be a mapping",
        ])
    );
    let top = check_cron_job_shape(&Ok(s("x")));
    assert!(!top.ok);
    assert_eq!(top.findings[0].message, "cron-job file: top level must be a mapping of jobs");
}

#[test]
fn report_counts() {
    let mut r = Report::new(false);
    r.file_error("a.yml", "bad".into());
    r.file_warning("a.yml", "meh".into());
    r.file_warning("b.yml", "meh".into());
    assert_eq!((r.errors, r.warnings, r.items.len()), (1, 2, 3));
    assert!(r.items[0].error && !r.items[2].error);
}
