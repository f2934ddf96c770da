//! The file level of `dsl-lint`: which files are DSLs, sources or
//! CronManager jobs, how a DSL file's top-level entries become steps,
//! the shape checks of source and job files, and the report.
use vstd::prelude::*;
use crate::text::{chars_of, string_of, chars_eq, extend_chars, ends_with, is_suffix, slice_vec, contains, contains_seq};
use crate::json::JsonValue;
use crate::steps::{first_key, has_member};
use crate::sources::member_index;
use crate::outbound::{last_char, rfind_char};
use crate::lint::{ParsedStep, ParsedFile, Finding, findings_view, views, DslCheck};

verus! {

/// The kind of a YAML value, as the linter names it.
#[derive(Debug, Clone, Copy)]
pub enum YamlKind {
    Null,
    Bool,
    Number,
    String,
    Sequence,
    Mapping,
    Tagged,
}

pub open spec fn spec_yaml_kind(k: YamlKind) -> Seq<char> {
    match k {
        YamlKind::Null => "null"@,
        YamlKind::Bool => "bool"@,
        YamlKind::Number => "number"@,
        YamlKind::String => "string"@,
        YamlKind::Sequence => "sequence"@,
        YamlKind::Mapping => "mapping"@,
        YamlKind::Tagged => "tagged"@,
    }
}

pub fn yaml_kind(k: YamlKind) -> (r: &'static str)
    ensures
        r@ == spec_yaml_kind(k),
{
    match k {
        YamlKind::Null => "null",
        YamlKind::Bool => "bool",
        YamlKind::Number => "number",
        YamlKind::String => "string",
        YamlKind::Sequence => "sequence",
        YamlKind::Mapping => "mapping",
        YamlKind::Tagged => "tagged",
    }
}

/// The body of a top-level entry: a mapping (its members, values as
/// JSON) or something else, known by its kind.
#[derive(Debug)]
pub enum StepBody {
    Mapping(Vec<(String, JsonValue)>),
    Other(YamlKind),
}

/// The step kind: the first key of the known list that the body holds.
pub open spec fn step_kind(ms: Seq<(String, JsonValue)>) -> Seq<char> {
    if has_member(ms, "assign"@) { "assign"@ }
    else if has_member(ms, "return"@) { "return"@ }
    else if has_member(ms, "call"@) { "call"@ }
    else if has_member(ms, "switch"@) { "switch"@ }
    else if has_member(ms, "log"@) { "log"@ }
    else if has_member(ms, "template"@) { "template"@ }
    else if has_member(ms, "state"@) { "state"@ }
    else if has_member(ms, "iterate"@) { "iterate"@ }
    else if has_member(ms, "ws_send"@) { "ws_send"@ }
    else if has_member(ms, "single_flight"@) { "single_flight"@ }
    else if has_member(ms, "declaration"@) { "declaration"@ }
    else { "unknown"@ }
}

fn holds_key(ms: &Vec<(String, JsonValue)>, k: &str) -> (r: bool)
    ensures
        r == has_member(ms@, k@),
{
    let kc = chars_of(k);
    match member_index(ms, kc.as_slice()) {
        Some(i) => {
            true
        },
        None => {
            proof { if has_member(ms@, k@) { let w = choose|w: int| 0 <= w < ms@.len() && (#[trigger] ms@[w]).0@ == k@; assert(first_key(ms@, k@) is Some); } }
            false
        },
    }
}

pub fn kind_of_step(ms: &Vec<(String, JsonValue)>) -> (r: String)
    ensures
        r@ == step_kind(ms@),
{
    let k = if holds_key(ms, "assign") { "assign" }
        else if holds_key(ms, "return") { "return" }
        else if holds_key(ms, "call") { "call" }
        else if holds_key(ms, "switch") { "switch" }
        else if holds_key(ms, "log") { "log" }
        else if holds_key(ms, "template") { "template" }
        else if holds_key(ms, "state") { "state" }
        else if holds_key(ms, "iterate") { "iterate" }
        else if holds_key(ms, "ws_send") { "ws_send" }
        else if holds_key(ms, "single_flight") { "single_flight" }
        else if holds_key(ms, "declaration") { "declaration" }
        else { "unknown" };
    k.to_string()
}

/// The string value of member `k`, if it has one.
pub open spec fn string_member(ms: Seq<(String, JsonValue)>, k: Seq<char>) -> Option<Seq<char>> {
    match first_key(ms, k) {
        Some(i) => match ms[i].1 {
            JsonValue::String(s) => Some(s@),
            _ => None,
        },
        None => None,
    }
}

fn get_string_member(ms: &Vec<(String, JsonValue)>, k: &str) -> (r: Option<String>)
    ensures
        match r {
            Some(s) => string_member(ms@, k@) == Some(s@),
            None => string_member(ms@, k@) is None,
        },
{
    let kc = chars_of(k);
    match member_index(ms, kc.as_slice()) {
        Some(i) => match &ms[i].1 {
            JsonValue::String(s) => Some(s.clone()),
            _ => None,
        },
        None => None,
    }
}

/// The `next:` strings of the branch mappings of a switch list.
pub open spec fn branch_targets(items: Seq<JsonValue>) -> Seq<Seq<char>>
    decreases items.len(),
{
    if items.len() == 0 {
        Seq::empty()
    } else {
        branch_targets(items.drop_last()) + match items.last() {
            JsonValue::Object(cm) => match string_member(cm@, "next"@) {
                Some(t) => seq![t],
                None => Seq::empty(),
            },
            _ => Seq::empty(),
        }
    }
}

/// The switch targets of a step body of kind `kind`.
pub open spec fn switch_targets_of(ms: Seq<(String, JsonValue)>, kind: Seq<char>) -> Seq<Seq<char>> {
    if kind == "switch"@ {
        match first_key(ms, "switch"@) {
            Some(i) => match ms[i].1 {
                JsonValue::Array(items) => branch_targets(items@),
                _ => Seq::empty(),
            },
            None => Seq::empty(),
        }
    } else {
        Seq::empty()
    }
}

fn collect_branch_targets(items: &Vec<JsonValue>) -> (r: Vec<String>)
    ensures
        views(r@) == branch_targets(items@),
{
    let mut out: Vec<String> = Vec::new();
    let mut i: usize = 0;
    while i < items.len()
        invariant
            i <= items@.len(),
            views(out@) == branch_targets(items@.take(i as int)),
        decreases items@.len() - i,
    {
        let ghost t1 = items@.take(i + 1);
        proof { assert(t1.drop_last() =~= items@.take(i as int)); assert(t1.last() == items@[i as int]); }
        let ghost before = out@;
        match &items[i] {
            JsonValue::Object(cm) => match get_string_member(cm, "next") {
                Some(t) => {
                    out.push(t);
                    proof { assert(views(out@) =~= views(before).push(out@.last()@)); }
                },
                None => {},
            },
            _ => {},
        }
        proof { assert(views(out@) =~= branch_targets(t1)); }
        i = i + 1;
    }
    proof { assert(items@.take(i as int) =~= items@); }
    out
}

/// `st` is the step parsed from entry `name` with mapping body `ms`.
pub open spec fn step_parsed(st: ParsedStep, name: Seq<char>, ms: Seq<(String, JsonValue)>) -> bool {
    &&& st.name@ == name
    &&& st.kind@ == step_kind(ms)
    &&& (match st.next { Some(n) => string_member(ms, "next"@) == Some(n@), None => string_member(ms, "next"@) is None })
    &&& views(st.switch_targets@) == switch_targets_of(ms, step_kind(ms))
}

/// The template target of a step body, if it is a template step.
pub open spec fn template_of(ms: Seq<(String, JsonValue)>) -> Seq<Seq<char>> {
    if step_kind(ms) == "template"@ {
        match string_member(ms, "template"@) {
            Some(t) => seq![t],
            None => Seq::empty(),
        }
    } else {
        Seq::empty()
    }
}

pub fn parse_step(name: &String, ms: &Vec<(String, JsonValue)>) -> (r: (ParsedStep, Option<String>))
    ensures
        step_parsed(r.0, name@, ms@),
        (match r.1 { Some(t) => seq![t@], None => Seq::empty() }) == template_of(ms@),
{
    let kind = kind_of_step(ms);
    let next = get_string_member(ms, "next");
    let is_switch = chars_eq(chars_of(kind.as_str()).as_slice(), chars_of("switch").as_slice());
    let mut targets: Vec<String> = Vec::new();
    if is_switch {
        let kc = chars_of("switch");
        match member_index(ms, kc.as_slice()) {
            Some(i) => match &ms[i].1 {
                JsonValue::Array(items) => {
                    targets = collect_branch_targets(items);
                },
                _ => {},
            },
            None => {},
        }
    }
    proof { if !is_switch { assert(views(targets@) =~= Seq::<Seq<char>>::empty()); } else if views(targets@).len() == 0 { assert(views(targets@) =~= Seq::<Seq<char>>::empty()); } }
    let is_template = chars_eq(chars_of(kind.as_str()).as_slice(), chars_of("template").as_slice());
    let tpl = if is_template { get_string_member(ms, "template") } else { None };
    (ParsedStep { name: name.clone(), kind, next, switch_targets: targets }, tpl)
}

/// The error for a top-level entry whose body is not a mapping.
pub open spec fn body_error(name: Seq<char>, k: YamlKind) -> Seq<char> {
    "step '"@ + name + "': body is not a mapping (got: "@ + spec_yaml_kind(k) + ")"@
}

pub open spec fn body_errors(es: Seq<(String, StepBody)>) -> Seq<Seq<char>>
    decreases es.len(),
{
    if es.len() == 0 {
        Seq::empty()
    } else {
        body_errors(es.drop_last()) + match es.last().1 {
            StepBody::Other(k) => seq![body_error(es.last().0@, k)],
            StepBody::Mapping(_) => Seq::empty(),
        }
    }
}

/// The entries with a mapping body, in order.
pub open spec fn mapping_entries(es: Seq<(String, StepBody)>) -> Seq<(String, Vec<(String, JsonValue)>)>
    decreases es.len(),
{
    if es.len() == 0 {
        Seq::empty()
    } else {
        mapping_entries(es.drop_last()) + match es.last().1 {
            StepBody::Mapping(ms) => seq![(es.last().0, ms)],
            StepBody::Other(_) => Seq::empty(),
        }
    }
}

pub open spec fn templates_of(ms: Seq<(String, Vec<(String, JsonValue)>)>) -> Seq<Seq<char>>
    decreases ms.len(),
{
    if ms.len() == 0 { Seq::empty() } else { templates_of(ms.drop_last()) + template_of(ms.last().1@) }
}

/// `pf` is what the entries parse to.
pub open spec fn file_parsed(pf: ParsedFile, es: Seq<(String, StepBody)>, raw: Seq<char>) -> bool {
    let me = mapping_entries(es);
    &&& pf.raw@ == raw
    &&& pf.steps@.len() == me.len()
    &&& forall|i: int| 0 <= i < me.len() ==> step_parsed(#[trigger] pf.steps@[i], me[i].0@, me[i].1@)
    &&& views(pf.template_targets@) == templates_of(me)
    &&& (match pf.entry_step {
        Some(e) => es.len() > 0 && es[0].1 is Mapping && e@ == es[0].0@,
        None => es.len() == 0 || es[0].1 is Other,
    })
}

/// Turn a DSL file's top-level entries into steps. In strict mode an
/// entry whose body is not a mapping is an error (all such errors are
/// returned); otherwise it is skipped.
pub fn parse_entries(entries: &Vec<(String, StepBody)>, raw: String, strict: bool) -> (r: Result<ParsedFile, Vec<String>>)
    ensures
        strict && body_errors(entries@).len() > 0 ==> (r matches Err(es) && views(es@) == body_errors(entries@)),
        !(strict && body_errors(entries@).len() > 0) ==> (r matches Ok(pf) && file_parsed(pf, entries@, raw@)),
{
    let mut errs: Vec<String> = Vec::new();
    let mut steps: Vec<ParsedStep> = Vec::new();
    let mut templates: Vec<String> = Vec::new();
    let mut entry: Option<String> = None;
    let mut i: usize = 0;
    while i < entries.len()
        invariant
            i <= entries@.len(),
            strict ==> views(errs@) == body_errors(entries@.take(i as int)),
            !strict ==> errs@.len() == 0,
            steps@.len() == mapping_entries(entries@.take(i as int)).len(),
            forall|j: int| 0 <= j < steps@.len() ==> step_parsed(#[trigger] steps@[j],
                mapping_entries(entries@.take(i as int))[j].0@, mapping_entries(entries@.take(i as int))[j].1@),
            views(templates@) == templates_of(mapping_entries(entries@.take(i as int))),
            i == 0 ==> entry is None,
            i > 0 ==> (match entry {
                Some(e) => entries@[0].1 is Mapping && e@ == entries@[0].0@,
                None => entries@[0].1 is Other,
            }),
        decreases entries@.len() - i,
    {
        let ghost t1 = entries@.take(i + 1);
        let ghost t0 = entries@.take(i as int);
        proof { assert(t1.drop_last() =~= t0); assert(t1.last() == entries@[i as int]); }
        let name = &entries[i].0;
        match &entries[i].1 {
            StepBody::Other(k) => {
                if strict {
                    let ghost before = errs@;
                    let mut m = chars_of("step '");
                    extend_chars(&mut m, chars_of(name.as_str()).as_slice());
                    extend_chars(&mut m, chars_of("': body is not a mapping (got: ").as_slice());
                    extend_chars(&mut m, chars_of(yaml_kind(*k)).as_slice());
                    extend_chars(&mut m, chars_of(")").as_slice());
                    errs.push(string_of(m.as_slice()));
                    proof { assert(views(errs@) =~= views(before).push(body_error(name@, *k))); }
                }
                proof {
                    assert(mapping_entries(t1) =~= mapping_entries(t0));
                    assert(templates_of(mapping_entries(t1)) == templates_of(mapping_entries(t0)));
                }
            },
            StepBody::Mapping(ms) => {
                let (st, tpl) = parse_step(name, ms);
                let ghost sb = steps@;
                let ghost tb = templates@;
                steps.push(st);
                match tpl {
                    Some(t) => templates.push(t),
                    None => {},
                }
                if i == 0 {
                    entry = Some(name.clone());
                }
                proof {
                    let me1 = mapping_entries(t1);
                    let me0 = mapping_entries(t0);
                    assert(me1 == me0.push((*name, *ms)));
                    assert forall|j: int| 0 <= j < steps@.len() implies step_parsed(#[trigger] steps@[j], me1[j].0@, me1[j].1@) by {
                        if j < sb.len() { assert(steps@[j] == sb[j]); assert(me1[j] == me0[j]); }
                    }
                    assert(me1.drop_last() =~= me0);
                    assert(templates_of(me1) == templates_of(me0) + template_of(ms@));
                    assert(views(templates@) =~= templates_of(me1));
                    assert(body_errors(t1) =~= body_errors(t0));
                }
            },
        }
        i = i + 1;
    }
    proof { assert(entries@.take(i as int) =~= entries@); }
    if errs.len() > 0 {
        return Err(errs);
    }
    Ok(ParsedFile { entry_step: entry, steps, raw, template_targets: templates })
}

/// `Path::extension` of a file name: the text after the last `.`, when
/// there is one that does not begin the name.
pub open spec fn file_extension(name: Seq<char>) -> Option<Seq<char>> {
    match last_char(name, '.') {
        Some(k) => if k == 0 { None } else { Some(name.skip(k + 1)) },
        None => None,
    }
}

pub fn extension_of(name: &str) -> (r: Option<String>)
    ensures
        match r {
            Some(e) => file_extension(name@) == Some(e@),
            None => file_extension(name@) is None,
        },
{
    let c = chars_of(name);
    match rfind_char(c.as_slice(), '.') {
        Some(k) => {
            if k == 0 {
                None
            } else {
                assert(k < c.len());
                let e = slice_vec(c.as_slice(), k + 1, c.len());
                proof { assert(e@ =~= name@.skip(k + 1)); }
                Some(string_of(e.as_slice()))
            }
        },
        None => None,
    }
}

/// The in-folder guard file names.
pub open spec fn is_guard_name(name: Seq<char>) -> bool {
    name == ".guard"@ || name == ".guard.yml"@ || name == ".guard.yaml"@
}

pub fn guard_name(name: &str) -> (r: bool)
    ensures
        r == is_guard_name(name@),
{
    let c = chars_of(name);
    chars_eq(c.as_slice(), chars_of(".guard").as_slice()) || chars_eq(c.as_slice(), chars_of(".guard.yml").as_slice())
        || chars_eq(c.as_slice(), chars_of(".guard.yaml").as_slice())
}

/// A file the linter reads: a guard file, a `.yml`/`.yaml` file, or,
/// when asked for, a disabled `.yml.disabled` file.
pub open spec fn spec_is_dsl_file(name: Seq<char>, include_disabled: bool) -> bool {
    is_guard_name(name)
        || (include_disabled && is_suffix(".yml.disabled"@, name))
        || file_extension(name) == Some("yml"@)
        || file_extension(name) == Some("yaml"@)
}

pub fn is_dsl_file(name: &str, include_disabled: bool) -> (r: bool)
    ensures
        r == spec_is_dsl_file(name@, include_disabled),
{
    if guard_name(name) {
        return true;
    }
    let c = chars_of(name);
    if include_disabled && ends_with(c.as_slice(), chars_of(".yml.disabled").as_slice()) {
        return true;
    }
    match extension_of(name) {
        Some(e) => {
            let ec = chars_of(e.as_str());
            chars_eq(ec.as_slice(), chars_of("yml").as_slice()) || chars_eq(ec.as_slice(), chars_of("yaml").as_slice())
        },
        None => false,
    }
}

/// A source definition: under a `sources` directory (legacy) or under
/// `WS/outbound`.
pub open spec fn spec_is_source_file(comps: Seq<String>) -> bool {
    (exists|i: int| 0 <= i < comps.len() && (#[trigger] comps[i])@ == "sources"@)
        || (exists|i: int| 0 <= i < comps.len() - 1 && (#[trigger] comps[i])@ == "WS"@ && comps[i + 1]@ == "outbound"@)
}

pub fn is_source_file(comps: &Vec<String>) -> (r: bool)
    ensures
        r == spec_is_source_file(comps@),
{
    let mut i: usize = 0;
    while i < comps.len()
        invariant
            i <= comps@.len(),
            forall|j: int| 0 <= j < i ==> (#[trigger] comps@[j])@ != "sources"@,
            forall|j: int| 0 <= j < i && j < comps@.len() - 1 ==> !((#[trigger] comps@[j])@ == "WS"@ && comps@[j + 1]@ == "outbound"@),
        decreases comps@.len() - i,
    {
        let c = chars_of(comps[i].as_str());
        if chars_eq(c.as_slice(), chars_of("sources").as_slice()) {
            return true;
        }
        if i + 1 < comps.len() && chars_eq(c.as_slice(), chars_of("WS").as_slice())
            && chars_eq(chars_of(comps[i + 1].as_str()).as_slice(), chars_of("outbound").as_slice()) {
            proof { assert(comps@[i as int]@ == "WS"@ && comps@[i + 1]@ == "outbound"@); }
            return true;
        }
        i = i + 1;
    }
    false
}

/// A CronManager job file: under a `cronmanager-jobs` directory.
pub open spec fn spec_is_cron_job_file(comps: Seq<String>) -> bool {
    exists|i: int| 0 <= i < comps.len() && (#[trigger] comps[i])@ == "cronmanager-jobs"@
}

pub fn is_cron_job_file(comps: &Vec<String>) -> (r: bool)
    ensures
        r == spec_is_cron_job_file(comps@),
{
    let mut i: usize = 0;
    while i < comps.len()
        invariant
            i <= comps@.len(),
            forall|j: int| 0 <= j < i ==> (#[trigger] comps@[j])@ != "cronmanager-jobs"@,
        decreases comps@.len() - i,
    {
        let c = chars_of(comps[i].as_str());
        if chars_eq(c.as_slice(), chars_of("cronmanager-jobs").as_slice()) {
            return true;
        }
        i = i + 1;
    }
    false
}

/// The relative path without the first of `.yml`, `.yaml`,
/// `.yml.disabled`, `.yaml.disabled` that ends it.
pub open spec fn strip_dsl_ext(s: Seq<char>) -> Seq<char> {
    if is_suffix(".yml"@, s) { s.subrange(0, s.len() - ".yml"@.len()) }
    else if is_suffix(".yaml"@, s) { s.subrange(0, s.len() - ".yaml"@.len()) }
    else if is_suffix(".yml.disabled"@, s) { s.subrange(0, s.len() - ".yml.disabled"@.len()) }
    else if is_suffix(".yaml.disabled"@, s) { s.subrange(0, s.len() - ".yaml.disabled"@.len()) }
    else { s }
}

/// The DSL key of a file (its path below the DSL root, extension
/// dropped); guard files have none.
pub open spec fn spec_dsl_key_for(rel: Seq<char>) -> Option<Seq<char>> {
    let s = strip_dsl_ext(rel);
    if contains_seq(s, ".guard"@) { None } else { Some(s) }
}

pub fn dsl_key_for(rel: &str) -> (r: Option<String>)
    ensures
        match r {
            Some(k) => spec_dsl_key_for(rel@) == Some(k@),
            None => spec_dsl_key_for(rel@) is None,
        },
{
    let c = chars_of(rel);
    let n = c.len();
    let e1 = chars_of(".yml");
    let e2 = chars_of(".yaml");
    let e3 = chars_of(".yml.disabled");
    let e4 = chars_of(".yaml.disabled");
    let s = if ends_with(c.as_slice(), e1.as_slice()) {
        slice_vec(c.as_slice(), 0, n - e1.len())
    } else if ends_with(c.as_slice(), e2.as_slice()) {
        slice_vec(c.as_slice(), 0, n - e2.len())
    } else if ends_with(c.as_slice(), e3.as_slice()) {
        slice_vec(c.as_slice(), 0, n - e3.len())
    } else if ends_with(c.as_slice(), e4.as_slice()) {
        slice_vec(c.as_slice(), 0, n - e4.len())
    } else {
        c
    };
    proof { assert(s@ =~= strip_dsl_ext(rel@)); }
    if contains(s.as_slice(), chars_of(".guard").as_slice()) {
        None
    } else {
        Some(string_of(s.as_slice()))
    }
}

/// One of the first `n` files has DSL key `q`.
pub open spec fn key_among(rels: Seq<String>, n: int, q: Seq<char>) -> bool {
    exists|j: int| 0 <= j < n && spec_dsl_key_for((#[trigger] rels[j])@) == Some(q)
}

/// The DSL keys of the parsed files (relative paths), each once.
pub fn build_dsl_key_index(rels: &Vec<String>) -> (r: Vec<String>)
    ensures
        views(r@).no_duplicates(),
        forall|k: Seq<char>| views(r@).contains(k) <==> #[trigger] key_among(rels@, rels@.len() as int, k),
{
    let mut out: Vec<String> = Vec::new();
    let mut i: usize = 0;
    while i < rels.len()
        invariant
            i <= rels@.len(),
            views(out@).no_duplicates(),
            forall|k: Seq<char>| views(out@).contains(k) <==> #[trigger] key_among(rels@, i as int, k),
        decreases rels@.len() - i,
    {
        match dsl_key_for(rels[i].as_str()) {
            Some(k) => {
                let kc = chars_of(k.as_str());
                let ghost before = views(out@);
                if !crate::lint::name_listed(&out, kc.as_slice()) {
                    out.push(k);
                    proof {
                        assert(views(out@) =~= before.push(kc@));
                        assert(views(out@).no_duplicates()) by {
                            assert forall|a: int, b: int| 0 <= a < views(out@).len() && 0 <= b < views(out@).len() && a != b
                                implies views(out@)[a] != views(out@)[b] by {
                                if a == before.len() { assert(before.contains(views(out@)[b])) by { assert(before[b] == views(out@)[b]); } }
                                else if b == before.len() { assert(before.contains(views(out@)[a])) by { assert(before[a] == views(out@)[a]); } }
                            }
                        }
                    }
                }
                proof {
                    let now = views(out@);
                    assert(before.contains(kc@) ==> now == before);
                    assert(!before.contains(kc@) ==> now == before.push(kc@));
                    assert(now.contains(kc@)) by {
                        if before.contains(kc@) {} else { assert(now[before.len() as int] == kc@); }
                    }
                    assert forall|q: Seq<char>| now.contains(q) implies #[trigger] key_among(rels@, i + 1, q) by {
                        if q == kc@ {
                            assert(spec_dsl_key_for(rels@[i as int]@) == Some(q));
                        } else {
                            let w = choose|w: int| 0 <= w < now.len() && now[w] == q;
                            if w < before.len() { assert(before[w] == q); assert(before.contains(q)); }
                            else { assert(now[w] == kc@); }
                            assert(key_among(rels@, i as int, q));
                            let j = choose|j: int| 0 <= j < i && spec_dsl_key_for((#[trigger] rels@[j])@) == Some(q);
                            assert(0 <= j < i + 1);
                        }
                    }
                    assert forall|q: Seq<char>| #[trigger] key_among(rels@, i + 1, q) implies now.contains(q) by {
                        let j = choose|j: int| 0 <= j < i + 1 && spec_dsl_key_for((#[trigger] rels@[j])@) == Some(q);
                        if j < i {
                            assert(key_among(rels@, i as int, q));
                            assert(before.contains(q));
                            let w = choose|w: int| 0 <= w < before.len() && before[w] == q;
                            assert(now[w] == q);
                        } else {
                            assert(q == kc@);
                        }
                    }
                    assert(forall|q: Seq<char>| views(out@).contains(q) <==> #[trigger] key_among(rels@, i + 1, q));
                }
            },
            None => {
                proof {
                    assert forall|q: Seq<char>| #[trigger] key_among(rels@, i + 1, q) implies key_among(rels@, i as int, q) by {
                        let j = choose|j: int| 0 <= j < i + 1 && spec_dsl_key_for((#[trigger] rels@[j])@) == Some(q);
                        assert(j != i);
                    }
                    assert forall|q: Seq<char>| #[trigger] key_among(rels@, i as int, q) implies key_among(rels@, i + 1, q) by {
                        let j = choose|j: int| 0 <= j < i && spec_dsl_key_for((#[trigger] rels@[j])@) == Some(q);
                        assert(0 <= j < i + 1);
                    }
                    assert forall|q: Seq<char>| views(out@).contains(q) <==> #[trigger] key_among(rels@, i + 1, q) by {
                        if views(out@).contains(q) { assert(key_among(rels@, i as int, q)); }
                        if key_among(rels@, i + 1, q) { assert(key_among(rels@, i as int, q)); }
                    }
                }
            },
        }
        i = i + 1;
    }
    out
}

fn finding2(error: bool, a: &str, b: &[char]) -> (r: Finding)
    ensures
        r.error == error,
        r.message@ == a@ + b@,
{
    let mut m = chars_of(a);
    extend_chars(&mut m, b);
    Finding { error, message: string_of(m.as_slice()) }
}

fn finding(error: bool, a: &str, b: &[char], c: &str) -> (r: Finding)
    ensures
        r.error == error,
        r.message@ == a@ + b@ + c@,
{
    let mut m = chars_of(a);
    extend_chars(&mut m, b);
    extend_chars(&mut m, chars_of(c).as_slice());
    Finding { error, message: string_of(m.as_slice()) }
}

/// The findings for a source file (its YAML as JSON, or the parse
/// error): it must name its `kind`, and only `websocket` is supported.
pub open spec fn spec_source_shape(doc: Result<JsonValue, String>) -> (Seq<(bool, Seq<char>)>, bool) {
    match doc {
        Err(e) => (seq![(true, "YAML parse error: "@ + e@)], false),
        Ok(v) => {
            let kind = match v { JsonValue::Object(ms) => string_member(ms@, "kind"@), _ => None };
            match kind {
                Some(k) => (if k != "websocket"@ {
                    seq![(false, "source kind '"@ + k + "' is not currently supported (only 'websocket')"@)]
                } else {
                    Seq::empty()
                }, true),
                None => (seq![(true, "source is missing required 'kind' field"@)], true),
            }
        },
    }
}

pub fn check_source_shape(doc: &Result<JsonValue, String>) -> (r: DslCheck)
    ensures
        (findings_view(r.findings@), r.ok) == spec_source_shape(*doc),
{
    let mut out: Vec<Finding> = Vec::new();
    match doc {
        Err(e) => {
            out.push(finding2(true, "YAML parse error: ", chars_of(e.as_str()).as_slice()));
            proof { assert(findings_view(out@) =~= spec_source_shape(*doc).0); }
            DslCheck { findings: out, ok: false }
        },
        Ok(v) => {
            let kind = match v {
                JsonValue::Object(ms) => get_string_member(ms, "kind"),
                _ => None,
            };
            match kind {
                Some(k) => {
                    let kc = chars_of(k.as_str());
                    if !chars_eq(kc.as_slice(), chars_of("websocket").as_slice()) {
                        out.push(finding(false, "source kind '", kc.as_slice(), "' is not currently supported (only 'websocket')"));
                    }
                },
                None => {
                    out.push(Finding { error: true, message: "source is missing required 'kind' field".to_string() });
                },
            }
            proof { assert(findings_view(out@) =~= spec_source_shape(*doc).0); }
            DslCheck { findings: out, ok: true }
        },
    }
}

/// The fields every CronManager job must have.
pub open spec fn job_field_findings(name: Seq<char>, job: Seq<(String, JsonValue)>) -> Seq<(bool, Seq<char>)> {
    (if has_member(job, "trigger"@) { Seq::empty() } else { seq![(true, "cron-job '"@ + name + "': missing required field '"@ + "trigger"@ + "'"@)] })
    + (if has_member(job, "type"@) { Seq::empty() } else { seq![(true, "cron-job '"@ + name + "': missing required field '"@ + "type"@ + "'"@)] })
    + (if has_member(job, "url"@) { Seq::empty() } else { seq![(true, "cron-job '"@ + name + "': missing required field '"@ + "url"@ + "'"@)] })
}

pub open spec fn jobs_findings(jobs: Seq<(String, JsonValue)>) -> Seq<(bool, Seq<char>)>
    decreases jobs.len(),
{
    if jobs.len() == 0 {
        Seq::empty()
    } else {
        let (name, job) = jobs.last();
        jobs_findings(jobs.drop_last()) + match job {
            JsonValue::Object(ms) => job_field_findings(name@, ms@),
            _ => seq![(true, "cron-job '"@ + name@ + "': body must be a mapping"@)],
        }
    }
}

/// The findings for a CronManager job file: a mapping of jobs, each a
/// mapping with `trigger`, `type` and `url`.
pub open spec fn spec_cron_shape(doc: Result<JsonValue, String>) -> (Seq<(bool, Seq<char>)>, bool) {
    match doc {
        Err(e) => (seq![(true, "YAML parse error: "@ + e@)], false),
        Ok(JsonValue::Object(jobs)) => (jobs_findings(jobs@), true),
        Ok(_) => (seq![(true, "cron-job file: top level must be a mapping of jobs"@)], false),
    }
}

fn push_missing_field(out: &mut Vec<Finding>, name: &[char], job: &Vec<(String, JsonValue)>, field: &str)
    ensures
        findings_view(final(out)@) == findings_view(old(out)@) + (if has_member(job@, field@) { Seq::empty() }
            else { seq![(true, "cron-job '"@ + name@ + "': missing required field '"@ + field@ + "'"@)] }),
{
    let ghost before = findings_view(out@);
    if !holds_key(job, field) {
        let mut m = chars_of("cron-job '");
        extend_chars(&mut m, name);
        extend_chars(&mut m, chars_of("': missing required field '").as_slice());
        extend_chars(&mut m, chars_of(field).as_slice());
        extend_chars(&mut m, chars_of("'").as_slice());
        out.push(Finding { error: true, message: string_of(m.as_slice()) });
    }
    proof {
        assert(findings_view(out@) =~= before + (if has_member(job@, field@) { Seq::empty() }
            else { seq![(true, "cron-job '"@ + name@ + "': missing required field '"@ + field@ + "'"@)] }));
    }
}

pub fn check_cron_job_shape(doc: &Result<JsonValue, String>) -> (r: DslCheck)
    ensures
        (findings_view(r.findings@), r.ok) == spec_cron_shape(*doc),
{
    let mut out: Vec<Finding> = Vec::new();
    match doc {
        Err(e) => {
            out.push(finding2(true, "YAML parse error: ", chars_of(e.as_str()).as_slice()));
            proof { assert(findings_view(out@) =~= spec_cron_shape(*doc).0); }
            DslCheck { findings: out, ok: false }
        },
        Ok(JsonValue::Object(jobs)) => {
            let mut i: usize = 0;
            proof { assert(findings_view(out@) =~= jobs_findings(jobs@.take(0))); }
            while i < jobs.len()
                invariant
                    i <= jobs@.len(),
                    findings_view(out@) == jobs_findings(jobs@.take(i as int)),
                decreases jobs@.len() - i,
            {
                let ghost t1 = jobs@.take(i + 1);
                proof { assert(t1.drop_last() =~= jobs@.take(i as int)); assert(t1.last() == jobs@[i as int]); }
                let ghost before = findings_view(out@);
                let nc = chars_of(jobs[i].0.as_str());
                match &jobs[i].1 {
                    JsonValue::Object(ms) => {
                        push_missing_field(&mut out, nc.as_slice(), ms, "trigger");
                        push_missing_field(&mut out, nc.as_slice(), ms, "type");
                        push_missing_field(&mut out, nc.as_slice(), ms, "url");
                        proof { assert(findings_view(out@) =~= before + job_field_findings(nc@, ms@)); }
                    },
                    _ => {
                        out.push(finding(true, "cron-job '", nc.as_slice(), "': body must be a mapping"));
                        proof { assert(findings_view(out@) =~= before + seq![(true, "cron-job '"@ + nc@ + "': body must be a mapping"@)]); }
                    },
                }
                proof { assert(findings_view(out@) =~= jobs_findings(t1)); }
                i = i + 1;
            }
            proof { assert(jobs@.take(i as int) =~= jobs@); }
            DslCheck { findings: out, ok: true }
        },
        Ok(_) => {
            out.push(Finding { error: true, message: "cron-job file: top level must be a mapping of jobs".to_string() });
            proof { assert(findings_view(out@) =~= spec_cron_shape(*doc).0); }
            DslCheck { findings: out, ok: false }
        },
    }
}

/// What the linter does with a file: shape-check a source or job
/// file, or run the DSL checks.
#[derive(Debug, Clone, Copy, PartialEq, Eq)]
pub enum LintTarget {
    Source,
    CronJob,
    Dsl,
}

pub fn lint_target(comps: &Vec<String>) -> (r: LintTarget)
    ensures
        r == (if spec_is_source_file(comps@) { LintTarget::Source }
            else if spec_is_cron_job_file(comps@) { LintTarget::CronJob } else { LintTarget::Dsl }),
{
    if is_source_file(comps) { LintTarget::Source }
    else if is_cron_job_file(comps) { LintTarget::CronJob }
    else { LintTarget::Dsl }
}

/// One report line: severity, file and message.
#[derive(Debug, Clone)]
pub struct ReportItem {
    pub error: bool,
    pub path: String,
    pub message: String,
}

/// The lint report: counts and the lines in the order found.
#[derive(Debug)]
pub struct Report {
    pub files_scanned: usize,
    pub files_ok: usize,
    pub errors: usize,
    pub warnings: usize,
    pub items: Vec<ReportItem>,
    pub json_mode: bool,
}

impl Report {
    pub fn new(json_mode: bool) -> (r: Self)
        ensures
            r.files_scanned == 0 && r.files_ok == 0 && r.errors == 0 && r.warnings == 0,
            r.items@.len() == 0,
            r.json_mode == json_mode,
    {
        Report { files_scanned: 0, files_ok: 0, errors: 0, warnings: 0, items: Vec::new(), json_mode }
    }

    pub fn file_error(&mut self, path: &str, message: String)
        requires
            old(self).errors < usize::MAX,
        ensures
            final(self).errors == old(self).errors + 1,
            final(self).warnings == old(self).warnings,
            final(self).files_ok == old(self).files_ok,
            final(self).files_scanned == old(self).files_scanned,
            final(self).json_mode == old(self).json_mode,
            final(self).items@.len() == old(self).items@.len() + 1,
            final(self).items@.drop_last() == old(self).items@,
            final(self).items@.last().error,
            final(self).items@.last().path@ == path@,
            final(self).items@.last().message@ == message@,
    {
        self.errors = self.errors + 1;
        self.items.push(ReportItem { error: true, path: path.to_string(), message });
        proof { assert(self.items@.drop_last() =~= old(self).items@); }
    }

    pub fn file_warning(&mut self, path: &str, message: String)
        requires
            old(self).warnings < usize::MAX,
        ensures
            final(self).warnings == old(self).warnings + 1,
            final(self).errors == old(self).errors,
            final(self).files_ok == old(self).files_ok,
            final(self).files_scanned == old(self).files_scanned,
            final(self).json_mode == old(self).json_mode,
            final(self).items@.len() == old(self).items@.len() + 1,
            final(self).items@.drop_last() == old(self).items@,
            !final(self).items@.last().error,
            final(self).items@.last().path@ == path@,
            final(self).items@.last().message@ == message@,
    {
        self.warnings = self.warnings + 1;
        self.items.push(ReportItem { error: false, path: path.to_string(), message });
        proof { assert(self.items@.drop_last() =~= old(self).items@); }
    }
}

} // verus!
