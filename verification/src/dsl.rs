//! DSL source handling: constant substitution before parsing, and the
//! rule that decides which kind of step a YAML mapping is.
use vstd::prelude::*;
use crate::text::{chars_of, string_of, chars_eq, starts_with, is_prefix, extend_chars, string_views};
use crate::interpolate::{substitute, spec_substitute};

verus! {

/// Parses DSL files with the project's constants.
#[derive(Debug, Clone)]
pub struct DslParser {
    pub constants: Vec<(String, String)>,
}

impl DslParser {
    pub fn new(constants: Vec<(String, String)>) -> (r: Self)
        ensures
            r.constants@ == constants@,
    {
        DslParser { constants }
    }

    /// The DSL text with every constant reference substituted.
    pub fn replace_constants(&self, content: &str) -> (r: String)
        ensures
            r@ == spec_substitute(content@, self.constants@),
    {
        substitute(content, &self.constants)
    }
}

/// Kind of a DSL step.
#[derive(Debug, Clone, Copy, PartialEq, Eq, Structural)]
pub enum StepKind {
    Declaration,
    HttpMock,
    Http,
    Template,
    Assign,
    Return,
    Switch,
    Log,
    State,
    Iterate,
    WsSend,
    WsTag,
    SingleFlight,
}

/// Why a step mapping is refused.
#[derive(Debug, Clone)]
pub enum StepParseError {
    /// More than one action key; they are listed in the fixed key order.
    MultipleActions(Vec<String>),
    /// `call:` names something other than `declare`, `reflect.mock` or
    /// `http.<verb>`.
    UnknownCall(String),
    /// No action key, no declaration field, and a key other than the
    /// control-flow fields.
    NoDiscriminator,
}

/// The action keys, in the order in which they are reported.
pub open spec fn action_keys() -> Seq<Seq<char>> {
    seq!["call"@, "template"@, "assign"@, "return"@, "switch"@, "log"@, "state"@, "iterate"@,
        "ws_send"@, "ws_tag"@, "single_flight"@]
}

/// Fields that make a step a declaration.
pub open spec fn declaration_keys() -> Seq<Seq<char>> {
    seq!["version"@, "description"@, "returns"@, "namespace"@, "allowed_body"@, "allowed_header"@,
        "allowed_params"@, "override_ancestors"@, "allowlist"@, "strict"@]
}

/// Control-flow fields every step may carry.
pub open spec fn base_keys() -> Seq<Seq<char>> {
    seq!["next"@, "skip"@, "sleep"@, "maxRecursions"@, "max_recursions"@, "reloadDsl"@, "reloadDsls"@,
        "reload_dsl"@, "reload_dsls"@]
}

/// The mapping has the string key `k` (non-string keys are `None`).
pub open spec fn key_present(keys: Seq<Option<String>>, k: Seq<char>) -> bool {
    exists|i: int| 0 <= i < keys.len() && (#[trigger] keys[i]) is Some && keys[i].unwrap()@ == k
}

/// Those of `cands` present among `keys`, in the order of `cands`.
pub open spec fn present_in(keys: Seq<Option<String>>, cands: Seq<Seq<char>>) -> Seq<Seq<char>>
    decreases cands.len(),
{
    if cands.len() == 0 {
        Seq::empty()
    } else {
        present_in(keys, cands.drop_last()) + (if key_present(keys, cands.last()) { seq![cands.last()] } else { Seq::empty() })
    }
}

pub open spec fn any_present(keys: Seq<Option<String>>, cands: Seq<Seq<char>>) -> bool {
    exists|j: int| 0 <= j < cands.len() && key_present(keys, #[trigger] cands[j])
}

/// Every key is a string naming a control-flow field.
pub open spec fn only_base_keys(keys: Seq<Option<String>>) -> bool {
    forall|i: int| 0 <= i < keys.len() ==> (#[trigger] keys[i]) is Some && base_keys().contains(keys[i].unwrap()@)
}

/// Step kind by a fixed rule: more than one action key is refused; a
/// string `call:` decides by its value; else the first action key
/// present in the order template, assign, return, switch, log, state,
/// iterate, ws_send, ws_tag, single_flight; else a declaration field
/// or only control-flow fields make a declaration; else refused.
pub open spec fn spec_classify(keys: Seq<Option<String>>, call: Option<Seq<char>>) -> Result<StepKind, Seq<Seq<char>>> {
    let present = present_in(keys, action_keys());
    if present.len() > 1 {
        Err(present)
    } else {
        match call {
            Some(c) => if c == "declare"@ {
                Ok(StepKind::Declaration)
            } else if c == "reflect.mock"@ {
                Ok(StepKind::HttpMock)
            } else if is_prefix("http."@, c) {
                Ok(StepKind::Http)
            } else {
                Err(seq![c])
            },
            None => if key_present(keys, "template"@) { Ok(StepKind::Template) }
                else if key_present(keys, "assign"@) { Ok(StepKind::Assign) }
                else if key_present(keys, "return"@) { Ok(StepKind::Return) }
                else if key_present(keys, "switch"@) { Ok(StepKind::Switch) }
                else if key_present(keys, "log"@) { Ok(StepKind::Log) }
                else if key_present(keys, "state"@) { Ok(StepKind::State) }
                else if key_present(keys, "iterate"@) { Ok(StepKind::Iterate) }
                else if key_present(keys, "ws_send"@) { Ok(StepKind::WsSend) }
                else if key_present(keys, "ws_tag"@) { Ok(StepKind::WsTag) }
                else if key_present(keys, "single_flight"@) { Ok(StepKind::SingleFlight) }
                else if any_present(keys, declaration_keys()) || only_base_keys(keys) { Ok(StepKind::Declaration) }
                else { Err(Seq::empty()) },
        }
    }
}

fn has_key(keys: &Vec<Option<String>>, k: &str) -> (r: bool)
    ensures
        r == key_present(keys@, k@),
{
    let kc = chars_of(k);
    let mut i: usize = 0;
    while i < keys.len()
        invariant
            i <= keys@.len(),
            kc@ == k@,
            forall|j: int| 0 <= j < i ==> !((#[trigger] keys@[j]) is Some && keys@[j].unwrap()@ == k@),
        decreases keys@.len() - i,
    {
        match &keys[i] {
            Some(s) => {
                let sc = chars_of(s.as_str());
                if chars_eq(sc.as_slice(), kc.as_slice()) {
                    return true;
                }
            },
            None => {},
        }
        i = i + 1;
    }
    false
}

fn present_list(keys: &Vec<Option<String>>, cands: &Vec<&str>) -> (r: Vec<String>)
    ensures
        string_views(r@) == present_in(keys@, cands@.map_values(|s: &str| s@)),
{
    let ghost cv = cands@.map_values(|s: &str| s@);
    let mut out: Vec<String> = Vec::new();
    let mut i: usize = 0;
    while i < cands.len()
        invariant
            i <= cands@.len(),
            cv == cands@.map_values(|s: &str| s@),
            string_views(out@) == present_in(keys@, cv.subrange(0, i as int)),
        decreases cands@.len() - i,
    {
        let ghost before = string_views(out@);
        if has_key(keys, cands[i]) {
            out.push(cands[i].to_owned());
        }
        i = i + 1;
        proof {
            let sub = cv.subrange(0, i as int);
            assert(sub.drop_last() =~= cv.subrange(0, i - 1));
            assert(sub.last() == cands@[i - 1]@);
            assert(string_views(out@) =~= present_in(keys@, sub));
        }
    }
    proof { assert(cv.subrange(0, cands@.len() as int) =~= cv); }
    out
}

fn any_key(keys: &Vec<Option<String>>, cands: &Vec<&str>) -> (r: bool)
    ensures
        r == any_present(keys@, cands@.map_values(|s: &str| s@)),
{
    let ghost cv = cands@.map_values(|s: &str| s@);
    let mut i: usize = 0;
    while i < cands.len()
        invariant
            i <= cands@.len(),
            cv == cands@.map_values(|s: &str| s@),
            forall|j: int| 0 <= j < i ==> !key_present(keys@, #[trigger] cv[j]),
        decreases cands@.len() - i,
    {
        if has_key(keys, cands[i]) {
            proof { assert(key_present(keys@, cv[i as int])); }
            return true;
        }
        i = i + 1;
    }
    false
}

fn all_base(keys: &Vec<Option<String>>, base: &Vec<&str>) -> (r: bool)
    ensures
        r == forall|i: int| 0 <= i < keys@.len() ==> (#[trigger] keys@[i]) is Some
            && base@.map_values(|s: &str| s@).contains(keys@[i].unwrap()@),
{
    let ghost bv = base@.map_values(|s: &str| s@);
    let mut i: usize = 0;
    while i < keys.len()
        invariant
            i <= keys@.len(),
            bv == base@.map_values(|s: &str| s@),
            forall|j: int| 0 <= j < i ==> (#[trigger] keys@[j]) is Some && bv.contains(keys@[j].unwrap()@),
        decreases keys@.len() - i,
    {
        match &keys[i] {
            None => { return false; },
            Some(s) => {
                let sc = chars_of(s.as_str());
                let mut found = false;
                let mut k: usize = 0;
                while k < base.len()
                    invariant
                        k <= base@.len(),
                        bv == base@.map_values(|s: &str| s@),
                        found ==> bv.contains(sc@),
                        !found ==> forall|m: int| 0 <= m < k ==> bv[m] != sc@,
                    decreases base@.len() - k,
                {
                    let bc = chars_of(base[k]);
                    if chars_eq(bc.as_slice(), sc.as_slice()) {
                        proof { assert(bv[k as int] == sc@); }
                        found = true;
                    }
                    k = k + 1;
                }
                if !found {
                    proof {
                        assert(!bv.contains(sc@)) by {
                            if bv.contains(sc@) {
                                let m = choose|m: int| 0 <= m < bv.len() && bv[m] == sc@;
                            }
                        }
                    }
                    return false;
                }
            },
        }
        i = i + 1;
    }
    true
}

/// Decide the kind of a step from its mapping's keys (`None` for a
/// non-string key) and its `call:` value when that is a string.
pub fn classify_step(keys: &Vec<Option<String>>, call: &Option<String>) -> (r: Result<StepKind, StepParseError>)
    ensures
        match r {
            Ok(k) => spec_classify(keys@, opt_view_s(*call)) == Ok::<StepKind, Seq<Seq<char>>>(k),
            Err(StepParseError::MultipleActions(p)) => spec_classify(keys@, opt_view_s(*call)) == Err::<StepKind, Seq<Seq<char>>>(string_views(p@))
                && p@.len() > 1,
            Err(StepParseError::UnknownCall(c)) => spec_classify(keys@, opt_view_s(*call)) == Err::<StepKind, Seq<Seq<char>>>(seq![c@])
                && present_in(keys@, action_keys()).len() <= 1,
            Err(StepParseError::NoDiscriminator) => spec_classify(keys@, opt_view_s(*call)) == Err::<StepKind, Seq<Seq<char>>>(Seq::empty()),
        },
{
    let acts: Vec<&str> = vec!["call", "template", "assign", "return", "switch", "log", "state", "iterate",
        "ws_send", "ws_tag", "single_flight"];
    proof { assert(acts@.map_values(|s: &str| s@) =~= action_keys()); }
    let present = present_list(keys, &acts);
    if present.len() > 1 {
        return Err(StepParseError::MultipleActions(present));
    }
    match call {
        Some(c) => {
            let cc = chars_of(c.as_str());
            let d = chars_of("declare");
            let m = chars_of("reflect.mock");
            let h = chars_of("http.");
            if chars_eq(cc.as_slice(), d.as_slice()) {
                Ok(StepKind::Declaration)
            } else if chars_eq(cc.as_slice(), m.as_slice()) {
                Ok(StepKind::HttpMock)
            } else if starts_with(cc.as_slice(), h.as_slice()) {
                Ok(StepKind::Http)
            } else {
                Err(StepParseError::UnknownCall(c.clone()))
            }
        },
        None => {
            if has_key(keys, "template") { Ok(StepKind::Template) }
            else if has_key(keys, "assign") { Ok(StepKind::Assign) }
            else if has_key(keys, "return") { Ok(StepKind::Return) }
            else if has_key(keys, "switch") { Ok(StepKind::Switch) }
            else if has_key(keys, "log") { Ok(StepKind::Log) }
            else if has_key(keys, "state") { Ok(StepKind::State) }
            else if has_key(keys, "iterate") { Ok(StepKind::Iterate) }
            else if has_key(keys, "ws_send") { Ok(StepKind::WsSend) }
            else if has_key(keys, "ws_tag") { Ok(StepKind::WsTag) }
            else if has_key(keys, "single_flight") { Ok(StepKind::SingleFlight) }
            else {
                let decl: Vec<&str> = vec!["version", "description", "returns", "namespace", "allowed_body",
                    "allowed_header", "allowed_params", "override_ancestors", "allowlist", "strict"];
                let base: Vec<&str> = vec!["next", "skip", "sleep", "maxRecursions", "max_recursions", "reloadDsl",
                    "reloadDsls", "reload_dsl", "reload_dsls"];
                proof {
                    assert(decl@.map_values(|s: &str| s@) =~= declaration_keys());
                    assert(base@.map_values(|s: &str| s@) =~= base_keys());
                }
                if any_key(keys, &decl) || all_base(keys, &base) {
                    Ok(StepKind::Declaration)
                } else {
                    Err(StepParseError::NoDiscriminator)
                }
            }
        },
    }
}

/// Names joined with `", "`.
pub open spec fn comma_joined(names: Seq<Seq<char>>) -> Seq<char>
    decreases names.len(),
{
    if names.len() == 0 {
        Seq::empty()
    } else if names.len() == 1 {
        names[0]
    } else {
        comma_joined(names.drop_last()) + ", "@ + names.last()
    }
}

/// The text of a refused step named `name`.
pub open spec fn step_error_text(e: StepParseError, name: Seq<char>) -> Seq<char> {
    "step '"@ + name + match e {
        StepParseError::MultipleActions(p) => "': multiple action keys present ("@ + comma_joined(string_views(p@))
            + "). Each step must contain exactly one action \u{2014} split into separate steps and chain them with `next:`."@,
        StepParseError::UnknownCall(c) => "': unknown call '"@ + c@
            + "' (expected 'declare', 'reflect.mock', or 'http.<verb>')"@,
        StepParseError::NoDiscriminator => "': no recognised step discriminator (expected one of call:, template:, assign:, return:, switch:, log:, state:, iterate:, ws_send:, single_flight:, or a declaration field)"@,
    }
}

/// The strings of `p` joined with `", "`.
fn join_comma(p: &Vec<String>) -> (r: Vec<char>)
    ensures
        r@ == comma_joined(string_views(p@)),
{
    let mut acc: Vec<char> = Vec::new();
    let mut i: usize = 0;
    proof { assert(string_views(p@).take(0) =~= Seq::<Seq<char>>::empty()); }
    while i < p.len()
        invariant
            i <= p@.len(),
            acc@ == comma_joined(string_views(p@).take(i as int)),
        decreases p@.len() - i,
    {
        let ghost pre = string_views(p@).take(i as int);
        let ghost cur = string_views(p@).take(i + 1);
        proof {
            assert(cur.drop_last() =~= pre);
            assert(cur.last() == p@[i as int]@);
        }
        if i > 0 {
            extend_chars(&mut acc, chars_of(", ").as_slice());
        } else {
            proof { assert(cur =~= seq![p@[0]@]); }
        }
        extend_chars(&mut acc, chars_of(p[i].as_str()).as_slice());
        i = i + 1;
    }
    proof { assert(string_views(p@).take(p@.len() as int) =~= string_views(p@)); }
    acc
}

impl StepParseError {
    /// The message a refused step is reported with (the text of the DSL
    /// parse error).
    pub fn message(&self, name: &str) -> (r: String)
        ensures
            r@ == step_error_text(*self, name@),
    {
        let mut m = chars_of("step '");
        extend_chars(&mut m, chars_of(name).as_slice());
        let ghost head = m@;
        let mut tail: Vec<char> = Vec::new();
        match self {
            StepParseError::MultipleActions(p) => {
                extend_chars(&mut tail, chars_of("': multiple action keys present (").as_slice());
                extend_chars(&mut tail, join_comma(p).as_slice());
                extend_chars(&mut tail, chars_of("). Each step must contain exactly one action \u{2014} split into separate steps and chain them with `next:`.").as_slice());
            },
            StepParseError::UnknownCall(c) => {
                extend_chars(&mut tail, chars_of("': unknown call '").as_slice());
                extend_chars(&mut tail, chars_of(c.as_str()).as_slice());
                extend_chars(&mut tail, chars_of("' (expected 'declare', 'reflect.mock', or 'http.<verb>')").as_slice());
            },
            StepParseError::NoDiscriminator => {
                extend_chars(&mut tail, chars_of("': no recognised step discriminator (expected one of call:, template:, assign:, return:, switch:, log:, state:, iterate:, ws_send:, single_flight:, or a declaration field)").as_slice());
            },
        }
        extend_chars(&mut m, tail.as_slice());
        proof {
            assert(m@ =~= "step '"@ + name@ + tail@);
        }
        string_of(m.as_slice())
    }
}

/// The message of a step whose value is not a mapping; `got` is how
/// that value is shown (its debug form).
pub fn not_mapping_message(name: &str, got: &str) -> (r: String)
    ensures
        r@ == "step '"@ + name@ + "' must be a YAML mapping, got "@ + got@,
{
    let mut m = chars_of("step '");
    extend_chars(&mut m, chars_of(name).as_slice());
    extend_chars(&mut m, chars_of("' must be a YAML mapping, got ").as_slice());
    extend_chars(&mut m, chars_of(got).as_slice());
    string_of(m.as_slice())
}

/// The message of a step whose fields do not decode into its kind;
/// `detail` is the decoder's message.
pub fn decode_failure_message(name: &str, detail: &str) -> (r: String)
    ensures
        r@ == "Failed to parse step '"@ + name@ + "': "@ + detail@,
{
    let mut m = chars_of("Failed to parse step '");
    extend_chars(&mut m, chars_of(name).as_slice());
    extend_chars(&mut m, chars_of("': ").as_slice());
    extend_chars(&mut m, chars_of(detail).as_slice());
    string_of(m.as_slice())
}

pub open spec fn opt_view_s(o: Option<String>) -> Option<Seq<char>> {
    match o { Some(s) => Some(s@), None => None }
}

} // verus!
