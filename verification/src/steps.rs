//! Step definitions and the decisions of the switch, log and return
//! steps. Script evaluation happens outside; these functions take the
//! evaluated values.
use vstd::prelude::*;
use crate::text::{chars_of, string_of, slice_vec, extend_chars, eq_ignore_case, eq_ignore_ascii_case, chars_eq,
    utf8_len};
use crate::json::{JsonValue, JsonNumber, json_text, to_json_string, spec_truthy, is_truthy, number_as_u64,
    number_to_u64};
use crate::logging::{sanitized, spec_cap, sanitize_log_value, cap_and_sanitize};
use crate::openapi_doc::{member_value, keys_of, put_member, lemma_member_absent};
use crate::outbound::{value_text, value_string};

verus! {

/// One branch of a switch: a condition expression and the step to
/// jump to when it holds.
#[derive(Debug, Clone)]
pub struct Condition {
    pub condition: String,
    pub next: String,
}

/// `switch:` — the first condition whose value is truthy picks the
/// next step; when none is, `next` (or source order) applies.
#[derive(Debug, Clone)]
pub struct SwitchStep {
    pub switch: Vec<Condition>,
    pub next: Option<String>,
}

/// What the switch does next.
#[derive(Debug, Clone)]
pub enum SwitchAction {
    /// Evaluate condition `index` and report its value.
    Evaluate(usize),
    /// Jump to this step.
    Jump(String),
    /// No condition held: continue with `next:` when set, else in
    /// source order.
    Fallthrough(Option<String>),
}

pub open spec fn opt_str_eq(a: Option<String>, b: Option<String>) -> bool {
    match (a, b) { (Some(x), Some(y)) => x@ == y@, (None, None) => true, _ => false }
}

impl SwitchStep {
    /// The first thing to do: evaluate the first condition, or fall
    /// through when there is none.
    pub fn start(&self) -> (r: SwitchAction)
        ensures
            self.switch@.len() > 0 ==> (r matches SwitchAction::Evaluate(i) && i == 0),
            self.switch@.len() == 0 ==> (r matches SwitchAction::Fallthrough(n) && opt_str_eq(n, self.next)),
    {
        if self.switch.len() > 0 {
            SwitchAction::Evaluate(0)
        } else {
            SwitchAction::Fallthrough(self.next.clone())
        }
    }

    /// After condition `index` evaluated to `value`: jump when it is
    /// truthy, else evaluate the next condition, else fall through.
    pub fn after_condition(&self, index: usize, value: &JsonValue) -> (r: SwitchAction)
        requires
            index < self.switch@.len(),
        ensures
            spec_truthy(*value) ==> (r matches SwitchAction::Jump(n) && n@ == self.switch@[index as int].next@),
            !spec_truthy(*value) && index + 1 < self.switch@.len() ==> (r matches SwitchAction::Evaluate(i) && i == index + 1),
            !spec_truthy(*value) && index + 1 >= self.switch@.len() ==> (r matches SwitchAction::Fallthrough(n)
                && opt_str_eq(n, self.next)),
    {
        if is_truthy(value) {
            SwitchAction::Jump(self.switch[index].next.clone())
        } else if index < self.switch.len() - 1 {
            SwitchAction::Evaluate(index + 1)
        } else {
            SwitchAction::Fallthrough(self.next.clone())
        }
    }
}

/// `log:` — a message (any JSON value; strings may hold expressions).
#[derive(Debug)]
pub struct LogStep {
    pub log: JsonValue,
    pub next: Option<String>,
}

/// The evaluated log message as it enters the step line: a string as
/// it is, any other value as its compact JSON text, CR/LF replaced.
pub open spec fn log_text(v: JsonValue) -> Seq<char> {
    match v {
        JsonValue::String(s) => sanitized(s@),
        _ => sanitized(json_text(v)),
    }
}

/// The message of a log step and its form for the step line (capped
/// at 256 bytes, `…` marking a cut).
pub fn log_message(v: &JsonValue) -> (r: (String, String))
    ensures
        r.0@ == log_text(*v),
        r.1@ == spec_cap(log_text(*v), 256),
{
    let rendered = match v {
        JsonValue::String(s) => sanitize_log_value(s.as_str()),
        _ => {
            let t = to_json_string(v);
            sanitize_log_value(t.as_str())
        },
    };
    let capped = cap_and_sanitize(rendered.as_str(), 256);
    proof { lemma_sanitized_idempotent(log_text(*v)); }
    (rendered, capped)
}

/// Replacing CR/LF twice is replacing them once.
pub proof fn lemma_sanitized_idempotent(s: Seq<char>)
    requires
        exists|t: Seq<char>| s == sanitized(t),
    ensures
        sanitized(s) == s,
{
    let t = choose|t: Seq<char>| s == sanitized(t);
    assert(sanitized(s) =~= s);
}

/// Status given by a return step's evaluated `status:`: a non-negative
/// integer number, truncated to 16 bits; anything else gives none.
pub open spec fn spec_return_status(v: Option<JsonValue>) -> Option<u16> {
    match v {
        Some(JsonValue::Number(n)) => match number_as_u64(n.repr@) {
            Some(u) => Some((u % 65536) as u16),
            None => None,
        },
        _ => None,
    }
}

pub fn return_status(v: &Option<JsonValue>) -> (r: Option<u16>)
    ensures
        r == spec_return_status(*v),
{
    match v {
        Some(JsonValue::Number(n)) => match number_to_u64(n) {
            Some(u) => Some((u % 65536) as u16),
            None => None,
        },
        _ => None,
    }
}

/// Where a return step's headers come from.
#[derive(Debug)]
pub enum HeaderSource {
    /// No `headers:`.
    Absent,
    /// A mapping: evaluate each value.
    Mapping(Vec<(String, JsonValue)>),
    /// A `${expr}` string: evaluate it, then read it with
    /// [`evaluated_headers`].
    Expression,
    /// Neither a mapping nor a string.
    Invalid,
}

pub fn header_source(h: Option<JsonValue>) -> (r: HeaderSource)
    ensures
        match h {
            None => r is Absent,
            Some(JsonValue::Object(ms)) => r matches HeaderSource::Mapping(m) && m@ == ms@,
            Some(JsonValue::String(_)) => r is Expression,
            Some(_) => r is Invalid,
        },
{
    match h {
        None => HeaderSource::Absent,
        Some(JsonValue::Object(ms)) => HeaderSource::Mapping(ms),
        Some(JsonValue::String(_)) => HeaderSource::Expression,
        Some(_) => HeaderSource::Invalid,
    }
}

/// Kind name used in the error for a headers expression that gave no
/// object.
pub open spec fn kind_name(v: JsonValue) -> Seq<char> {
    match v {
        JsonValue::Bool(_) => "boolean"@,
        JsonValue::Number(_) => "number"@,
        JsonValue::String(_) => "string"@,
        JsonValue::Array(_) => "array"@,
        _ => "other"@,
    }
}

/// The headers an evaluated `${expr}` gives: an object's members,
/// nothing for `null`, an error for anything else.
pub fn evaluated_headers(v: JsonValue) -> (r: Result<Option<Vec<(String, JsonValue)>>, String>)
    ensures
        match v {
            JsonValue::Object(ms) => r matches Ok(Some(m)) && m@ == ms@,
            JsonValue::Null => r matches Ok(None),
            _ => r matches Err(e) && e@ == "return step `headers`: expression must evaluate to an object, got "@ + kind_name(v),
        },
{
    match v {
        JsonValue::Object(ms) => Ok(Some(ms)),
        JsonValue::Null => Ok(None),
        other => {
            let kind = match other {
                JsonValue::Bool(_) => "boolean",
                JsonValue::Number(_) => "number",
                JsonValue::String(_) => "string",
                JsonValue::Array(_) => "array",
                _ => "other",
            };
            let mut out = chars_of("return step `headers`: expression must evaluate to an object, got ");
            let k = chars_of(kind);
            extend_chars(&mut out, k.as_slice());
            Err(string_of(out.as_slice()))
        },
    }
}

/// Strict lexicographic order of keys (code point by code point, a
/// proper prefix first), the order in which JSON object members are
/// kept.
pub open spec fn key_lt(a: Seq<char>, b: Seq<char>) -> bool
    decreases a.len(),
{
    if a.len() == 0 {
        b.len() > 0
    } else if b.len() == 0 {
        false
    } else if a[0] != b[0] {
        (a[0] as int) < (b[0] as int)
    } else {
        key_lt(a.skip(1), b.skip(1))
    }
}

pub fn key_less(a: &[char], b: &[char]) -> (r: bool)
    ensures
        r == key_lt(a@, b@),
{
    let mut i: usize = 0;
    proof {
        assert(a@.skip(0) =~= a@);
        assert(b@.skip(0) =~= b@);
    }
    while i < a.len() && i < b.len() && a[i] == b[i]
        invariant
            i <= a@.len() && i <= b@.len(),
            key_lt(a@.skip(i as int), b@.skip(i as int)) == key_lt(a@, b@),
        decreases a@.len() - i,
    {
        proof {
            assert(a@.skip(i as int).skip(1) =~= a@.skip(i + 1));
            assert(b@.skip(i as int).skip(1) =~= b@.skip(i + 1));
        }
        i = i + 1;
    }
    if i == a.len() {
        i < b.len()
    } else if i == b.len() {
        false
    } else {
        a[i] < b[i]
    }
}

/// Members in strictly increasing key order.
pub open spec fn sorted_members(ms: Seq<(String, JsonValue)>) -> bool {
    forall|i: int, j: int| 0 <= i < j < ms.len() ==> key_lt((#[trigger] ms[i]).0@, (#[trigger] ms[j]).0@)
}

/// `key_lt` is a strict order.
pub proof fn lemma_key_lt_irreflexive(a: Seq<char>)
    ensures
        !key_lt(a, a),
    decreases a.len(),
{
    if a.len() > 0 {
        lemma_key_lt_irreflexive(a.skip(1));
    }
}

pub proof fn lemma_key_lt_total(a: Seq<char>, b: Seq<char>)
    ensures
        a != b ==> key_lt(a, b) || key_lt(b, a),
        !(key_lt(a, b) && key_lt(b, a)),
    decreases a.len(),
{
    if a.len() > 0 && b.len() > 0 && a[0] == b[0] {
        lemma_key_lt_total(a.skip(1), b.skip(1));
        if a.skip(1) == b.skip(1) {
            assert forall|i: int| 0 <= i < a.len() implies a[i] == b[i] by {
                if i > 0 { assert(a[i] == a.skip(1)[i - 1]); assert(b[i] == b.skip(1)[i - 1]); }
            }
            assert(a =~= b);
        }
    } else if a.len() == 0 && b.len() == 0 {
        assert(a =~= b);
    } else if a.len() > 0 && b.len() > 0 {
        assert((a[0] as int) != (b[0] as int));
    }
}

pub proof fn lemma_key_lt_transitive(a: Seq<char>, b: Seq<char>, c: Seq<char>)
    requires
        key_lt(a, b),
        key_lt(b, c),
    ensures
        key_lt(a, c),
    decreases a.len(),
{
    if a.len() > 0 && b.len() > 0 && c.len() > 0 && a[0] == b[0] && b[0] == c[0] {
        lemma_key_lt_transitive(a.skip(1), b.skip(1), c.skip(1));
    }
}

/// The attribute text of one cookie entry: a `true` flag as its name,
/// a `false` flag as nothing, a string as `name=value`, any other value
/// as `name=<json>`.
pub open spec fn cookie_part(k: Seq<char>, v: JsonValue) -> Option<Seq<char>> {
    match v {
        JsonValue::Bool(true) => Some(k),
        JsonValue::Bool(false) => None,
        JsonValue::String(s) => Some(k + "="@ + s@),
        _ => Some(k + "="@ + json_text(v)),
    }
}

/// Attribute texts of `ms`, in order, `false` flags left out.
pub open spec fn cookie_parts(ms: Seq<(String, JsonValue)>) -> Seq<Seq<char>>
    decreases ms.len(),
{
    if ms.len() == 0 {
        Seq::empty()
    } else {
        cookie_parts(ms.drop_last()) + (match cookie_part(ms.last().0@, ms.last().1) {
            Some(p) => seq![p],
            None => Seq::empty(),
        })
    }
}

/// Parts joined with `; `.
pub open spec fn join_semis(ps: Seq<Seq<char>>) -> Seq<char>
    decreases ps.len(),
{
    if ps.len() == 0 {
        Seq::empty()
    } else if ps.len() == 1 {
        ps[0]
    } else {
        join_semis(ps.drop_last()) + "; "@ + ps.last()
    }
}

/// `ms` holds `key` (as a member key).
pub open spec fn has_member(ms: Seq<(String, JsonValue)>, key: Seq<char>) -> bool {
    exists|i: int| 0 <= i < ms.len() && (#[trigger] ms[i]).0@ == key
}

/// `out` is `ms` with `(key, v)` put in at its key-order position when
/// `ms` lacks `key`; `out` is `ms` otherwise.
pub open spec fn inserted_default(out: Seq<(String, JsonValue)>, ms: Seq<(String, JsonValue)>, key: Seq<char>, v: JsonValue) -> bool {
    if has_member(ms, key) {
        out == ms
    } else {
        exists|p: int| 0 <= p <= ms.len() && out.len() == ms.len() + 1
            && out.subrange(0, p) == ms.subrange(0, p)
            && out[p].0@ == key && out[p].1 == v
            && out.subrange(p + 1, out.len() as int) == ms.subrange(p, ms.len() as int)
    }
}

/// Put `(key, v)` into sorted members unless the key is present.
pub fn insert_default(ms: &mut Vec<(String, JsonValue)>, key: &str, v: JsonValue)
    requires
        sorted_members(old(ms)@),
    ensures
        sorted_members(final(ms)@),
        inserted_default(final(ms)@, old(ms)@, key@, v),
{
    let kc = chars_of(key);
    let mut p: usize = 0;
    let mut found = false;
    let mut stop = false;
    while p < ms.len() && !stop
        invariant
            p <= ms@.len(),
            kc@ == key@,
            *ms == *old(ms),
            sorted_members(ms@),
            !found ==> forall|j: int| 0 <= j < p ==> key_lt((#[trigger] ms@[j]).0@, key@),
            found ==> has_member(ms@, key@),
            stop && !found ==> p < ms@.len() && key_lt(key@, ms@[p as int].0@),
            found ==> stop,
        decreases ms@.len() - p, if stop { 0int } else { 1int },
    {
        let mc = chars_of(ms[p].0.as_str());
        if chars_eq(mc.as_slice(), kc.as_slice()) {
            proof { assert(has_member(ms@, key@)); }
            found = true;
            stop = true;
        } else if !key_less(mc.as_slice(), kc.as_slice()) {
            proof { lemma_key_lt_total(mc@, kc@); }
            stop = true;
        } else {
            p = p + 1;
        }
    }
    if found {
        return;
    }
    proof {
        assert(!has_member(ms@, key@)) by {
            if has_member(ms@, key@) {
                let w = choose|w: int| 0 <= w < ms@.len() && (#[trigger] ms@[w]).0@ == key@;
                if w < p {
                    assert(key_lt(ms@[w].0@, key@));
                    lemma_key_lt_irreflexive(key@);
                } else {
                    if w > p {
                        assert(key_lt(ms@[p as int].0@, ms@[w].0@));
                        lemma_key_lt_transitive(key@, ms@[p as int].0@, key@);
                    }
                    lemma_key_lt_irreflexive(key@);
                }
            }
        }
    }
    let ghost before = ms@;
    ms.insert(p, (key.to_owned(), v));
    proof {
        assert(ms@.subrange(0, p as int) =~= before.subrange(0, p as int));
        assert(ms@.subrange(p + 1, ms@.len() as int) =~= before.subrange(p as int, before.len() as int));
        assert forall|i: int, j: int| 0 <= i < j < ms@.len() implies key_lt((#[trigger] ms@[i]).0@, (#[trigger] ms@[j]).0@) by {
            if j < p {
                assert(ms@[i] == before[i] && ms@[j] == before[j]);
            } else if j == p {
                assert(ms@[i] == before[i]);
            } else if i < p {
                assert(ms@[i] == before[i] && ms@[j] == before[j - 1]);
                if j - 1 > p {
                    assert(key_lt(before[p as int].0@, before[j - 1].0@));
                    lemma_key_lt_transitive(key@, before[p as int].0@, before[j - 1].0@);
                }
                lemma_key_lt_transitive(before[i].0@, key@, before[j - 1].0@);
            } else if i == p {
                assert(ms@[j] == before[j - 1]);
                if j - 1 > p {
                    assert(key_lt(before[p as int].0@, before[j - 1].0@));
                    lemma_key_lt_transitive(key@, before[p as int].0@, before[j - 1].0@);
                }
            } else {
                assert(ms@[i] == before[i - 1] && ms@[j] == before[j - 1]);
            }
        }
    }
}

pub open spec fn is_text(v: JsonValue, t: Seq<char>) -> bool {
    v matches JsonValue::String(s) && s@ == t
}

pub open spec fn is_number_text(v: JsonValue, t: Seq<char>) -> bool {
    v matches JsonValue::Number(n) && n.repr@ == t
}

/// A cookie object rendered: after adding `Path=/`, `HttpOnly`,
/// `Secure` and `Max-Age=28800` where the object lacks them, the
/// attributes in key order joined with `; ` (a `false` flag drops its
/// attribute).
pub open spec fn spec_set_cookie_object(ms: Seq<(String, JsonValue)>, out: Seq<char>) -> bool {
    exists|dp: JsonValue, dm: JsonValue, m1: Seq<(String, JsonValue)>, m2: Seq<(String, JsonValue)>,
        m3: Seq<(String, JsonValue)>, m4: Seq<(String, JsonValue)>|
        is_text(dp, "/"@) && is_number_text(dm, "28800"@)
        && inserted_default(m1, ms, "Path"@, dp)
        && inserted_default(m2, m1, "HttpOnly"@, JsonValue::Bool(true))
        && inserted_default(m3, m2, "Secure"@, JsonValue::Bool(true))
        && inserted_default(m4, m3, "Max-Age"@, dm)
        && out == join_semis(cookie_parts(m4))
}

fn push_cookie_parts(ms: &Vec<(String, JsonValue)>) -> (r: Vec<char>)
    ensures
        r@ == join_semis(cookie_parts(ms@)),
{
    let mut out: Vec<char> = Vec::new();
    let mut count: usize = 0;
    let mut i: usize = 0;
    while i < ms.len()
        invariant
            i <= ms@.len(),
            count == cookie_parts(ms@.subrange(0, i as int)).len(),
            count <= i,
            out@ == join_semis(cookie_parts(ms@.subrange(0, i as int))),
        decreases ms@.len() - i,
    {
        let ghost before = cookie_parts(ms@.subrange(0, i as int));
        let kc = chars_of(ms[i].0.as_str());
        let mut part: Vec<char> = Vec::new();
        let mut emit = true;
        match &ms[i].1 {
            JsonValue::Bool(true) => { extend_chars(&mut part, kc.as_slice()); },
            JsonValue::Bool(false) => { emit = false; },
            JsonValue::String(v) => {
                extend_chars(&mut part, kc.as_slice());
                part.push('=');
                let vc = chars_of(v.as_str());
                extend_chars(&mut part, vc.as_slice());
            },
            other => {
                extend_chars(&mut part, kc.as_slice());
                part.push('=');
                let t = to_json_string(other);
                let tc = chars_of(t.as_str());
                extend_chars(&mut part, tc.as_slice());
            },
        }
        proof {
            reveal_strlit("=");
            match cookie_part(ms@[i as int].0@, ms@[i as int].1) {
                Some(pp) => { assert(emit && part@ =~= pp); },
                None => { assert(!emit); },
            }
        }
        if emit {
            if count > 0 {
                out.push(';');
                out.push(' ');
            }
            extend_chars(&mut out, part.as_slice());
            count = count + 1;
        }
        i = i + 1;
        proof {
            let sub = ms@.subrange(0, i as int);
            assert(sub.drop_last() =~= ms@.subrange(0, i - 1));
            assert(sub.last() == ms@[i - 1]);
            let now = cookie_parts(sub);
            reveal_strlit("; ");
            if emit {
                assert(now == before.push(part@));
                assert(now.drop_last() =~= before);
                if before.len() == 0 { assert(join_semis(before) =~= Seq::<char>::empty()); }
                assert(out@ =~= join_semis(now));
            } else {
                assert(now =~= before);
            }
        }
    }
    proof { assert(ms@.subrange(0, ms@.len() as int) =~= ms@); }
    out
}

/// Render a `Set-Cookie` header value. `v` is a string (kept as it
/// is), an object with members in key order, or anything else
/// (rendered as JSON).
pub fn render_set_cookie(v: JsonValue) -> (r: String)
    requires
        v matches JsonValue::Object(ms) ==> sorted_members(ms@),
    ensures
        match v {
            JsonValue::String(s) => r@ == s@,
            JsonValue::Object(ms) => spec_set_cookie_object(ms@, r@),
            _ => r@ == json_text(v),
        },
{
    match v {
        JsonValue::String(s) => s,
        JsonValue::Object(ms) => {
            let ghost m0 = ms@;
            let mut m = ms;
            let dp = JsonValue::String("/".to_owned());
            let ghost dpv = dp;
            insert_default(&mut m, "Path", dp);
            let ghost m1 = m@;
            insert_default(&mut m, "HttpOnly", JsonValue::Bool(true));
            let ghost m2 = m@;
            insert_default(&mut m, "Secure", JsonValue::Bool(true));
            let ghost m3 = m@;
            let dm = JsonValue::Number(JsonNumber { repr: "28800".to_owned() });
            let ghost dmv = dm;
            insert_default(&mut m, "Max-Age", dm);
            let out = push_cookie_parts(&m);
            proof {
                assert(is_text(dpv, "/"@) && is_number_text(dmv, "28800"@));
                assert(spec_set_cookie_object(m0, out@));
            }
            string_of(out.as_slice())
        },
        other => to_json_string(&other),
    }
}

/// Text of one return-step header value: `Set-Cookie` (any case) as a
/// cookie, a string as it is, anything else as its JSON.
pub fn header_text(name: &str, v: JsonValue) -> (r: String)
    requires
        v matches JsonValue::Object(ms) ==> sorted_members(ms@),
    ensures
        eq_ignore_case(name@, "Set-Cookie"@) ==> match v {
            JsonValue::String(s) => r@ == s@,
            JsonValue::Object(ms) => spec_set_cookie_object(ms@, r@),
            _ => r@ == json_text(v),
        },
        !eq_ignore_case(name@, "Set-Cookie"@) ==> r@ == value_text(v),
{
    let nc = chars_of(name);
    let sc = chars_of("Set-Cookie");
    if eq_ignore_ascii_case(nc.as_slice(), sc.as_slice()) {
        render_set_cookie(v)
    } else {
        value_string(&v)
    }
}

/// Method of an HTTP step's `call:`.
#[derive(Debug, Clone, Copy, PartialEq, Eq, Structural)]
pub enum HttpMethod {
    Get,
    Post,
    Put,
    Patch,
    Delete,
}

pub open spec fn spec_method(call: Seq<char>) -> Option<HttpMethod> {
    if call == "http.get"@ { Some(HttpMethod::Get) }
    else if call == "http.post"@ { Some(HttpMethod::Post) }
    else if call == "http.put"@ { Some(HttpMethod::Put) }
    else if call == "http.patch"@ { Some(HttpMethod::Patch) }
    else if call == "http.delete"@ { Some(HttpMethod::Delete) }
    else { None }
}

/// `http.get` / `http.post` / `http.put` / `http.patch` /
/// `http.delete`; anything else is an unknown method.
pub fn parse_method(call: &str) -> (r: Result<HttpMethod, String>)
    ensures
        match spec_method(call@) {
            Some(m) => r == Ok::<HttpMethod, String>(m),
            None => r matches Err(e) && e@ == "Unknown HTTP method: "@ + call@,
        },
{
    let c = chars_of(call);
    if chars_eq(c.as_slice(), chars_of("http.get").as_slice()) { return Ok(HttpMethod::Get); }
    if chars_eq(c.as_slice(), chars_of("http.post").as_slice()) { return Ok(HttpMethod::Post); }
    if chars_eq(c.as_slice(), chars_of("http.put").as_slice()) { return Ok(HttpMethod::Put); }
    if chars_eq(c.as_slice(), chars_of("http.patch").as_slice()) { return Ok(HttpMethod::Patch); }
    if chars_eq(c.as_slice(), chars_of("http.delete").as_slice()) { return Ok(HttpMethod::Delete); }
    let mut m = chars_of("Unknown HTTP method: ");
    extend_chars(&mut m, c.as_slice());
    Err(string_of(m.as_slice()))
}

/// JSON kind name used in step-argument errors.
pub open spec fn json_kind(v: JsonValue) -> Seq<char> {
    match v {
        JsonValue::Null => "null"@,
        JsonValue::Bool(_) => "boolean"@,
        JsonValue::Number(_) => "number"@,
        JsonValue::String(_) => "string"@,
        JsonValue::Array(_) => "array"@,
        JsonValue::Object(_) => "object"@,
    }
}

pub fn json_kind_name(v: &JsonValue) -> (r: &'static str)
    ensures
        r@ == json_kind(*v),
{
    match v {
        JsonValue::Null => "null",
        JsonValue::Bool(_) => "boolean",
        JsonValue::Number(_) => "number",
        JsonValue::String(_) => "string",
        JsonValue::Array(_) => "array",
        JsonValue::Object(_) => "object",
    }
}

/// A step argument given as a mapping (each value evaluated) or as a
/// `${expr}` string (evaluated once, to an object).
#[derive(Debug)]
pub enum MapArg {
    Absent,
    Mapping(Vec<(String, JsonValue)>),
    Expression,
}

/// Read a mapping-or-expression step argument; any other shape is an
/// error naming the step and argument.
pub fn map_arg(arg: Option<JsonValue>, step: &str, name: &str) -> (r: Result<MapArg, String>)
    ensures
        match arg {
            None => r matches Ok(MapArg::Absent),
            Some(JsonValue::Object(ms)) => r matches Ok(MapArg::Mapping(m)) && m@ == ms@,
            Some(JsonValue::String(_)) => r matches Ok(MapArg::Expression),
            Some(v) => r matches Err(e) && e@ == step@ + " step arg `"@ + name@
                + "`: expected a YAML mapping or `${expr}` string, got "@ + json_kind(v),
        },
{
    match arg {
        None => Ok(MapArg::Absent),
        Some(JsonValue::Object(ms)) => Ok(MapArg::Mapping(ms)),
        Some(JsonValue::String(_)) => Ok(MapArg::Expression),
        Some(v) => {
            let mut m = chars_of(step);
            extend_chars(&mut m, chars_of(" step arg `").as_slice());
            extend_chars(&mut m, chars_of(name).as_slice());
            extend_chars(&mut m, chars_of("`: expected a YAML mapping or `${expr}` string, got ").as_slice());
            extend_chars(&mut m, chars_of(json_kind_name(&v)).as_slice());
            Err(string_of(m.as_slice()))
        },
    }
}

/// An evaluated `${expr}` argument: an object's members, nothing for
/// `null`, an error naming the step and argument otherwise.
pub fn evaluated_map_arg(v: JsonValue, step: &str, name: &str) -> (r: Result<Option<Vec<(String, JsonValue)>>, String>)
    ensures
        match v {
            JsonValue::Object(ms) => r matches Ok(Some(m)) && m@ == ms@,
            JsonValue::Null => r matches Ok(None),
            _ => r matches Err(e) && e@ == step@ + " step arg `"@ + name@
                + "`: expression must evaluate to an object, got "@ + json_kind(v),
        },
{
    match v {
        JsonValue::Object(ms) => Ok(Some(ms)),
        JsonValue::Null => Ok(None),
        other => {
            let mut m = chars_of(step);
            extend_chars(&mut m, chars_of(" step arg `").as_slice());
            extend_chars(&mut m, chars_of(name).as_slice());
            extend_chars(&mut m, chars_of("`: expression must evaluate to an object, got ").as_slice());
            extend_chars(&mut m, chars_of(json_kind_name(&other)).as_slice());
            Err(string_of(m.as_slice()))
        },
    }
}

/// Some member key equals `k` up to ASCII case.
pub open spec fn has_key_ci(ms: Seq<(String, JsonValue)>, k: Seq<char>) -> bool {
    exists|i: int| 0 <= i < ms.len() && eq_ignore_case((#[trigger] ms[i]).0@, k)
}

/// Outbound headers of an HTTP step: the evaluated headers plus
/// `traceparent` (the request's) unless one is already set in any
/// case; `None` when that leaves no header.
pub fn outbound_headers(headers: Vec<(String, JsonValue)>, traceparent: &Option<String>) -> (r: Option<Vec<(String, JsonValue)>>)
    ensures
        ({
            let add = !has_key_ci(headers@, "traceparent"@) && traceparent is Some;
            &&& add ==> (r matches Some(h) && h@.len() == headers@.len() + 1 && h@.drop_last() == headers@
                && h@.last().0@ == "traceparent"@ && is_text(h@.last().1, traceparent.unwrap()@))
            &&& !add && headers@.len() > 0 ==> (r matches Some(h) && h@ == headers@)
            &&& !add && headers@.len() == 0 ==> r is None
        }),
{
    let tn = chars_of("traceparent");
    let mut present = false;
    let mut i: usize = 0;
    while i < headers.len()
        invariant
            i <= headers@.len(),
            tn@ == "traceparent"@,
            present == exists|j: int| 0 <= j < i && eq_ignore_case((#[trigger] headers@[j]).0@, "traceparent"@),
        decreases headers@.len() - i,
    {
        let kc = chars_of(headers[i].0.as_str());
        if eq_ignore_ascii_case(kc.as_slice(), tn.as_slice()) {
            present = true;
        }
        i = i + 1;
    }
    let mut h = headers;
    if !present {
        match traceparent {
            Some(tp) => {
                let ghost before = h@;
                h.push(("traceparent".to_owned(), JsonValue::String(tp.clone())));
                proof { assert(h@.drop_last() =~= before); }
            },
            None => {},
        }
    }
    if h.len() == 0 { None } else { Some(h) }
}

/// What an HTTP step does after its call.
#[derive(Debug, Clone)]
pub enum HttpStepOutcome {
    /// The status is allowed: continue with `next:` (or source order).
    Continue(Option<String>),
    /// The status is refused and the step names an `error:` step.
    ErrorStep(String),
    /// The status is refused and there is no `error:` step: run the
    /// configured fallback DSL, if any, then fail with this message.
    Fail(String),
}

/// Route an HTTP step by its upstream status.
pub fn http_step_outcome(allow: &Vec<u16>, status: u16, error: &Option<String>, next: &Option<String>) -> (r: HttpStepOutcome)
    ensures
        (allow@.len() == 0 || allow@.contains(status)) ==> (r matches HttpStepOutcome::Continue(n) && opt_str_eq(n, *next)),
        !(allow@.len() == 0 || allow@.contains(status)) && error is Some ==> (r matches HttpStepOutcome::ErrorStep(e)
            && e@ == error.unwrap()@),
        !(allow@.len() == 0 || allow@.contains(status)) && error is None ==> (r matches HttpStepOutcome::Fail(m)
            && m@ == "upstream status "@ + crate::text::decimal(status as nat) + " not in http_codes_allow_list"@),
{
    if crate::outbound::status_allowed(allow, status) {
        return HttpStepOutcome::Continue(next.clone());
    }
    match error {
        Some(e) => HttpStepOutcome::ErrorStep(e.clone()),
        None => {
            let mut m = chars_of("upstream status ");
            crate::text::push_decimal(&mut m, status as u128);
            extend_chars(&mut m, chars_of(" not in http_codes_allow_list").as_slice());
            HttpStepOutcome::Fail(string_of(m.as_slice()))
        },
    }
}


/// Members of an object; empty for any other value.
pub open spec fn members_of(v: JsonValue) -> Seq<(String, JsonValue)> {
    match v { JsonValue::Object(ms) => ms@, _ => Seq::empty() }
}

/// The value of the last pair named `k` in `hs`, as a JSON string
/// (later pairs of one name replace earlier ones).
pub open spec fn last_pair_value(hs: Seq<(String, String)>, k: Seq<char>) -> Option<JsonValue>
    decreases hs.len(),
{
    if hs.len() == 0 {
        None
    } else if hs.last().0@ == k {
        Some(JsonValue::String(hs.last().1))
    } else {
        last_pair_value(hs.drop_last(), k)
    }
}

/// The value an HTTP step binds under its `result:` name:
/// `{"response": {"body": <body or null>, "headers": {...}, "status": <status>}}`,
/// header names in key order, each with the value of its last pair.
pub fn http_result_value(status: u16, body: Option<JsonValue>, headers: Vec<(String, String)>) -> (r: JsonValue)
    ensures
        ({
            let top = members_of(r);
            let resp = members_of(top[0].1);
            let hs = members_of(resp[1].1);
            &&& r is Object && top.len() == 1 && top[0].0@ == "response"@
            &&& top[0].1 is Object && resp.len() == 3
            &&& resp[0].0@ == "body"@ && (match body { Some(b) => resp[0].1 == b, None => resp[0].1 is Null })
            &&& resp[1].0@ == "headers"@ && resp[1].1 is Object && sorted_members(hs)
            &&& forall|k: Seq<char>| #[trigger] member_value(hs, k) == last_pair_value(headers@, k)
            &&& forall|k: Seq<char>| #[trigger] keys_of(hs).contains(k) <==> last_pair_value(headers@, k) is Some
            &&& resp[2].0@ == "status"@ && is_number_text(resp[2].1, crate::text::decimal(status as nat))
        }),
{
    let mut hs: Vec<(String, JsonValue)> = Vec::new();
    let mut i: usize = 0;
    proof {
        assert(headers@.take(0) =~= Seq::<(String, String)>::empty());
        assert forall|k: Seq<char>| #[trigger] member_value(hs@, k) == last_pair_value(headers@.take(0), k) by {
            lemma_member_absent(hs@, k);
        }
    }
    while i < headers.len()
        invariant
            i <= headers@.len(),
            sorted_members(hs@),
            forall|k: Seq<char>| #[trigger] member_value(hs@, k) == last_pair_value(headers@.take(i as int), k),
            forall|k: Seq<char>| #[trigger] keys_of(hs@).contains(k) <==> last_pair_value(headers@.take(i as int), k) is Some,
        decreases headers@.len() - i,
    {
        let ghost before = hs@;
        let key = headers[i].0.clone();
        let v = JsonValue::String(headers[i].1.clone());
        put_member(&mut hs, key, v);
        proof {
            let pre = headers@.take(i as int);
            let cur = headers@.take(i + 1);
            assert(cur.drop_last() =~= pre);
            assert(cur.last() == headers@[i as int]);
            assert forall|k: Seq<char>| #[trigger] member_value(hs@, k) == last_pair_value(cur, k) by {
                if k != headers@[i as int].0@ {
                    assert(member_value(hs@, k) == member_value(before, k));
                }
            }
            assert forall|k: Seq<char>| #[trigger] keys_of(hs@).contains(k) <==> last_pair_value(cur, k) is Some by {
                if k != headers@[i as int].0@ {
                    assert(keys_of(before).contains(k) <==> last_pair_value(pre, k) is Some);
                }
            }
        }
        i = i + 1;
    }
    proof { assert(headers@.take(headers@.len() as int) =~= headers@); }
    let body_v = match body { Some(b) => b, None => JsonValue::Null };
    let ghost hsv = hs@;
    let hobj = JsonValue::Object(hs);
    proof { assert(members_of(hobj) == hsv); }
    let st = JsonValue::Number(JsonNumber { repr: crate::text::decimal_string(status as u128) });
    let mut resp: Vec<(String, JsonValue)> = Vec::new();
    resp.push(("body".to_owned(), body_v));
    resp.push(("headers".to_owned(), hobj));
    resp.push(("status".to_owned(), st));
    let ghost respv = resp@;
    let robj = JsonValue::Object(resp);
    proof { assert(members_of(robj) == respv); }
    let mut top: Vec<(String, JsonValue)> = Vec::new();
    top.push(("response".to_owned(), robj));
    let ghost topv = top@;
    let r = JsonValue::Object(top);
    proof {
        assert(members_of(r) == topv);
        assert(topv[0].1 == robj);
        assert(respv[1].1 == hobj);
        let top_ = members_of(r);
        let resp_ = members_of(top_[0].1);
        let hs_ = members_of(resp_[1].1);
        assert(resp_ == respv);
        assert(hs_ == hsv);
        assert(r is Object && top_.len() == 1 && top_[0].0@ == "response"@);
        assert(resp_.len() == 3);
        assert(resp_[0].0@ == "body"@);
        assert(resp_[1].0@ == "headers"@ && resp_[1].1 is Object && sorted_members(hs_));
        assert(resp_[2].0@ == "status"@);
        assert(is_number_text(resp_[2].1, crate::text::decimal(status as nat)));
        assert(match body { Some(b) => resp_[0].1 == b, None => resp_[0].1 is Null });
    }
    r
}

/// The key of the fallback DSL: its request type upper-cased (ASCII),
/// `/`, and its name without leading or trailing slashes.
pub open spec fn spec_exception_key(request_type: Seq<char>, dsl: Seq<char>) -> (Seq<char>, Seq<char>) {
    let m = crate::text::upper_seq(request_type);
    (m, m + seq!['/'] + trim_slashes(dsl))
}

/// `s` without leading and trailing `/`.
pub open spec fn trim_slashes(s: Seq<char>) -> Seq<char> {
    let a = choose|a: int| crate::router::leading_slashes(s, a);
    let t = s.skip(a);
    let b = choose|b: int| trailing_slashes(t, b);
    t.take(b)
}

/// `t` ends with exactly `t.len() - b` slashes.
pub open spec fn trailing_slashes(t: Seq<char>, b: int) -> bool {
    0 <= b <= t.len() && (forall|i: int| b <= i < t.len() ==> t[i] == '/') && (b > 0 ==> t[b - 1] != '/')
}

fn trim_slash_chars(s: &[char]) -> (r: Vec<char>)
    ensures
        r@ == trim_slashes(s@),
{
    let n = s.len();
    let mut a: usize = 0;
    while a < n && s[a] == '/'
        invariant
            a <= n,
            n == s@.len(),
            forall|i: int| 0 <= i < a ==> s@[i] == '/',
        decreases n - a,
    {
        a = a + 1;
    }
    let t = slice_vec(s, a, n);
    proof {
        assert(t@ =~= s@.skip(a as int));
        assert(crate::router::leading_slashes(s@, a as int));
        let a2 = choose|a2: int| crate::router::leading_slashes(s@, a2);
        assert(a2 == a) by {
            if a2 < a { assert(s@[a2] == '/'); } else if a2 > a { assert(s@[a as int] == '/'); }
        }
    }
    let m = t.len();
    let mut b: usize = m;
    while b > 0 && t[b - 1] == '/'
        invariant
            b <= m,
            m == t@.len(),
            forall|i: int| b <= i < m ==> t@[i] == '/',
        decreases b,
    {
        b = b - 1;
    }
    proof {
        let tv = t@;
        assert(trailing_slashes(tv, b as int));
        let b2 = choose|b2: int| trailing_slashes(tv, b2);
        assert(b2 == b) by {
            if b2 < b { assert(tv[b - 1] == '/'); } else if b2 > b { assert(tv[b2 - 1] == '/'); }
        }
    }
    let r = slice_vec(t.as_slice(), 0, b);
    proof { assert(r@ =~= t@.take(b as int)); }
    r
}

/// Method and key under which the fallback DSL is looked up.
pub fn exception_dsl_key(request_type: &str, dsl: &str) -> (r: (String, String))
    ensures
        (r.0@, r.1@) == spec_exception_key(request_type@, dsl@),
{
    let rt = chars_of(request_type);
    let m = crate::text::to_upper_vec(rt.as_slice());
    let mut key = slice_vec(m.as_slice(), 0, m.len());
    key.push('/');
    let dc = chars_of(dsl);
    let t = trim_slash_chars(dc.as_slice());
    extend_chars(&mut key, t.as_slice());
    proof {
        assert(m@.subrange(0, m@.len() as int) =~= m@);
        assert(key@ =~= m@ + seq!['/'] + trim_slashes(dsl@));
    }
    (string_of(m.as_slice()), string_of(key.as_slice()))
}

/// Index of the first member whose key is `k`.
pub open spec fn first_key(ms: Seq<(String, JsonValue)>, k: Seq<char>) -> Option<int> {
    if exists|i: int| 0 <= i < ms.len() && (#[trigger] ms[i]).0@ == k {
        Some(choose|i: int| 0 <= i < ms.len() && (#[trigger] ms[i]).0@ == k
            && forall|j: int| 0 <= j < i ==> (#[trigger] ms[j]).0@ != k)
    } else {
        None
    }
}

/// `ms` as a map with `k` set to `v`: the first member with key `k`
/// gets the value, or `(k, v)` is appended.
pub open spec fn map_set(ms: Seq<(String, JsonValue)>, k: Seq<char>, v: JsonValue, out: Seq<(String, JsonValue)>) -> bool {
    match first_key(ms, k) {
        Some(i) => out == ms.update(i, (ms[i].0, v)),
        None => out.len() == ms.len() + 1 && out.drop_last() == ms && out.last().0@ == k && out.last().1 == v,
    }
}

/// Set one member of a map held as a member list.
pub fn set_member(ms: &mut Vec<(String, JsonValue)>, k: String, v: JsonValue)
    ensures
        map_set(old(ms)@, k@, v, final(ms)@),
{
    let kc = chars_of(k.as_str());
    let mut i: usize = 0;
    while i < ms.len()
        invariant
            i <= ms@.len(),
            *ms == *old(ms),
            kc@ == k@,
            forall|j: int| 0 <= j < i ==> (#[trigger] ms@[j]).0@ != k@,
        decreases ms@.len() - i,
    {
        let mc = chars_of(ms[i].0.as_str());
        if chars_eq(mc.as_slice(), kc.as_slice()) {
            proof {
                let w = choose|w: int| 0 <= w < ms@.len() && (#[trigger] ms@[w]).0@ == k@
                    && forall|j: int| 0 <= j < w ==> (#[trigger] ms@[j]).0@ != k@;
                assert(w == i as int) by {
                    if w < i { } else if w > i { assert(ms@[i as int].0@ == k@); }
                }
            }
            let key = ms[i].0.clone();
            ms.set(i, (key, v));
            return;
        }
        i = i + 1;
    }
    let ghost before = ms@;
    ms.push((k, v));
    proof { assert(ms@.drop_last() =~= before); }
}

/// Body handed to the fallback DSL: `statusCode`, `responseBody`
/// (`null` without a body) and `failedRequestId` (empty when unknown),
/// then the configured body members over them.
pub fn exception_body(status: u16, upstream_body: Option<JsonValue>, failed_request_id: &Option<String>,
    configured: Vec<(String, JsonValue)>) -> (r: Vec<(String, JsonValue)>)
    ensures
        exists|m0: Seq<(String, JsonValue)>| {
            &&& m0.len() == 3
            &&& m0[0].0@ == "statusCode"@ && is_number_text(m0[0].1, crate::text::decimal(status as nat))
            &&& m0[1].0@ == "responseBody"@ && (match upstream_body { Some(b) => m0[1].1 == b, None => m0[1].1 is Null })
            &&& m0[2].0@ == "failedRequestId"@ && is_text(m0[2].1, match *failed_request_id { Some(f) => f@, None => Seq::empty() })
            &&& set_all(m0, configured@, r@)
        },
{
    let mut out: Vec<(String, JsonValue)> = Vec::new();
    out.push(("statusCode".to_owned(), JsonValue::Number(JsonNumber { repr: crate::text::decimal_string(status as u128) })));
    out.push(("responseBody".to_owned(), match upstream_body { Some(b) => b, None => JsonValue::Null }));
    let fid = match failed_request_id { Some(f) => f.clone(), None => String::new() };
    out.push(("failedRequestId".to_owned(), JsonValue::String(fid)));
    let ghost m0 = out@;
    let mut cfg = configured;
    let ghost cv = cfg@;
    let ghost mut taken: int = 0;
    let ghost mut outs: Seq<Seq<(String, JsonValue)>> = seq![m0];
    while cfg.len() > 0
        invariant
            0 <= taken <= cv.len(),
            cfg@ == cv.skip(taken),
            set_chain(m0, cv.take(taken), outs),
            outs.last() == out@,
        decreases cfg@.len(),
    {
        let ghost before = out@;
        proof { assert(cv.skip(taken)[0] == cv[taken]); }
        let (k, v) = cfg.remove(0);
        proof { assert(k@ == cv[taken].0@ && v == cv[taken].1); }
        set_member(&mut out, k, v);
        proof {
            let old_outs = outs;
            outs = outs.push(out@);
            let ps = cv.take(taken + 1);
            assert forall|q: int| 0 <= q < ps.len() implies map_set(#[trigger] outs[q], ps[q].0@, ps[q].1, outs[q + 1]) by {
                if q < taken {
                    assert(outs[q] == old_outs[q] && outs[q + 1] == old_outs[q + 1]);
                    assert(ps[q] == cv.take(taken)[q]);
                } else {
                    assert(outs[q] == before);
                    assert(ps[q] == cv[taken]);
                }
            }
            taken = taken + 1;
            assert(cfg@ =~= cv.skip(taken));
        }
    }
    proof {
        assert(cv.take(taken) =~= cv);
        assert(m0.len() == 3);
        assert(set_chain(m0, configured@, outs));
    }
    out
}

/// `outs[k]` is `m` after setting the first `k` of `ps` in turn.
pub open spec fn set_chain(m: Seq<(String, JsonValue)>, ps: Seq<(String, JsonValue)>, outs: Seq<Seq<(String, JsonValue)>>) -> bool {
    &&& outs.len() == ps.len() + 1
    &&& outs[0] == m
    &&& forall|k: int| 0 <= k < ps.len() ==> map_set(#[trigger] outs[k], ps[k].0@, ps[k].1, outs[k + 1])
}

/// `out` is `m` after setting each of `ps` in turn.
pub open spec fn set_all(m: Seq<(String, JsonValue)>, ps: Seq<(String, JsonValue)>, out: Seq<(String, JsonValue)>) -> bool {
    exists|outs: Seq<Seq<(String, JsonValue)>>| set_chain(m, ps, outs) && outs.last() == out
}
} // verus!
