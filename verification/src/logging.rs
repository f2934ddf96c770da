//! What enters a log line: redaction of secret-bearing fields,
//! CR/LF neutralisation, byte caps, error cause chains and trace ids.
use vstd::prelude::*;
use crate::text::{chars_of, string_of, slice_vec, utf8_len, utf8_char_len, char_utf8_len, lemma_utf8_take_mono, eq_ignore_case,
    any_eq_ignore_case, first_char, find_char};
use crate::json::{JsonValue, JsonNumber, json_text, to_json_string};
use crate::router::listed;
use crate::urls::opt_view;
use crate::config::LoggingConfig;

verus! {

/// Replacement for redacted values.
pub const REDACTED_SENTINEL: &'static str = "[REDACTED]";

/// Cap of the body preview on a step line.
pub const STEP_PREVIEW_MAX_BYTES: usize = 80;

/// `out` is `v` with the value of every object member whose key is in
/// `names` (up to ASCII case) replaced by the sentinel string, at any
/// depth; keys and order are kept.
pub open spec fn is_redaction(out: JsonValue, v: JsonValue, names: Seq<String>) -> bool
    decreases v, 1int,
{
    match v {
        JsonValue::Object(ms) => out matches JsonValue::Object(os) && members_redacted(os@, ms@, names),
        JsonValue::Array(items) => out matches JsonValue::Array(os) && items_redacted(os@, items@, names),
        _ => out == v,
    }
}

pub open spec fn items_redacted(os: Seq<JsonValue>, items: Seq<JsonValue>, names: Seq<String>) -> bool
    decreases items, 0int,
{
    os.len() == items.len() && (items.len() == 0 || (items_redacted(os.drop_last(), items.drop_last(), names)
        && is_redaction(os.last(), items.last(), names)))
}

pub open spec fn is_sentinel(v: JsonValue) -> bool {
    v matches JsonValue::String(s) && s@ == "[REDACTED]"@
}

pub open spec fn members_redacted(os: Seq<(String, JsonValue)>, ms: Seq<(String, JsonValue)>, names: Seq<String>) -> bool
    decreases ms, 0int,
{
    os.len() == ms.len() && (ms.len() == 0 || (members_redacted(os.drop_last(), ms.drop_last(), names)
        && os.last().0@ == ms.last().0@
        && (if listed(names, ms.last().0@) { is_sentinel(os.last().1) } else { is_redaction(os.last().1, ms.last().1, names) })))
}

fn name_listed(names: &Vec<String>, k: &str) -> (r: bool)
    ensures
        r == listed(names@, k@),
{
    let kc = chars_of(k);
    let r = any_eq_ignore_case(names, kc.as_slice());
    proof {
        if r {
            let i = choose|i: int| 0 <= i < names@.len() && eq_ignore_case(names@[i]@, kc@);
            assert(eq_ignore_case(names@[i]@, k@));
        } else {
            assert forall|i: int| 0 <= i < names@.len() implies !eq_ignore_case(names@[i]@, k@) by {
                assert(!eq_ignore_case(names@[i]@, kc@));
            }
        }
    }
    r
}

/// Redact matching field names in a JSON value, at any depth.
pub fn redact_json(v: &JsonValue, names: &Vec<String>) -> (r: JsonValue)
    ensures
        is_redaction(r, *v, names@),
    decreases *v,
{
    match v {
        JsonValue::Object(ms) => {
            let mut out: Vec<(String, JsonValue)> = Vec::new();
            let mut i: usize = 0;
            while i < ms.len()
                invariant
                    i <= ms@.len(),
                    *v == JsonValue::Object(*ms),
                    members_redacted(out@, ms@.subrange(0, i as int), names@),
                decreases ms@.len() - i,
            {
                let k = ms[i].0.clone();
                let val = if name_listed(names, ms[i].0.as_str()) {
                    JsonValue::String(REDACTED_SENTINEL.to_owned())
                } else {
                    proof {
                        assert(decreases_to!(*v => v->Object_0));
                        assert(decreases_to!(v->Object_0 => v->Object_0[i as int]));
                        assert(decreases_to!(v->Object_0[i as int] => v->Object_0[i as int].1));
                    }
                    redact_json(&ms[i].1, names)
                };
                proof {
                    if listed(names@, ms@[i as int].0@) {
                        reveal_strlit("[REDACTED]");
                    }
                }
                let ghost before = out@;
                out.push((k, val));
                i = i + 1;
                proof {
                    let sub = ms@.subrange(0, i as int);
                    assert(sub.drop_last() =~= ms@.subrange(0, i - 1));
                    assert(out@.drop_last() =~= before);
                    assert(sub.last() == ms@[i - 1]);
                }
            }
            proof { assert(ms@.subrange(0, ms@.len() as int) =~= ms@); }
            JsonValue::Object(out)
        },
        JsonValue::Array(items) => {
            let mut out: Vec<JsonValue> = Vec::new();
            let mut i: usize = 0;
            while i < items.len()
                invariant
                    i <= items@.len(),
                    *v == JsonValue::Array(*items),
                    items_redacted(out@, items@.subrange(0, i as int), names@),
                decreases items@.len() - i,
            {
                proof {
                    assert(decreases_to!(*v => v->Array_0));
                    assert(decreases_to!(v->Array_0 => v->Array_0[i as int]));
                }
                let r = redact_json(&items[i], names);
                let ghost before = out@;
                out.push(r);
                i = i + 1;
                proof {
                    let sub = items@.subrange(0, i as int);
                    assert(sub.drop_last() =~= items@.subrange(0, i - 1));
                    assert(out@.drop_last() =~= before);
                }
            }
            proof { assert(items@.subrange(0, items@.len() as int) =~= items@); }
            JsonValue::Array(out)
        },
        JsonValue::Null => JsonValue::Null,
        JsonValue::Bool(b) => JsonValue::Bool(*b),
        JsonValue::Number(n) => JsonValue::Number(JsonNumber { repr: n.repr.clone() }),
        JsonValue::String(s) => JsonValue::String(s.clone()),
    }
}

/// Header list with the value of every header named in `names` (up to
/// ASCII case) replaced by the sentinel.
pub fn redact_headers(headers: &Vec<(String, String)>, names: &Vec<String>) -> (r: Vec<(String, String)>)
    ensures
        r@.len() == headers@.len(),
        forall|i: int| 0 <= i < headers@.len() ==> (#[trigger] r@[i]).0@ == headers@[i].0@
            && r@[i].1@ == (if listed(names@, headers@[i].0@) { "[REDACTED]"@ } else { headers@[i].1@ }),
{
    let mut out: Vec<(String, String)> = Vec::new();
    let mut i: usize = 0;
    while i < headers.len()
        invariant
            i <= headers@.len(),
            out@.len() == i,
            forall|j: int| 0 <= j < i ==> (#[trigger] out@[j]).0@ == headers@[j].0@
                && out@[j].1@ == (if listed(names@, headers@[j].0@) { "[REDACTED]"@ } else { headers@[j].1@ }),
        decreases headers@.len() - i,
    {
        let v = if name_listed(names, headers[i].0.as_str()) {
            REDACTED_SENTINEL.to_owned()
        } else {
            headers[i].1.clone()
        };
        proof { reveal_strlit("[REDACTED]"); }
        out.push((headers[i].0.clone(), v));
        i = i + 1;
    }
    out
}

/// CR and LF replaced by spaces.
pub open spec fn sanitized(s: Seq<char>) -> Seq<char> {
    s.map_values(|c: char| if c == '\n' || c == '\r' { ' ' } else { c })
}

fn sanitize_chars(c: &[char]) -> (r: Vec<char>)
    ensures
        r@ == sanitized(c@),
{
    let mut out: Vec<char> = Vec::new();
    let mut i: usize = 0;
    while i < c.len()
        invariant
            i <= c@.len(),
            out@ == sanitized(c@.subrange(0, i as int)),
        decreases c@.len() - i,
    {
        let ch = c[i];
        out.push(if ch == '\n' || ch == '\r' { ' ' } else { ch });
        i = i + 1;
        proof { assert(out@ =~= sanitized(c@.subrange(0, i as int))); }
    }
    proof { assert(c@.subrange(0, c@.len() as int) =~= c@); }
    out
}

/// Replace CR and LF with spaces so a value cannot split a log line.
pub fn sanitize_log_value(s: &str) -> (r: String)
    ensures
        r@ == sanitized(s@),
{
    let c = chars_of(s);
    let o = sanitize_chars(c.as_slice());
    string_of(o.as_slice())
}

/// `k` characters of `s` fit in `max` bytes and `k + 1` would not (or
/// `k` is all of `s`).
pub open spec fn longest_fit(s: Seq<char>, max: nat, k: int) -> bool {
    0 <= k <= s.len() && utf8_len(s.take(k)) <= max && (k < s.len() ==> utf8_len(s.take(k + 1)) > max)
}

/// `s` sanitised; when longer than `max_bytes` bytes, cut to the
/// longest prefix of whole characters within `max_bytes` and followed
/// by `…`.
pub open spec fn spec_cap(s: Seq<char>, max: nat) -> Seq<char> {
    let t = sanitized(s);
    if utf8_len(t) <= max {
        t
    } else {
        t.take(choose|k: int| longest_fit(t, max, k)).push('…')
    }
}

/// Longest fitting prefix is unique.
proof fn lemma_longest_fit_unique(s: Seq<char>, max: nat, k1: int, k2: int)
    requires
        longest_fit(s, max, k1),
        longest_fit(s, max, k2),
    ensures
        k1 == k2,
{
    if k1 < k2 {
        lemma_utf8_take_mono(s, k1 + 1, k2);
    } else if k2 < k1 {
        lemma_utf8_take_mono(s, k2 + 1, k1);
    }
}

/// Cap a log value at `max_bytes` (cutting at a character boundary)
/// after sanitising CR/LF; `…` marks a cut.
pub fn cap_and_sanitize(s: &str, max_bytes: usize) -> (r: String)
    ensures
        r@ == spec_cap(s@, max_bytes as nat),
{
    let c = chars_of(s);
    let t = sanitize_chars(c.as_slice());
    let mut used: usize = 0;
    let mut k: usize = 0;
    while k < t.len() && char_utf8_len(t[k]) <= max_bytes - used
        invariant
            k <= t@.len(),
            used == utf8_len(t@.take(k as int)),
            used <= max_bytes,
        decreases t@.len() - k,
    {
        let w = char_utf8_len(t[k]);
        proof { assert(t@.take(k + 1).drop_last() =~= t@.take(k as int)); }
        used = used + w;
        k = k + 1;
    }
    proof {
        if k < t@.len() {
            assert(t@.take(k + 1).drop_last() =~= t@.take(k as int));
        }
        assert(longest_fit(t@, max_bytes as nat, k as int));
    }
    if k == t.len() {
        proof { assert(t@.take(k as int) =~= t@); }
        return string_of(t.as_slice());
    }
    proof {
        assert(utf8_len(t@) > max_bytes) by {
            lemma_utf8_take_mono(t@, k + 1, t@.len() as int);
            assert(t@.take(t@.len() as int) =~= t@);
        }
        let kk = choose|kk: int| longest_fit(t@, max_bytes as nat, kk);
        lemma_longest_fit_unique(t@, max_bytes as nat, kk, k as int);
    }
    let mut out = slice_vec(t.as_slice(), 0, k);
    out.push('…');
    proof { assert(out@ =~= t@.take(k as int).push('…')); }
    string_of(out.as_slice())
}

/// The ` -> caused by: <msg>` links of an error's cause chain (`causes`
/// are the messages of its sources, nearest first), at most five; a
/// longer chain ends with ` -> caused by: ...`.
pub open spec fn spec_error_chain(causes: Seq<String>) -> Seq<char>
    decreases causes.len(),
{
    if causes.len() == 0 {
        Seq::empty()
    } else if causes.len() <= 5 {
        spec_error_chain(causes.drop_last()) + " -> caused by: "@ + sanitized(causes.last()@)
    } else {
        spec_error_chain(causes.take(5)) + " -> caused by: ..."@
    }
}

pub fn error_chain(causes: &Vec<String>) -> (r: String)
    ensures
        r@ == spec_error_chain(causes@),
{
    let mut out: Vec<char> = Vec::new();
    let lead = chars_of(" -> caused by: ");
    let n = if causes.len() <= 5 { causes.len() } else { 5 };
    let mut i: usize = 0;
    while i < n
        invariant
            i <= n <= 5,
            n <= causes@.len(),
            lead@ == " -> caused by: "@,
            out@ == spec_error_chain(causes@.take(i as int)),
        decreases n - i,
    {
        crate::text::extend_chars(&mut out, lead.as_slice());
        let m = sanitize_log_value(causes[i].as_str());
        let mc = chars_of(m.as_str());
        crate::text::extend_chars(&mut out, mc.as_slice());
        i = i + 1;
        proof {
            assert(causes@.take(i as int).drop_last() =~= causes@.take(i - 1));
            assert(causes@.take(i as int).last() == causes@[i - 1]);
        }
    }
    if causes.len() > 5 {
        let tail = chars_of(" -> caused by: ...");
        crate::text::extend_chars(&mut out, tail.as_slice());
    } else {
        proof { assert(causes@.take(n as int) =~= causes@); }
    }
    string_of(out.as_slice())
}

/// Trace id (second `-`-separated field) of a W3C `traceparent`: there
/// must be at least four fields and the second must be 32 bytes long.
pub open spec fn spec_trace_id(tp: Seq<char>) -> Option<Seq<char>> {
    match first_char(tp, '-') {
        None => None,
        Some(d1) => {
            let rest1 = tp.skip(d1 + 1);
            match first_char(rest1, '-') {
                None => None,
                Some(d2) => {
                    let field = rest1.subrange(0, d2);
                    let rest2 = rest1.skip(d2 + 1);
                    if rest2.contains('-') && utf8_len(field) == 32 {
                        Some(field)
                    } else {
                        None
                    }
                },
            }
        },
    }
}

/// The 32-byte trace id of a `traceparent`, or `None` when it is not
/// well formed.
pub fn trace_id_from_traceparent(tp: &str) -> (r: Option<String>)
    ensures
        opt_view(r) == spec_trace_id(tp@),
{
    let c = chars_of(tp);
    let n = c.len();
    let d1 = match find_char(c.as_slice(), '-') { Some(i) => i, None => { return None; } };
    let rest1 = slice_vec(c.as_slice(), d1 + 1, n);
    proof { assert(rest1@ =~= c@.skip(d1 + 1)); }
    let n1 = rest1.len();
    let d2 = match find_char(rest1.as_slice(), '-') { Some(i) => i, None => { return None; } };
    let field = slice_vec(rest1.as_slice(), 0, d2);
    let rest2 = slice_vec(rest1.as_slice(), d2 + 1, n1);
    proof { assert(rest2@ =~= rest1@.skip(d2 + 1)); }
    let has3 = match find_char(rest2.as_slice(), '-') { Some(_) => true, None => false };
    if !has3 {
        return None;
    }
    if field.len() > 32 {
        proof { crate::text::lemma_utf8_len_ge_len(field@); }
        return None;
    }
    if crate::text::utf8_length(field.as_slice()) == 32 {
        Some(string_of(field.as_slice()))
    } else {
        None
    }
}

/// A value for a log line: redacted (field names of `cfg`), rendered
/// as compact JSON and capped at `cfg.max_body_bytes`; `-` when absent.
pub fn render_body_for_log(value: Option<&JsonValue>, cfg: &LoggingConfig) -> (r: String)
    ensures
        match value {
            None => r@ == "-"@,
            Some(v) => exists|red: JsonValue| is_redaction(red, *v, cfg.redact_body_fields@)
                && r@ == spec_cap(json_text(red), cfg.max_body_bytes as nat),
        },
{
    match value {
        Some(v) => {
            let red = redact_json(v, &cfg.redact_body_fields);
            let s = to_json_string(&red);
            cap_and_sanitize(s.as_str(), cfg.max_body_bytes)
        },
        None => "-".to_owned(),
    }
}

/// A one-line preview of a step's value: like
/// [`render_body_for_log`] but capped at [`STEP_PREVIEW_MAX_BYTES`],
/// and `None` for an absent or `null` value.
pub fn preview_body_for_log(value: Option<&JsonValue>, cfg: &LoggingConfig) -> (r: Option<String>)
    ensures
        match value {
            None => r is None,
            Some(v) => if v is Null {
                r is None
            } else {
                r is Some && exists|red: JsonValue| is_redaction(red, *v, cfg.redact_body_fields@)
                    && r.unwrap()@ == spec_cap(json_text(red), 80)
            },
        },
{
    match value {
        None => None,
        Some(v) => {
            if let JsonValue::Null = v {
                return None;
            }
            let red = redact_json(v, &cfg.redact_body_fields);
            let s = to_json_string(&red);
            Some(cap_and_sanitize(s.as_str(), STEP_PREVIEW_MAX_BYTES))
        },
    }
}

} // verus!
