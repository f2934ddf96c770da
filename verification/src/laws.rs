//! Properties of the library that relate several of its functions.
use vstd::prelude::*;
use crate::text::{first_char, utf8_len, utf8_char_len};
use crate::ws::{hex_digits, hex_lower};
use crate::logging::{spec_trace_id, spec_cap, sanitized, longest_fit};
use crate::observability::traceparent_of;
use crate::interpolate::{refs_from, spec_substitute, assemble_refs};
use crate::guards::GuardStack;
use crate::single_flight::Registry;
use crate::hot_reload::{WatchedPath, spec_path_relevant, spec_under_reserved};
use crate::idempotency::{dedup_input, sha256};
use crate::engine::{StepInfo, spec_advance, spec_step_cap};
use crate::dsl::{StepKind, spec_classify, present_in, action_keys, key_present};
use crate::steps::{HttpMethod, spec_method};
use crate::router::{GateVerdict, spec_gate, spec_final_status, listed, spec_origin_allowed};
use crate::config::{IncomingRequestsConfig, CsrfConfig, OptimisticConcurrencyConfig, ResponseConfig};
use crate::text::is_prefix;
use crate::json::{JsonValue, json_text, items_view, members_view, same_json, same_items, same_members};

verus! {

proof fn lemma_hex_digits_shape(n: nat, k: nat)
    ensures
        hex_digits(n, k).len() == k,
        forall|i: int| 0 <= i < k ==> (#[trigger] hex_digits(n, k)[i]) != '-' && (hex_digits(n, k)[i] as u32) < 0x80,
    decreases k,
{
    if k > 0 {
        lemma_hex_digits_shape(n / 16, (k - 1) as nat);
        let d = n % 16;
        assert(d < 16);
        let c = hex_lower(d);
        if d < 10 { assert((c as u32) == d + 48); } else { assert((c as u32) == d + 87); }
        let h = hex_digits(n, k);
        assert(h == hex_digits(n / 16, (k - 1) as nat).push(c));
        assert forall|i: int| 0 <= i < k implies (#[trigger] h[i]) != '-' && (h[i] as u32) < 0x80 by {
            if i < k - 1 { assert(h[i] == hex_digits(n / 16, (k - 1) as nat)[i]); }
        }
    }
}

proof fn lemma_ascii_utf8_len(s: Seq<char>)
    requires
        forall|i: int| 0 <= i < s.len() ==> (#[trigger] s[i] as u32) < 0x80,
    ensures
        utf8_len(s) == s.len(),
    decreases s.len(),
{
    if s.len() > 0 {
        assert forall|i: int| 0 <= i < s.drop_last().len() implies (#[trigger] s.drop_last()[i] as u32) < 0x80 by {
            assert(s.drop_last()[i] == s[i]);
        }
        lemma_ascii_utf8_len(s.drop_last());
        assert((s.last() as u32) < 0x80);
    }
}

proof fn lemma_first_dash_at(s: Seq<char>, k: int)
    requires
        0 <= k < s.len(),
        s[k] == '-',
        forall|i: int| 0 <= i < k ==> s[i] != '-',
    ensures
        first_char(s, '-') == Some(k),
{
    assert(s.contains('-'));
    let w = choose|w: int| 0 <= w < s.len() && s[w] == '-' && forall|j: int| 0 <= j < w ==> s[j] != '-';
    if w < k { } else if w > k { assert(s[k] != '-'); }
}

/// A `traceparent` minted for a request carries its trace id where the
/// trace-id extraction looks for it: extracting from
/// `00-<trace>-<span>-01` gives the 32 hex digits of `trace`.
pub proof fn law_trace_id_of_minted_traceparent(trace: u128, span: u64)
    ensures
        spec_trace_id(traceparent_of(trace as nat, span as nat)) == Some(hex_digits(trace as nat, 32)),
{
    let h32 = hex_digits(trace as nat, 32);
    let h16 = hex_digits(span as nat, 16);
    lemma_hex_digits_shape(trace as nat, 32);
    lemma_hex_digits_shape(span as nat, 16);
    reveal_strlit("00-");
    reveal_strlit("-");
    reveal_strlit("-01");
    let tp = traceparent_of(trace as nat, span as nat);
    assert(tp == "00-"@ + h32 + "-"@ + h16 + "-01"@);
    assert(tp.len() == 3 + 32 + 1 + 16 + 3);
    assert(tp[2] == '-');
    assert(tp[0] == '0' && tp[1] == '0');
    lemma_first_dash_at(tp, 2);
    let rest1 = tp.skip(3);
    assert(rest1 =~= h32 + "-"@ + h16 + "-01"@);
    assert forall|i: int| 0 <= i < 32 implies rest1[i] != '-' by {
        assert(rest1[i] == h32[i]);
    }
    assert(rest1[32] == '-');
    lemma_first_dash_at(rest1, 32);
    let field = rest1.subrange(0, 32);
    assert(field =~= h32);
    let rest2 = rest1.skip(33);
    assert(rest2[16] == '-');
    assert(rest2.contains('-'));
    assert forall|i: int| 0 <= i < h32.len() implies (#[trigger] h32[i] as u32) < 0x80 by {}
    lemma_ascii_utf8_len(h32);
}

/// A string with no constant reference is left as it is by
/// substitution, whatever the constants.
pub proof fn law_substitute_without_references(s: Seq<char>, constants: Seq<(String, String)>)
    requires
        refs_from(s, 0).len() == 0,
    ensures
        spec_substitute(s, constants) == s,
{
    assert(s.skip(0) =~= s);
}

/// A guard pushed onto the stack and popped again leaves the stack as
/// it was.
pub proof fn law_guard_push_pop_restores(before: GuardStack, pushed: GuardStack, popped: GuardStack, key: Seq<char>)
    requires
        before.wf(),
        pushed.view_seq() == before.view_seq().push(key),
        popped.view_seq() == pushed.view_seq().drop_last(),
    ensures
        popped.view_seq() == before.view_seq(),
{
    assert(before.view_seq().push(key).drop_last() =~= before.view_seq());
}

/// Single flight elects one leader per key: once a key is in flight,
/// every further claim of it follows until the key is removed.
pub proof fn law_one_leader_per_key(reg: Registry, key: Seq<char>)
    requires
        reg.wf(),
        exists|i: int| 0 <= i < reg.view_slots().len() && reg.view_slots()[i] == (key, true),
    ensures
        forall|i: int| 0 <= i < reg.view_slots().len() && (#[trigger] reg.view_slots()[i]).0 == key ==> reg.view_slots()[i].1,
{
    let w = choose|w: int| 0 <= w < reg.view_slots().len() && reg.view_slots()[w] == (key, true);
    assert forall|i: int| 0 <= i < reg.view_slots().len() && (#[trigger] reg.view_slots()[i]).0 == key implies reg.view_slots()[i].1 by {
        if i != w {
            if i < w { assert(reg.view_slots()[i].0 != reg.view_slots()[w].0); }
            else { assert(reg.view_slots()[w].0 != reg.view_slots()[i].0); }
        }
    }
}

/// Edits under a project's `triggers`, `sources`, `cronmanager-jobs`
/// or `WS/outbound` directory never reload the HTTP DSL tree.
pub proof fn law_reserved_dirs_never_reload(p: WatchedPath)
    requires
        spec_under_reserved(p.rel),
    ensures
        !spec_path_relevant(p),
{
}

/// The dedup key depends on the four fields alone: equal fields give
/// equal keys.
pub proof fn law_dedup_key_deterministic(k1: Seq<char>, m1: Seq<char>, p1: Seq<char>, path1: Seq<char>,
    k2: Seq<char>, m2: Seq<char>, p2: Seq<char>, path2: Seq<char>)
    requires
        k1 == k2 && m1 == m2 && p1 == p2 && path1 == path2,
    ensures
        sha256(dedup_input(k1, m1, p1, path1)) == sha256(dedup_input(k2, m2, p2, path2)),
{
}

/// The references found from `p` on lie in order within `s`, each after
/// the previous one ends.
proof fn lemma_refs_ordered(s: Seq<char>, p: int)
    ensures
        forall|k: int| 0 <= k < refs_from(s, p).len() ==> {
            let r = #[trigger] refs_from(s, p)[k];
            p <= r.0 && r.0 < r.1 && r.1 <= s.len()
        },
        forall|k: int| 0 < k < refs_from(s, p).len() ==> refs_from(s, p)[k - 1].1 <= #[trigger] refs_from(s, p)[k].0,
    decreases s.len() - p,
{
    if p < 0 || p >= s.len() {
    } else {
        match crate::interpolate::ref_end(s, p) {
            Some(e) => {
                if p < e <= s.len() {
                    lemma_refs_ordered(s, e);
                    let g = refs_from(s, p);
                    let t = refs_from(s, e);
                    assert(g == seq![(p, e)] + t);
                    assert forall|k: int| 0 <= k < g.len() implies {
                        let r = #[trigger] g[k];
                        p <= r.0 && r.0 < r.1 && r.1 <= s.len()
                    } by {
                        if k > 0 { assert(g[k] == t[k - 1]); }
                    }
                    assert forall|k: int| 0 < k < g.len() implies g[k - 1].1 <= #[trigger] g[k].0 by {
                        assert(g[k] == t[k - 1]);
                        if k > 1 { assert(g[k - 1] == t[k - 2]); }
                    }
                } else {
                    assert(refs_from(s, p).len() == 0);
                }
            },
            None => {
                lemma_refs_ordered(s, p + 1);
                assert(refs_from(s, p) == refs_from(s, p + 1));
            },
        }
    }
}

/// With no constants, the text assembled up to reference `k` is the
/// input text up to that reference's end.
proof fn lemma_assemble_no_constants(s: Seq<char>, k: int)
    requires
        0 <= k <= refs_from(s, 0).len(),
    ensures
        k > 0 ==> assemble_refs(s, refs_from(s, 0), Seq::empty(), k) == s.subrange(0, refs_from(s, 0)[k - 1].1),
        k == 0 ==> assemble_refs(s, refs_from(s, 0), Seq::empty(), k) == Seq::<char>::empty(),
    decreases k,
{
    let g = refs_from(s, 0);
    lemma_refs_ordered(s, 0);
    if k > 0 {
        lemma_assemble_no_constants(s, k - 1);
        let r = g[k - 1];
        let from = if k == 1 { 0 } else { g[k - 2].1 };
        let empty: Seq<(String, String)> = Seq::empty();
        assert(crate::outbound::pair_value(empty, crate::interpolate::ref_key(s, r)) is None);
        if k == 1 {
            assert(s.subrange(0, from) + s.subrange(from, r.0) + s.subrange(r.0, r.1) =~= s.subrange(0, r.1));
        } else {
            assert(g[k - 2].1 <= g[k - 1].0);
            assert(s.subrange(0, from) + s.subrange(from, r.0) + s.subrange(r.0, r.1) =~= s.subrange(0, r.1));
        }
    }
}

/// Substitution with no constants leaves every text as it is: unknown
/// references are kept literally.
pub proof fn law_substitute_without_constants(s: Seq<char>)
    ensures
        spec_substitute(s, Seq::empty()) == s,
{
    let g = refs_from(s, 0);
    lemma_refs_ordered(s, 0);
    lemma_assemble_no_constants(s, g.len() as int);
    if g.len() == 0 {
        assert(s.skip(0) =~= s);
    } else {
        let end = g[g.len() - 1].1;
        assert(s.subrange(0, end) + s.skip(end) =~= s);
    }
}

proof fn lemma_take_utf8_mono(s: Seq<char>, a: int, b: int)
    requires
        0 <= a <= b <= s.len(),
    ensures
        utf8_len(s.take(a)) <= utf8_len(s.take(b)),
    decreases b - a,
{
    if a < b {
        lemma_take_utf8_mono(s, a, b - 1);
        assert(s.take(b).drop_last() =~= s.take(b - 1));
    }
}

/// Some prefix is the longest that fits `max` bytes.
proof fn lemma_longest_fit_exists(s: Seq<char>, max: nat, k: int)
    requires
        0 <= k <= s.len(),
        utf8_len(s.take(k)) <= max,
    ensures
        exists|j: int| longest_fit(s, max, j),
    decreases s.len() - k,
{
    if k == s.len() {
        assert(longest_fit(s, max, k));
    } else if utf8_len(s.take(k + 1)) > max {
        assert(longest_fit(s, max, k));
    } else {
        lemma_longest_fit_exists(s, max, k + 1);
    }
}

/// A value capped for a log line is a single line (no CR or LF) and
/// takes at most `max` bytes plus the three of the `…` marker.
pub proof fn law_capped_log_value_is_one_bounded_line(s: Seq<char>, max: nat)
    ensures
        forall|i: int| 0 <= i < spec_cap(s, max).len() ==> #[trigger] spec_cap(s, max)[i] != '\n' && spec_cap(s, max)[i] != '\r',
        utf8_len(spec_cap(s, max)) <= max + 3,
{
    let t = sanitized(s);
    assert forall|i: int| 0 <= i < t.len() implies #[trigger] t[i] != '\n' && t[i] != '\r' by {}
    if utf8_len(t) > max {
        assert(t.take(0) =~= Seq::<char>::empty());
        lemma_longest_fit_exists(t, max, 0);
        let k = choose|k: int| longest_fit(t, max, k);
        let c = t.take(k).push('…');
        assert(c.drop_last() =~= t.take(k));
        assert(('…' as u32) == 0x2026);
        assert forall|i: int| 0 <= i < c.len() implies #[trigger] c[i] != '\n' && c[i] != '\r' by {
            if i < k { assert(c[i] == t[i]); }
        }
    }
}

/// A copy of a JSON value has the same view as the value it copies, and
/// so renders to the same text.
pub proof fn law_copy_renders_the_same(a: JsonValue, b: JsonValue)
    requires
        same_json(a, b),
    ensures
        a@ == b@,
        json_text(a) == json_text(b),
    decreases a, 2int,
{
    match (a, b) {
        (JsonValue::Array(x), JsonValue::Array(y)) => {
            assert(decreases_to!(a => x));
            lemma_items_view(x@, y@, a);
        },
        (JsonValue::Object(x), JsonValue::Object(y)) => {
            assert(decreases_to!(a => x));
            lemma_members_view(x@, y@, a);
        },
        _ => {},
    }
}

proof fn lemma_items_view(x: Seq<JsonValue>, y: Seq<JsonValue>, whole: JsonValue)
    requires
        same_items(x, y),
        forall|i: int| 0 <= i < x.len() ==> decreases_to!(whole => #[trigger] x[i]),
    ensures
        items_view(x) == items_view(y),
    decreases whole, 1int, x.len(),
{
    if x.len() > 0 {
        assert forall|i: int| 0 <= i < x.drop_last().len() implies decreases_to!(whole => #[trigger] x.drop_last()[i]) by {
            assert(x.drop_last()[i] == x[i]);
        }
        lemma_items_view(x.drop_last(), y.drop_last(), whole);
        assert(decreases_to!(whole => x[x.len() - 1]));
        law_copy_renders_the_same(x.last(), y.last());
    }
}

proof fn lemma_members_view(x: Seq<(String, JsonValue)>, y: Seq<(String, JsonValue)>, whole: JsonValue)
    requires
        same_members(x, y),
        forall|i: int| 0 <= i < x.len() ==> decreases_to!(whole => (#[trigger] x[i]).1),
    ensures
        members_view(x) == members_view(y),
    decreases whole, 1int, x.len(),
{
    if x.len() > 0 {
        assert forall|i: int| 0 <= i < x.drop_last().len() implies decreases_to!(whole => (#[trigger] x.drop_last()[i]).1) by {
            assert(x.drop_last()[i] == x[i]);
        }
        lemma_members_view(x.drop_last(), y.drop_last(), whole);
        assert(decreases_to!(whole => x[x.len() - 1].1));
        law_copy_renders_the_same(x.last().1, y.last().1);
    }
}

/// Every dispatch of the scheduler spends budget: a run dispatches at
/// most as many steps as its global cap, and its budget never goes
/// below zero.
pub proof fn law_dispatch_spends_budget(steps: Seq<StepInfo>, max: u32, cur: int, budget: int, rec: Seq<u32>, stopped: bool)
    requires
        budget >= 0,
    ensures
        0 <= spec_advance(steps, max, cur, budget, rec, stopped).1 <= budget,
        spec_advance(steps, max, cur, budget, rec, stopped).3 is Some ==> spec_advance(steps, max, cur, budget, rec, stopped).1 < budget,
    decreases budget,
{
    if !(stopped || cur < 0 || cur >= steps.len() || budget <= 0 || rec.len() != steps.len()) {
        if rec[cur] >= spec_step_cap(steps[cur], max) {
            law_dispatch_spends_budget(steps, max, cur + 1, budget - 1, rec, stopped);
        }
    }
}

/// No step runs more often than its recursion cap: if no count exceeds
/// its step's cap, none does after the scheduler dispatches.
pub proof fn law_recursion_caps_hold(steps: Seq<StepInfo>, max: u32, cur: int, budget: int, rec: Seq<u32>, stopped: bool)
    requires
        rec.len() == steps.len(),
        forall|i: int| 0 <= i < rec.len() ==> #[trigger] rec[i] <= spec_step_cap(steps[i], max),
    ensures
        ({
            let r = spec_advance(steps, max, cur, budget, rec, stopped).2;
            r.len() == steps.len() && forall|i: int| 0 <= i < r.len() ==> #[trigger] r[i] <= spec_step_cap(steps[i], max)
        }),
    decreases budget,
{
    if !(stopped || cur < 0 || cur >= steps.len() || budget <= 0 || rec.len() != steps.len()) {
        if rec[cur] >= spec_step_cap(steps[cur], max) {
            law_recursion_caps_hold(steps, max, cur + 1, budget - 1, rec, stopped);
        } else {
            let r = rec.update(cur, (rec[cur] + 1) as u32);
            assert forall|i: int| 0 <= i < r.len() implies #[trigger] r[i] <= spec_step_cap(steps[i], max) by {
                if i != cur { assert(r[i] == rec[i]); }
            }
        }
    }
}

/// A step's effective recursion cap: a step that sets no cap of its own
/// may run as often as the global cap allows; a step's own cap is used
/// when it is below the global cap, else the global cap is; the cap
/// never exceeds either bound.
pub proof fn law_step_cap_defaults_to_global(s: StepInfo, global: u32)
    ensures
        s.max_recursions is None ==> spec_step_cap(s, global) == global,
        s.max_recursions matches Some(c) ==> spec_step_cap(s, global) <= c
            && (spec_step_cap(s, global) == c || spec_step_cap(s, global) == global),
        s.max_recursions matches Some(c) && c >= global ==> spec_step_cap(s, global) == global,
        spec_step_cap(s, global) <= global,
{
}

/// A step's `call:` decides its kind whenever it has at most one action
/// key: `declare` makes a declaration, `reflect.mock` a mock HTTP step,
/// any `http.<verb>` a real HTTP step; and conversely a mock step is only
/// ever the one whose call is `reflect.mock`, a real HTTP step only one
/// whose call starts with `http.`.
pub proof fn law_call_decides_step_kind(keys: Seq<Option<String>>, call: Option<Seq<char>>)
    ensures
        present_in(keys, action_keys()).len() <= 1 ==> spec_classify(keys, Some("reflect.mock"@)) == Ok::<StepKind, Seq<Seq<char>>>(StepKind::HttpMock),
        present_in(keys, action_keys()).len() <= 1 ==> spec_classify(keys, Some("declare"@)) == Ok::<StepKind, Seq<Seq<char>>>(StepKind::Declaration),
        present_in(keys, action_keys()).len() <= 1 && (call matches Some(c) && is_prefix("http."@, c))
            ==> spec_classify(keys, call) == Ok::<StepKind, Seq<Seq<char>>>(StepKind::Http),
        spec_classify(keys, call) == Ok::<StepKind, Seq<Seq<char>>>(StepKind::HttpMock) ==> call == Some("reflect.mock"@),
        spec_classify(keys, call) == Ok::<StepKind, Seq<Seq<char>>>(StepKind::Http) ==> (call matches Some(c) && is_prefix("http."@, c)),
{
    reveal_strlit("reflect.mock");
    reveal_strlit("declare");
    reveal_strlit("http.");
    assert("reflect.mock"@.len() != "declare"@.len());
    assert(!is_prefix("http."@, "reflect.mock"@)) by {
        assert("reflect.mock"@[0] != "http."@[0]);
    }
    assert(!is_prefix("http."@, "declare"@)) by {
        assert("declare"@[0] != "http."@[0]);
    }
    match call {
        Some(c) => {
            if is_prefix("http."@, c) {
                if c == "declare"@ { assert(c[0] == 'd'); }
                if c == "reflect.mock"@ { assert(c[0] == 'r'); }
            }
        },
        None => {},
    }
}

/// The lower-case HTTP name of a method.
pub open spec fn verb_of(m: HttpMethod) -> Seq<char> {
    match m {
        HttpMethod::Get => "get"@,
        HttpMethod::Post => "post"@,
        HttpMethod::Put => "put"@,
        HttpMethod::Patch => "patch"@,
        HttpMethod::Delete => "delete"@,
    }
}

/// The method of an `http.<verb>` call is the method whose name is the
/// verb, for every method; and a call names a method only in that form.
pub proof fn law_http_call_names_its_method(m: HttpMethod, call: Seq<char>)
    ensures
        spec_method("http."@ + verb_of(m)) == Some(m),
        spec_method(call) matches Some(k) ==> call == "http."@ + verb_of(k),
{
    reveal_strlit("http.");
    reveal_strlit("get");
    reveal_strlit("post");
    reveal_strlit("put");
    reveal_strlit("patch");
    reveal_strlit("delete");
    reveal_strlit("http.get");
    reveal_strlit("http.post");
    reveal_strlit("http.put");
    reveal_strlit("http.patch");
    reveal_strlit("http.delete");
    assert("http."@ + "get"@ =~= "http.get"@);
    assert("http."@ + "post"@ =~= "http.post"@);
    assert("http."@ + "put"@ =~= "http.put"@);
    assert("http."@ + "patch"@ =~= "http.patch"@);
    assert("http."@ + "delete"@ =~= "http.delete"@);
    let g = "http.get"@;
    let po = "http.post"@;
    let pu = "http.put"@;
    let pa = "http.patch"@;
    let d = "http.delete"@;
    assert(g[5] == 'g' && po[5] == 'p' && pu[5] == 'p' && pa[5] == 'p' && d[5] == 'd');
    assert(po[6] == 'o' && pu[6] == 'u' && pa[6] == 'a');
    assert(g != po && g != pu && g != pa && g != d);
    assert(po != pu && po != pa && po != d);
    assert(pu != pa && pu != d);
    assert(pa != d);
}

/// CSRF only refuses when allowed origins are configured: with an empty
/// `csrf.allowed_origins` no request is refused for its origin, and a
/// CSRF refusal always means the method is enforced and neither Origin
/// nor Referer is allowed.
pub proof fn law_csrf_needs_allowed_origins(
    incoming: IncomingRequestsConfig,
    csrf: CsrfConfig,
    occ: OptimisticConcurrencyConfig,
    method: Seq<char>,
    origin: Option<Seq<char>>,
    referer: Option<Seq<char>>,
    has_if_match: bool,
)
    ensures
        csrf.allowed_origins@.len() == 0 ==> spec_gate(incoming, csrf, occ, method, origin, referer, has_if_match) != GateVerdict::CsrfOriginNotAllowed,
        spec_gate(incoming, csrf, occ, method, origin, referer, has_if_match) == GateVerdict::CsrfOriginNotAllowed ==>
            csrf.allowed_origins@.len() > 0 && listed(csrf.enforce_on_methods@, method)
            && !spec_origin_allowed(origin, referer, csrf.allowed_origins@),
        csrf.allowed_origins@.len() == 0 && listed(incoming.allowed_method_types@, method) && !occ.require_if_match
            ==> spec_gate(incoming, csrf, occ, method, origin, referer, has_if_match) == GateVerdict::Pass,
{
}

/// A DSL that answers 200 gets the configured status for its case: the
/// "with value" status when it emitted a value, the "without value"
/// status when it did not (each when set and a valid status code);
/// any other status the DSL chose is kept when valid; the answer is
/// always a status between 100 and 999.
pub proof fn law_final_status_by_value(cfg: ResponseConfig, status: u16, has_value: bool)
    ensures
        status == 200 && has_value && (cfg.dsl_with_response_status matches Some(x) && 100 <= x <= 999)
            ==> spec_final_status(cfg, status, has_value) == cfg.dsl_with_response_status.unwrap(),
        status == 200 && !has_value && (cfg.dsl_without_response_status matches Some(x) && 100 <= x <= 999)
            ==> spec_final_status(cfg, status, has_value) == cfg.dsl_without_response_status.unwrap(),
        status == 200 && has_value && cfg.dsl_with_response_status is None ==> spec_final_status(cfg, status, has_value) == 200,
        status == 200 && !has_value && cfg.dsl_without_response_status is None ==> spec_final_status(cfg, status, has_value) == 200,
        status != 200 && 100 <= status <= 999 ==> spec_final_status(cfg, status, has_value) == status,
        100 <= spec_final_status(cfg, status, has_value) <= 999,
{
}

/// A candidate that is present shows up among those present.
proof fn lemma_present_in_one(keys: Seq<Option<String>>, cands: Seq<Seq<char>>, i: int)
    requires
        0 <= i < cands.len(),
        key_present(keys, cands[i]),
    ensures
        present_in(keys, cands).len() >= 1,
    decreases cands.len(),
{
    if i < cands.len() - 1 {
        lemma_present_in_one(keys, cands.drop_last(), i);
    }
}

/// Two present candidates make at least two present.
proof fn lemma_present_in_two(keys: Seq<Option<String>>, cands: Seq<Seq<char>>, i: int, j: int)
    requires
        0 <= i < j < cands.len(),
        key_present(keys, cands[i]),
        key_present(keys, cands[j]),
    ensures
        present_in(keys, cands).len() >= 2,
    decreases cands.len(),
{
    if j == cands.len() - 1 {
        lemma_present_in_one(keys, cands.drop_last(), i);
    } else {
        lemma_present_in_two(keys, cands.drop_last(), i, j);
    }
}

/// Without `call:`, a step's single action key names its kind:
/// `template:` a template step, `assign:` an assignment, `return:` a
/// return, and so on for `switch:`, `log:`, `state:`, `iterate:`,
/// `ws_send:`, `ws_tag:` and `single_flight:`.
pub proof fn law_action_key_names_step_kind(keys: Seq<Option<String>>)
    requires
        present_in(keys, action_keys()).len() <= 1,
    ensures
        key_present(keys, "template"@) ==> spec_classify(keys, None) == Ok::<StepKind, Seq<Seq<char>>>(StepKind::Template),
        key_present(keys, "assign"@) ==> spec_classify(keys, None) == Ok::<StepKind, Seq<Seq<char>>>(StepKind::Assign),
        key_present(keys, "return"@) ==> spec_classify(keys, None) == Ok::<StepKind, Seq<Seq<char>>>(StepKind::Return),
        key_present(keys, "switch"@) ==> spec_classify(keys, None) == Ok::<StepKind, Seq<Seq<char>>>(StepKind::Switch),
        key_present(keys, "log"@) ==> spec_classify(keys, None) == Ok::<StepKind, Seq<Seq<char>>>(StepKind::Log),
        key_present(keys, "state"@) ==> spec_classify(keys, None) == Ok::<StepKind, Seq<Seq<char>>>(StepKind::State),
        key_present(keys, "iterate"@) ==> spec_classify(keys, None) == Ok::<StepKind, Seq<Seq<char>>>(StepKind::Iterate),
        key_present(keys, "ws_send"@) ==> spec_classify(keys, None) == Ok::<StepKind, Seq<Seq<char>>>(StepKind::WsSend),
        key_present(keys, "ws_tag"@) ==> spec_classify(keys, None) == Ok::<StepKind, Seq<Seq<char>>>(StepKind::WsTag),
        key_present(keys, "single_flight"@) ==> spec_classify(keys, None) == Ok::<StepKind, Seq<Seq<char>>>(StepKind::SingleFlight),
{
    let a = action_keys();
    assert forall|i: int, j: int| 1 <= i < j < 11 && key_present(keys, #[trigger] a[i]) implies !key_present(keys, #[trigger] a[j]) by {
        if key_present(keys, a[j]) {
            lemma_present_in_two(keys, a, i, j);
        }
    }
    assert(a[1] == "template"@ && a[2] == "assign"@ && a[3] == "return"@ && a[4] == "switch"@ && a[5] == "log"@);
    assert(a[6] == "state"@ && a[7] == "iterate"@ && a[8] == "ws_send"@ && a[9] == "ws_tag"@ && a[10] == "single_flight"@);
}

/// Refusals of the request gate: a method not in `allowed_method_types`
/// is refused with `MethodNotAllowed`, and only such a method;
/// `IfMatchRequired` comes only for an enforced method without If-Match;
/// an allowed method that no check enforces, or one with an accepted
/// origin and If-Match present, passes.
pub proof fn law_gate_reasons(
    incoming: IncomingRequestsConfig,
    csrf: CsrfConfig,
    occ: OptimisticConcurrencyConfig,
    method: Seq<char>,
    origin: Option<Seq<char>>,
    referer: Option<Seq<char>>,
    has_if_match: bool,
)
    ensures
        !listed(incoming.allowed_method_types@, method) ==> spec_gate(incoming, csrf, occ, method, origin, referer, has_if_match) == GateVerdict::MethodNotAllowed,
        spec_gate(incoming, csrf, occ, method, origin, referer, has_if_match) == GateVerdict::MethodNotAllowed ==> !listed(incoming.allowed_method_types@, method),
        spec_gate(incoming, csrf, occ, method, origin, referer, has_if_match) == GateVerdict::IfMatchRequired ==>
            occ.require_if_match && listed(occ.enforce_on_methods@, method) && !has_if_match,
        has_if_match && listed(incoming.allowed_method_types@, method) && spec_origin_allowed(origin, referer, csrf.allowed_origins@)
            ==> spec_gate(incoming, csrf, occ, method, origin, referer, has_if_match) == GateVerdict::Pass,
        listed(incoming.allowed_method_types@, method) && !listed(csrf.enforce_on_methods@, method) && !listed(occ.enforce_on_methods@, method)
            ==> spec_gate(incoming, csrf, occ, method, origin, referer, has_if_match) == GateVerdict::Pass,
{
}

} // verus!
