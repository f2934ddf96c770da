//! Outbound event sources: a WebSocket that Ruuter dials, whose JSON
//! frames are routed to trigger DSLs by `(channel, key)`.
//!
//! The configuration (`WS/outbound/<name>.yml`) names the URL, upgrade
//! headers, frames to send after each connect, the dot-paths that pick
//! channel and key out of each message, and the reconnect policy.
use vstd::prelude::*;
use crate::text::{chars_of, string_of, extend_chars, starts_with, slice_vec, chars_eq};
use crate::json::{JsonValue, json_text, to_json_string, json_str_parse_result, parse_json_str};
use crate::outbound::{value_text, value_string, pair_value, lookup_pair};
use crate::interpolate::{refs_from, ref_key, spec_substitute, iter_refs, substitute};
use crate::steps::first_key;
use crate::ws::{unique_keys, tag_get, tag_set};
use vstd::utf8::{valid_utf8, decode_utf8};

verus! {

/// The pieces of `s` between occurrences of `sep`, empty ones kept
/// (`s.split(sep)`): always at least one piece.
pub open spec fn split_all(s: Seq<char>, sep: char) -> Seq<Seq<char>>
    decreases s.len(),
{
    if s.len() == 0 {
        seq![Seq::empty()]
    } else {
        let p = split_all(s.drop_last(), sep);
        if s.last() == sep {
            p.push(Seq::empty())
        } else {
            p.update(p.len() - 1, p.last().push(s.last()))
        }
    }
}

proof fn lemma_split_all_nonempty(s: Seq<char>, sep: char)
    ensures
        split_all(s, sep).len() >= 1,
    decreases s.len(),
{
    if s.len() > 0 {
        lemma_split_all_nonempty(s.drop_last(), sep);
    }
}

/// `s.split(sep)`.
pub fn split_on(s: &[char], sep: char) -> (r: Vec<Vec<char>>)
    ensures
        r@.map_values(|v: Vec<char>| v@) == split_all(s@, sep),
{
    let mut out: Vec<Vec<char>> = Vec::new();
    let mut cur: Vec<char> = Vec::new();
    let mut i: usize = 0;
    while i < s.len()
        invariant
            i <= s@.len(),
            split_all(s@.subrange(0, i as int), sep) == out@.map_values(|v: Vec<char>| v@).push(cur@),
        decreases s@.len() - i,
    {
        proof {
            assert(s@.subrange(0, i + 1).drop_last() == s@.subrange(0, i as int));
            assert(s@.subrange(0, i + 1).last() == s@[i as int]);
        }
        let c = s[i];
        if c == sep {
            let done = cur;
            out.push(done);
            cur = Vec::new();
            proof {
                assert(out@.map_values(|v: Vec<char>| v@) =~= split_all(s@.subrange(0, i as int), sep));
                assert(split_all(s@.subrange(0, i + 1), sep) =~= out@.map_values(|v: Vec<char>| v@).push(cur@));
            }
        } else {
            let ghost pre = split_all(s@.subrange(0, i as int), sep);
            cur.push(c);
            proof {
                assert(pre.last() == cur@.drop_last());
                assert(split_all(s@.subrange(0, i + 1), sep) =~= out@.map_values(|v: Vec<char>| v@).push(cur@));
            }
        }
        i = i + 1;
    }
    proof { assert(s@.subrange(0, s@.len() as int) == s@); }
    out.push(cur);
    proof { assert(out@.map_values(|v: Vec<char>| v@) =~= split_all(s@, sep)); }
    out
}

/// The value reached from `v` by taking, for each segment in turn, the
/// object member of that name.
pub open spec fn walk_path(v: JsonValue, segs: Seq<Seq<char>>) -> Option<JsonValue>
    decreases segs.len(),
{
    if segs.len() == 0 {
        Some(v)
    } else {
        match v {
            JsonValue::Object(ms) => match first_key(ms@, segs[0]) {
                Some(i) => walk_path(ms@[i].1, segs.skip(1)),
                None => None,
            },
            _ => None,
        }
    }
}

/// What a dot-path expression selects: `$.a.b` reads member `a`, then
/// its member `b`, as text (a string as it is, anything else as its
/// JSON). An expression without the `$.` prefix selects nothing.
pub open spec fn spec_extract_path(payload: JsonValue, expr: Seq<char>) -> Option<Seq<char>> {
    if expr.len() >= 2 && expr[0] == '$' && expr[1] == '.' {
        match walk_path(payload, split_all(expr.skip(2), '.')) {
            Some(v) => Some(value_text(v)),
            None => None,
        }
    } else {
        None
    }
}

/// Index of the first member named `k`.
pub(crate) fn member_index(ms: &Vec<(String, JsonValue)>, k: &[char]) -> (r: Option<usize>)
    ensures
        match r {
            Some(i) => first_key(ms@, k@) == Some(i as int) && i < ms@.len(),
            None => first_key(ms@, k@) is None,
        },
{
    let mut i: usize = 0;
    while i < ms.len()
        invariant
            i <= ms@.len(),
            forall|j: int| 0 <= j < i ==> (#[trigger] ms@[j]).0@ != k@,
        decreases ms@.len() - i,
    {
        let c = chars_of(ms[i].0.as_str());
        if chars_eq(c.as_slice(), k) {
            proof {
                let w = choose|w: int| 0 <= w < ms@.len() && (#[trigger] ms@[w]).0@ == k@
                    && forall|j: int| 0 <= j < w ==> (#[trigger] ms@[j]).0@ != k@;
                assert(w == i as int) by {
                    if w < i { } else if w > i { assert(ms@[i as int].0@ == k@); }
                }
            }
            return Some(i);
        }
        i = i + 1;
    }
    None
}

/// Select a value from `payload` with a dot-path like `$.field.sub`.
pub fn extract_path(payload: &JsonValue, expr: &str) -> (r: Option<String>)
    ensures
        opt_text(r) == spec_extract_path(*payload, expr@),
{
    let e = chars_of(expr);
    if e.len() < 2 || e[0] != '$' || e[1] != '.' {
        return None;
    }
    let rest = slice_vec(e.as_slice(), 2, e.len());
    proof { assert(rest@ =~= expr@.skip(2)); }
    let segs = split_on(rest.as_slice(), '.');
    let ghost all = segs@.map_values(|v: Vec<char>| v@);
    let mut cur: &JsonValue = payload;
    let mut i: usize = 0;
    proof { assert(all.skip(0) =~= all); }
    while i < segs.len()
        invariant
            i <= segs@.len(),
            all == segs@.map_values(|v: Vec<char>| v@),
            all == split_all(expr@.skip(2), '.'),
            walk_path(*payload, all) == walk_path(*cur, all.skip(i as int)),
        decreases segs@.len() - i,
    {
        proof {
            assert(all.skip(i as int)[0] == segs@[i as int]@);
            assert(all.skip(i as int).skip(1) =~= all.skip(i + 1));
        }
        match cur {
            JsonValue::Object(ms) => {
                match member_index(ms, segs[i].as_slice()) {
                    Some(j) => {
                        cur = &ms[j].1;
                    },
                    None => {
                        return None;
                    },
                }
            },
            _ => {
                return None;
            },
        }
        i = i + 1;
    }
    proof { assert(all.skip(i as int) =~= Seq::<Seq<char>>::empty()); }
    Some(value_string(cur))
}

pub open spec fn opt_text(o: Option<String>) -> Option<Seq<char>> {
    match o {
        Some(s) => Some(s@),
        None => None,
    }
}

/// The first reference of `g` (taken in order) whose name `constants`
/// lacks.
pub open spec fn missing_in(s: Seq<char>, g: Seq<(int, int)>, constants: Seq<(String, String)>) -> Option<Seq<char>>
    decreases g.len(),
{
    if g.len() == 0 {
        None
    } else if pair_value(constants, ref_key(s, g[0])) is None {
        Some(ref_key(s, g[0]))
    } else {
        missing_in(s, g.skip(1), constants)
    }
}

/// The first constant that `s` references and `constants` lacks.
pub open spec fn missing_key(s: Seq<char>, constants: Seq<(String, String)>) -> Option<Seq<char>> {
    missing_in(s, refs_from(s, 0), constants)
}

pub open spec fn undefined_message(k: Seq<char>) -> Seq<char> {
    "undefined constant [#"@ + k + "]"@
}

fn undefined_constant(k: &[char]) -> (r: String)
    ensures
        r@ == undefined_message(k@),
{
    let mut m = chars_of("undefined constant [#");
    extend_chars(&mut m, k);
    extend_chars(&mut m, chars_of("]").as_slice());
    proof { assert(m@ =~= undefined_message(k@)); }
    string_of(m.as_slice())
}

/// Strict constant substitution: every reference must name a known
/// constant (a mistyped name must not reach the wire as literal text).
#[verifier::rlimit(40)]
pub fn substitute_strict(s: &str, constants: &Vec<(String, String)>) -> (r: Result<String, String>)
    ensures
        match missing_key(s@, constants@) {
            None => r matches Ok(t) && t@ == spec_substitute(s@, constants@),
            Some(k) => r matches Err(e) && e@ == undefined_message(k),
        },
{
    let refs = iter_refs(s);
    let ghost g = refs_from(s@, 0);
    let mut i: usize = 0;
    proof { assert(g.skip(0) =~= g); }
    while i < refs.len()
        invariant
            i <= refs@.len(),
            refs@.len() == g.len(),
            g == refs_from(s@, 0),
            forall|k: int| 0 <= k < refs@.len() ==> (#[trigger] refs@[k]).key@ == ref_key(s@, g[k]),
            missing_key(s@, constants@) == missing_in(s@, g.skip(i as int), constants@),
        decreases refs@.len() - i,
    {
        proof {
            assert(g.skip(i as int)[0] == g[i as int]);
            assert(g.skip(i as int).skip(1) =~= g.skip(i + 1));
        }
        let kc = chars_of(refs[i].key.as_str());
        match lookup_pair(constants, kc.as_slice()) {
            None => {
                return Err(undefined_constant(kc.as_slice()));
            },
            Some(_) => {},
        }
        i = i + 1;
    }
    proof { assert(g.skip(i as int) =~= Seq::<(int, int)>::empty()); }
    Ok(substitute(s, constants))
}

/// The first constant missing from `v`'s strings, in document order.
pub open spec fn value_missing(v: JsonValue, constants: Seq<(String, String)>) -> Option<Seq<char>>
    decreases v, 1int,
{
    match v {
        JsonValue::String(s) => missing_key(s@, constants),
        JsonValue::Array(items) => items_missing(items@, constants),
        JsonValue::Object(ms) => members_missing(ms@, constants),
        _ => None,
    }
}

pub open spec fn items_missing(items: Seq<JsonValue>, constants: Seq<(String, String)>) -> Option<Seq<char>>
    decreases items, 0int,
{
    if items.len() == 0 {
        None
    } else {
        match items_missing(items.drop_last(), constants) {
            Some(k) => Some(k),
            None => value_missing(items.last(), constants),
        }
    }
}

pub open spec fn members_missing(ms: Seq<(String, JsonValue)>, constants: Seq<(String, String)>) -> Option<Seq<char>>
    decreases ms, 0int,
{
    if ms.len() == 0 {
        None
    } else {
        match members_missing(ms.drop_last(), constants) {
            Some(k) => Some(k),
            None => value_missing(ms.last().1, constants),
        }
    }
}

/// `w` is `v` with every string substituted (object keys as they are).
pub open spec fn value_substituted(v: JsonValue, w: JsonValue, constants: Seq<(String, String)>) -> bool
    decreases v, 1int,
{
    match v {
        JsonValue::Null => w is Null,
        JsonValue::Bool(b) => w == JsonValue::Bool(b),
        JsonValue::Number(n) => w matches JsonValue::Number(m) && m.repr@ == n.repr@,
        JsonValue::String(s) => w matches JsonValue::String(t) && t@ == spec_substitute(s@, constants),
        JsonValue::Array(items) => w matches JsonValue::Array(out) && items_substituted(items@, out@, constants),
        JsonValue::Object(ms) => w matches JsonValue::Object(out) && members_substituted(ms@, out@, constants),
    }
}

pub open spec fn items_substituted(items: Seq<JsonValue>, out: Seq<JsonValue>, constants: Seq<(String, String)>) -> bool
    decreases items, 0int,
{
    if items.len() == 0 {
        out.len() == 0
    } else {
        out.len() == items.len()
            && items_substituted(items.drop_last(), out.drop_last(), constants)
            && value_substituted(items.last(), out.last(), constants)
    }
}

pub open spec fn members_substituted(ms: Seq<(String, JsonValue)>, out: Seq<(String, JsonValue)>, constants: Seq<(String, String)>) -> bool
    decreases ms, 0int,
{
    if ms.len() == 0 {
        out.len() == 0
    } else {
        out.len() == ms.len()
            && members_substituted(ms.drop_last(), out.drop_last(), constants)
            && out.last().0@ == ms.last().0@
            && value_substituted(ms.last().1, out.last().1, constants)
    }
}

/// Substitute constants strictly in every string of `v`.
pub fn substitute_value(v: JsonValue, constants: &Vec<(String, String)>) -> (r: Result<JsonValue, String>)
    ensures
        match value_missing(v, constants@) {
            None => r matches Ok(w) && value_substituted(v, w, constants@),
            Some(k) => r matches Err(e) && e@ == undefined_message(k),
        },
    decreases v,
{
    let ghost v0 = v;
    match v {
        JsonValue::String(s) => match substitute_strict(s.as_str(), constants) {
            Ok(t) => Ok(JsonValue::String(t)),
            Err(e) => Err(e),
        },
        JsonValue::Array(items) => {
            let ghost all = items@;
            let mut rest = items;
            let mut out: Vec<JsonValue> = Vec::new();
            let ghost mut done: int = 0;
            while rest.len() > 0
                invariant
                    v0 == v,
                    v0 is Array,
                    v0->Array_0@ == all,
                    0 <= done <= all.len(),
                    rest@ == all.skip(done),
                    out@.len() == done,
                    items_missing(all.take(done), constants@) is None,
                    items_substituted(all.take(done), out@, constants@),
                decreases rest@.len(),
            {
                proof {
                    assert(all.skip(done)[0] == all[done]);
                    assert(decreases_to!(v0 => v0->Array_0));
                    assert(decreases_to!(v0->Array_0 => v0->Array_0[done]));
                }
                let x = rest.remove(0);
                let ghost xv = x;
                let ghost out0 = out@;
                let ghost t1 = all.take(done + 1);
                proof {
                    assert(xv == v0->Array_0[done]);
                    assert(decreases_to!(v0 => xv));
                    assert(t1.drop_last() =~= all.take(done));
                    assert(t1.last() == xv);
                    assert(items_missing(t1, constants@) == value_missing(xv, constants@));
                }
                match substitute_value(x, constants) {
                    Ok(w) => {
                        out.push(w);
                        proof {
                            assert(out@.drop_last() =~= out0);
                            done = done + 1;
                            assert(rest@ =~= all.skip(done));
                        }
                    },
                    Err(e) => {
                        proof {
                            lemma_items_missing_prefix(all, done + 1, constants@);
                            assert(value_missing(v0, constants@) == items_missing(all, constants@));
                        }
                        return Err(e);
                    },
                }
            }
            proof { assert(all.take(done) =~= all); }
            Ok(JsonValue::Array(out))
        },
        JsonValue::Object(ms) => {
            let ghost all = ms@;
            let mut rest = ms;
            let mut out: Vec<(String, JsonValue)> = Vec::new();
            let ghost mut done: int = 0;
            while rest.len() > 0
                invariant
                    v0 == v,
                    v0 is Object,
                    v0->Object_0@ == all,
                    0 <= done <= all.len(),
                    rest@ == all.skip(done),
                    out@.len() == done,
                    members_missing(all.take(done), constants@) is None,
                    members_substituted(all.take(done), out@, constants@),
                decreases rest@.len(),
            {
                proof {
                    assert(all.skip(done)[0] == all[done]);
                    assert(decreases_to!(v0 => v0->Object_0));
                    assert(decreases_to!(v0->Object_0 => v0->Object_0[done]));
                    assert(decreases_to!(v0->Object_0[done] => v0->Object_0[done].1));
                }
                let (k, x) = rest.remove(0);
                let ghost xv = x;
                let ghost out0 = out@;
                let ghost t1 = all.take(done + 1);
                proof {
                    assert(xv == v0->Object_0[done].1);
                    assert(decreases_to!(v0 => xv));
                    assert(t1.drop_last() =~= all.take(done));
                    assert(t1.last() == all[done]);
                    assert(members_missing(t1, constants@) == value_missing(xv, constants@));
                }
                match substitute_value(x, constants) {
                    Ok(w) => {
                        out.push((k, w));
                        proof {
                            assert(out@.drop_last() =~= out0);
                            done = done + 1;
                            assert(rest@ =~= all.skip(done));
                        }
                    },
                    Err(e) => {
                        proof {
                            lemma_members_missing_prefix(all, done + 1, constants@);
                            assert(value_missing(v0, constants@) == members_missing(all, constants@));
                        }
                        return Err(e);
                    },
                }
            }
            proof { assert(all.take(done) =~= all); }
            Ok(JsonValue::Object(out))
        },
        JsonValue::Null => Ok(JsonValue::Null),
        JsonValue::Bool(b) => Ok(JsonValue::Bool(b)),
        JsonValue::Number(n) => Ok(JsonValue::Number(n)),
    }
}

/// A missing constant in a prefix is the first missing one overall.
proof fn lemma_items_missing_prefix(all: Seq<JsonValue>, n: int, constants: Seq<(String, String)>)
    requires
        0 <= n <= all.len(),
        items_missing(all.take(n), constants) is Some,
    ensures
        items_missing(all, constants) == items_missing(all.take(n), constants),
    decreases all.len() - n,
{
    if n < all.len() {
        let t = all.take(n + 1);
        assert(t.drop_last() =~= all.take(n));
        lemma_items_missing_prefix(all, n + 1, constants);
    } else {
        assert(all.take(n) =~= all);
    }
}

proof fn lemma_members_missing_prefix(all: Seq<(String, JsonValue)>, n: int, constants: Seq<(String, String)>)
    requires
        0 <= n <= all.len(),
        members_missing(all.take(n), constants) is Some,
    ensures
        members_missing(all, constants) == members_missing(all.take(n), constants),
    decreases all.len() - n,
{
    if n < all.len() {
        let t = all.take(n + 1);
        assert(t.drop_last() =~= all.take(n));
        lemma_members_missing_prefix(all, n + 1, constants);
    } else {
        assert(all.take(n) =~= all);
    }
}

/// How `(channel, key)` are read from each inbound message: dot-paths
/// such as `$.T`.
#[derive(Debug, Clone)]
pub struct DispatchConfig {
    pub channel: String,
    pub key: String,
}

/// Reconnect backoff: starts at `initial_backoff_ms`, doubles after
/// each attempt up to `max_backoff_ms`; with `jitter` each sleep is
/// scaled by a random factor in `[0.5, 1.5)`.
#[derive(Debug, Clone, Copy)]
pub struct ReconnectPolicy {
    pub initial_backoff_ms: u64,
    pub max_backoff_ms: u64,
    pub jitter: bool,
}

impl ReconnectPolicy {
    /// 500 ms initial, 60 s cap, jitter on.
    pub fn default() -> (r: Self)
        ensures
            r.initial_backoff_ms == 500,
            r.max_backoff_ms == 60_000,
            r.jitter,
    {
        ReconnectPolicy { initial_backoff_ms: 500, max_backoff_ms: 60_000, jitter: true }
    }

    /// After a connection ends: the backoff to sleep (reset to the
    /// initial value after a clean close) and the one to use next
    /// time (doubled, capped at the maximum).
    pub fn after_disconnect(&self, backoff_ms: u64, clean_close: bool) -> (r: (u64, u64))
        requires
            backoff_ms <= u64::MAX / 2,
            self.initial_backoff_ms <= u64::MAX / 2,
        ensures
            r.0 == (if clean_close { self.initial_backoff_ms } else { backoff_ms }),
            r.1 == (if 2 * r.0 <= self.max_backoff_ms { 2 * r.0 } else { self.max_backoff_ms as int }),
    {
        let sleep = if clean_close { self.initial_backoff_ms } else { backoff_ms };
        let doubled = sleep * 2;
        let next = if doubled <= self.max_backoff_ms { doubled } else { self.max_backoff_ms };
        (sleep, next)
    }
}

/// A WebSocket source as configured: the URL, the upgrade headers,
/// the JSON frames sent after every (re)connect, the dispatch paths
/// and the reconnect policy.
#[derive(Debug)]
pub struct WsSourceConfig {
    pub url: String,
    pub headers: Vec<(String, String)>,
    pub on_connect: Vec<JsonValue>,
    pub dispatch: DispatchConfig,
    pub reconnect: ReconnectPolicy,
}

/// The first constant that the headers (each name, then its value)
/// reference and `constants` lacks.
pub open spec fn headers_missing(hs: Seq<(String, String)>, constants: Seq<(String, String)>) -> Option<Seq<char>>
    decreases hs.len(),
{
    if hs.len() == 0 {
        None
    } else {
        match headers_missing(hs.drop_last(), constants) {
            Some(k) => Some(k),
            None => match missing_key(hs.last().0@, constants) {
                Some(k) => Some(k),
                None => missing_key(hs.last().1@, constants),
            },
        }
    }
}

/// The value of header `q` once names and values are substituted: the
/// last header whose substituted name is `q` wins.
pub open spec fn header_after(hs: Seq<(String, String)>, constants: Seq<(String, String)>, q: Seq<char>) -> Option<Seq<char>>
    decreases hs.len(),
{
    if hs.len() == 0 {
        None
    } else if spec_substitute(hs.last().0@, constants) == q {
        Some(spec_substitute(hs.last().1@, constants))
    } else {
        header_after(hs.drop_last(), constants, q)
    }
}

/// The first constant that the configuration references and
/// `constants` lacks: in the URL, the channel path, the key path, the
/// headers, then the connect frames.
pub open spec fn config_missing(cfg: WsSourceConfig, constants: Seq<(String, String)>) -> Option<Seq<char>> {
    if missing_key(cfg.url@, constants) is Some {
        missing_key(cfg.url@, constants)
    } else if missing_key(cfg.dispatch.channel@, constants) is Some {
        missing_key(cfg.dispatch.channel@, constants)
    } else if missing_key(cfg.dispatch.key@, constants) is Some {
        missing_key(cfg.dispatch.key@, constants)
    } else if headers_missing(cfg.headers@, constants) is Some {
        headers_missing(cfg.headers@, constants)
    } else {
        items_missing(cfg.on_connect@, constants)
    }
}

/// `out` is `cfg` with every constant reference substituted.
pub open spec fn config_resolved(cfg: WsSourceConfig, out: WsSourceConfig, constants: Seq<(String, String)>) -> bool {
    &&& out.url@ == spec_substitute(cfg.url@, constants)
    &&& out.dispatch.channel@ == spec_substitute(cfg.dispatch.channel@, constants)
    &&& out.dispatch.key@ == spec_substitute(cfg.dispatch.key@, constants)
    &&& unique_keys(out.headers@)
    &&& forall|q: Seq<char>| tag_get(out.headers@, q) == header_after(cfg.headers@, constants, q)
    &&& items_substituted(cfg.on_connect@, out.on_connect@, constants)
    &&& out.reconnect == cfg.reconnect
}

/// Substitute `[#NAME]` / `#{NAME}` references in every string of the
/// configuration; a reference to an unknown constant is an error.
pub fn resolve_constants(cfg: WsSourceConfig, constants: &Vec<(String, String)>) -> (r: Result<WsSourceConfig, String>)
    ensures
        match config_missing(cfg, constants@) {
            Some(k) => r matches Err(e) && e@ == undefined_message(k),
            None => r matches Ok(out) && config_resolved(cfg, out, constants@),
        },
{
    let ghost c0 = cfg;
    let WsSourceConfig { url, headers, on_connect, dispatch, reconnect } = cfg;
    let url = match substitute_strict(url.as_str(), constants) {
        Ok(u) => u,
        Err(e) => return Err(e),
    };
    let channel = match substitute_strict(dispatch.channel.as_str(), constants) {
        Ok(u) => u,
        Err(e) => return Err(e),
    };
    let key = match substitute_strict(dispatch.key.as_str(), constants) {
        Ok(u) => u,
        Err(e) => return Err(e),
    };
    let headers = match resolve_headers(&headers, constants) {
        Ok(h) => h,
        Err(e) => return Err(e),
    };
    let frames = match substitute_value(JsonValue::Array(on_connect), constants) {
        Ok(JsonValue::Array(items)) => items,
        Ok(_) => {
            proof { assert(false); }
            Vec::new()
        },
        Err(e) => return Err(e),
    };
    Ok(WsSourceConfig { url, headers, on_connect: frames, dispatch: DispatchConfig { channel, key }, reconnect })
}

fn resolve_headers(hs: &Vec<(String, String)>, constants: &Vec<(String, String)>) -> (r: Result<Vec<(String, String)>, String>)
    ensures
        match headers_missing(hs@, constants@) {
            Some(k) => r matches Err(e) && e@ == undefined_message(k),
            None => r matches Ok(out) && unique_keys(out@)
                && forall|q: Seq<char>| tag_get(out@, q) == header_after(hs@, constants@, q),
        },
{
    let mut out: Vec<(String, String)> = Vec::new();
    let mut i: usize = 0;
    while i < hs.len()
        invariant
            i <= hs@.len(),
            unique_keys(out@),
            headers_missing(hs@.take(i as int), constants@) is None,
            forall|q: Seq<char>| tag_get(out@, q) == header_after(hs@.take(i as int), constants@, q),
        decreases hs@.len() - i,
    {
        let ghost t1 = hs@.take(i + 1);
        proof {
            assert(t1.drop_last() =~= hs@.take(i as int));
            assert(t1.last() == hs@[i as int]);
        }
        let k = match substitute_strict(hs[i].0.as_str(), constants) {
            Ok(k) => k,
            Err(e) => {
                proof { lemma_headers_missing_prefix(hs@, i + 1, constants@); }
                return Err(e);
            },
        };
        let v = match substitute_strict(hs[i].1.as_str(), constants) {
            Ok(v) => v,
            Err(e) => {
                proof { lemma_headers_missing_prefix(hs@, i + 1, constants@); }
                return Err(e);
            },
        };
        tag_set(&mut out, k, v);
        i = i + 1;
    }
    proof { assert(hs@.take(i as int) =~= hs@); }
    Ok(out)
}

proof fn lemma_headers_missing_prefix(all: Seq<(String, String)>, n: int, constants: Seq<(String, String)>)
    requires
        0 <= n <= all.len(),
        headers_missing(all.take(n), constants) is Some,
    ensures
        headers_missing(all, constants) == headers_missing(all.take(n), constants),
    decreases all.len() - n,
{
    if n < all.len() {
        let t = all.take(n + 1);
        assert(t.drop_last() =~= all.take(n));
        lemma_headers_missing_prefix(all, n + 1, constants);
    } else {
        assert(all.take(n) =~= all);
    }
}

/// A frame read from the source's socket.
#[derive(Debug)]
pub enum SourceFrame {
    Text(String),
    Binary(Vec<u8>),
    Ping(Vec<u8>),
    Pong(Vec<u8>),
    Close,
    /// A raw frame below the message level.
    Other,
}

/// What the read loop does with a frame.
#[derive(Debug)]
pub enum FrameAction {
    /// Parse the text as JSON and dispatch its messages.
    Dispatch(String),
    /// Answer with a pong carrying this payload.
    SendPong(Vec<u8>),
    /// The peer closed: end this connection cleanly.
    Stop,
    Ignore,
}

/// `std::str::from_utf8`: the text that the bytes encode, when they are
/// valid UTF-8.
#[verifier::external_body]
fn decode_utf8_text(bytes: &[u8]) -> (r: Option<String>)
    ensures
        r is Some <==> valid_utf8(bytes@),
        r matches Some(s) ==> s@ == decode_utf8(bytes@),
{
    match std::str::from_utf8(bytes) {
        Ok(s) => Some(s.to_string()),
        Err(_) => None,
    }
}

/// The read loop's decision for one frame: text (and binary frames
/// that are valid UTF-8) is dispatched, a ping is answered, a close
/// ends the connection, anything else is ignored.
pub fn frame_action(frame: SourceFrame) -> (r: FrameAction)
    ensures
        match frame {
            SourceFrame::Text(t) => r matches FrameAction::Dispatch(d) && d@ == t@,
            SourceFrame::Binary(b) => if valid_utf8(b@) {
                r matches FrameAction::Dispatch(d) && d@ == decode_utf8(b@)
            } else {
                r is Ignore
            },
            SourceFrame::Ping(p) => r matches FrameAction::SendPong(q) && q@ == p@,
            SourceFrame::Close => r is Stop,
            SourceFrame::Pong(_) => r is Ignore,
            SourceFrame::Other => r is Ignore,
        },
{
    match frame {
        SourceFrame::Text(t) => FrameAction::Dispatch(t),
        SourceFrame::Binary(b) => match decode_utf8_text(b.as_slice()) {
            Some(t) => FrameAction::Dispatch(t),
            None => FrameAction::Ignore,
        },
        SourceFrame::Ping(p) => FrameAction::SendPong(p),
        SourceFrame::Close => FrameAction::Stop,
        SourceFrame::Pong(_) => FrameAction::Ignore,
        SourceFrame::Other => FrameAction::Ignore,
    }
}

/// The texts sent after each connect: each configured frame as compact
/// JSON, in order.
pub fn connect_frames(cfg: &WsSourceConfig) -> (r: Vec<String>)
    ensures
        r@.len() == cfg.on_connect@.len(),
        forall|i: int| 0 <= i < r@.len() ==> (#[trigger] r@[i])@ == json_text(cfg.on_connect@[i]),
{
    let mut out: Vec<String> = Vec::new();
    let mut i: usize = 0;
    while i < cfg.on_connect.len()
        invariant
            i <= cfg.on_connect@.len(),
            out@.len() == i,
            forall|j: int| 0 <= j < i ==> (#[trigger] out@[j])@ == json_text(cfg.on_connect@[j]),
        decreases cfg.on_connect@.len() - i,
    {
        out.push(to_json_string(&cfg.on_connect[i]));
        i = i + 1;
    }
    out
}

/// One message to hand to the trigger dispatcher.
#[derive(Debug)]
pub struct SourceMessage {
    pub channel: String,
    pub key: String,
    pub message: JsonValue,
}

/// The messages a frame carries: the items of an array, else the value.
pub open spec fn frame_messages(v: JsonValue) -> Seq<JsonValue> {
    match v {
        JsonValue::Array(items) => items@,
        _ => seq![v],
    }
}

/// A message is dispatched when its channel path selects a non-empty
/// text.
pub open spec fn has_channel(m: JsonValue, channel_expr: Seq<char>) -> bool {
    spec_extract_path(m, channel_expr) matches Some(c) && c.len() > 0
}

/// The messages that are dispatched, in order.
pub open spec fn kept_messages(ms: Seq<JsonValue>, channel_expr: Seq<char>) -> Seq<JsonValue>
    decreases ms.len(),
{
    if ms.len() == 0 {
        Seq::empty()
    } else if has_channel(ms.last(), channel_expr) {
        kept_messages(ms.drop_last(), channel_expr).push(ms.last())
    } else {
        kept_messages(ms.drop_last(), channel_expr)
    }
}

/// The dispatch key of a message: what its key path selects, or empty.
pub open spec fn message_key(m: JsonValue, key_expr: Seq<char>) -> Seq<char> {
    match spec_extract_path(m, key_expr) {
        Some(k) => k,
        None => Seq::empty(),
    }
}

/// `r` are the dispatches of a decoded frame `value`: one per message
/// whose channel path yields a non-empty text, in order, with that
/// channel and the message's key.
pub open spec fn are_frame_dispatches(r: Seq<SourceMessage>, value: JsonValue, channel_expr: Seq<char>, key_expr: Seq<char>) -> bool {
    &&& r.len() == kept_messages(frame_messages(value), channel_expr).len()
    &&& forall|i: int| 0 <= i < r.len() ==> {
        let m = #[trigger] kept_messages(frame_messages(value), channel_expr)[i];
        &&& r[i].message == m
        &&& spec_extract_path(m, channel_expr) == Some(r[i].channel@)
        &&& r[i].key@ == message_key(m, key_expr)
    }
}

/// Split a parsed frame into messages with their `(channel, key)`;
/// messages without a channel are dropped.
#[verifier::rlimit(80)]
pub fn dispatch_messages(value: JsonValue, channel_expr: &str, key_expr: &str) -> (r: Vec<SourceMessage>)
    ensures
        are_frame_dispatches(r@, value, channel_expr@, key_expr@),
{
    let ghost all = frame_messages(value);
    let mut rest: Vec<JsonValue> = match value {
        JsonValue::Array(items) => items,
        other => {
            let mut v: Vec<JsonValue> = Vec::new();
            v.push(other);
            proof { assert(v@ =~= all); }
            v
        },
    };
    let mut out: Vec<SourceMessage> = Vec::new();
    let ghost mut done: int = 0;
    while rest.len() > 0
        invariant
            0 <= done <= all.len(),
            rest@ == all.skip(done),
            out@.len() == kept_messages(all.take(done), channel_expr@).len(),
            forall|i: int| 0 <= i < out@.len() ==> {
                let m = #[trigger] kept_messages(all.take(done), channel_expr@)[i];
                &&& out@[i].message == m
                &&& spec_extract_path(m, channel_expr@) == Some(out@[i].channel@)
                &&& out@[i].key@ == message_key(m, key_expr@)
            },
        decreases rest@.len(),
    {
        proof { assert(all.skip(done)[0] == all[done]); }
        let m = rest.remove(0);
        let ghost t1 = all.take(done + 1);
        proof {
            assert(t1.drop_last() =~= all.take(done));
            assert(t1.last() == m);
        }
        let ch = extract_path(&m, channel_expr);
        match ch {
            Some(c) => {
                if c.as_str().unicode_len() > 0 {
                    let key = match extract_path(&m, key_expr) {
                        Some(k) => k,
                        None => String::new(),
                    };
                    let ghost out0 = out@;
                    out.push(SourceMessage { channel: c, key, message: m });
                    proof {
                        let kt = kept_messages(t1, channel_expr@);
                        assert(kt == kept_messages(all.take(done), channel_expr@).push(m));
                        assert forall|i: int| 0 <= i < out@.len() implies {
                            let mm = #[trigger] kept_messages(t1, channel_expr@)[i];
                            &&& out@[i].message == mm
                            &&& spec_extract_path(mm, channel_expr@) == Some(out@[i].channel@)
                            &&& out@[i].key@ == message_key(mm, key_expr@)
                        } by {
                            if i < out0.len() {
                                assert(out@[i] == out0[i]);
                                assert(kt[i] == kept_messages(all.take(done), channel_expr@)[i]);
                            }
                        }
                    }
                } else {
                    proof { assert(kept_messages(t1, channel_expr@) == kept_messages(all.take(done), channel_expr@)); }
                }
            },
            None => {
                proof { assert(kept_messages(t1, channel_expr@) == kept_messages(all.take(done), channel_expr@)); }
            },
        }
        proof {
            done = done + 1;
            assert(rest@ =~= all.skip(done));
        }
    }
    proof { assert(all.take(done) =~= all); }
    out
}

/// What a text frame of a WebSocket source dispatches: the text is
/// decoded as JSON (an array is a batch of messages, any other value one
/// message) and each message with a non-empty channel is dispatched;
/// text that does not decode fails with the decoder's message.
pub fn text_frame_dispatches(text: &str, channel_expr: &str, key_expr: &str) -> (r: Result<Vec<SourceMessage>, String>)
    ensures
        match json_str_parse_result(text@) {
            Ok(v) => r matches Ok(ms) && are_frame_dispatches(ms@, v, channel_expr@, key_expr@),
            Err(e) => r matches Err(m) && m@ == e,
        },
{
    match parse_json_str(text) {
        Ok(v) => Ok(dispatch_messages(v, channel_expr, key_expr)),
        Err(e) => Err(e),
    }
}

} // verus!
