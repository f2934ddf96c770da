//! Serving decisions outside the request pipeline proper: the
//! WebSocket endpoint an upgrade path names, the frames of an inbound
//! WebSocket, the default response headers a response receives, the
//! route declaration's allow-lists, and the pool of Unix-socket clients.
use vstd::prelude::*;
use crate::text::{chars_of, string_of, chars_eq, extend_chars, segments, split_segments, join, join_range,
    lower_seq, to_lower_vec};
use crate::config::HttpVersion;
use crate::json::JsonValue;
use crate::lint::views;
use crate::sources::{SourceFrame, FrameAction};
use vstd::utf8::{valid_utf8, decode_utf8};

verus! {

/// The WebSocket route an upgrade path names: the first non-empty
/// segment is the project, the rest (at least one segment) joined by
/// `/` is the endpoint, stored under `WS/<endpoint>`.
pub open spec fn spec_ws_endpoint(path: Seq<char>) -> Option<(Seq<char>, Seq<char>)> {
    let segs = segments(path, '/');
    if segs.len() < 2 {
        None
    } else {
        Some((segs[0], "WS/"@ + join(segs.skip(1), '/')))
    }
}

pub fn ws_endpoint(path: &str) -> (r: Option<(String, String)>)
    ensures
        match r {
            Some((p, k)) => spec_ws_endpoint(path@) == Some((p@, k@)),
            None => spec_ws_endpoint(path@) is None,
        },
{
    let segs = split_segments(chars_of(path).as_slice(), '/');
    let ghost sv = segs@.map_values(|v: Vec<char>| v@);
    if segs.len() < 2 {
        return None;
    }
    let project = string_of(segs[0].as_slice());
    let rest = join_range(&segs, 1, segs.len(), '/');
    let mut key = chars_of("WS/");
    extend_chars(&mut key, rest.as_slice());
    proof {
        assert(sv.subrange(1, sv.len() as int) =~= sv.skip(1));
        assert(sv[0] == segs@[0]@);
    }
    Some((project, string_of(key.as_slice())))
}

/// What an inbound WebSocket connection does with a frame: text (and
/// binary that is valid UTF-8) is dispatched to the route's DSL, a
/// close ends the connection, control frames are left to the server.
pub fn server_frame_action(frame: SourceFrame) -> (r: FrameAction)
    ensures
        match frame {
            SourceFrame::Text(t) => r matches FrameAction::Dispatch(d) && d@ == t@,
            SourceFrame::Binary(b) => if valid_utf8(b@) {
                r matches FrameAction::Dispatch(d) && d@ == decode_utf8(b@)
            } else {
                r is Ignore
            },
            SourceFrame::Close => r is Stop,
            _ => r is Ignore,
        },
{
    match frame {
        SourceFrame::Ping(_) => FrameAction::Ignore,
        other => crate::sources::frame_action(other),
    }
}

/// The payload of a frame: its JSON value, or the text itself as a
/// string when it is not JSON.
pub fn frame_payload(parsed: Option<JsonValue>, text: String) -> (r: JsonValue)
    ensures
        match parsed {
            Some(v) => r == v,
            None => r matches JsonValue::String(s) && s@ == text@,
        },
{
    match parsed {
        Some(v) => v,
        None => JsonValue::String(text),
    }
}

/// Default headers a response gets: those whose name (case ignored)
/// the response does not already carry, in order.
pub open spec fn defaults_missing(existing: Seq<String>, defaults: Seq<(String, String)>) -> Seq<(Seq<char>, Seq<char>)>
    decreases defaults.len(),
{
    if defaults.len() == 0 {
        Seq::empty()
    } else {
        let (k, v) = defaults.last();
        defaults_missing(existing, defaults.drop_last())
            + if views(existing).contains(lower_seq(k@)) { Seq::empty() } else { seq![(k@, v@)] }
    }
}

/// `existing` holds the response's header names in lower case.
pub fn default_headers_to_add(existing: &Vec<String>, defaults: &Vec<(String, String)>) -> (r: Vec<(String, String)>)
    ensures
        r@.map_values(|p: (String, String)| (p.0@, p.1@)) == defaults_missing(existing@, defaults@),
{
    let mut out: Vec<(String, String)> = Vec::new();
    let mut i: usize = 0;
    while i < defaults.len()
        invariant
            i <= defaults@.len(),
            out@.map_values(|p: (String, String)| (p.0@, p.1@)) == defaults_missing(existing@, defaults@.take(i as int)),
        decreases defaults@.len() - i,
    {
        let ghost t1 = defaults@.take(i + 1);
        proof { assert(t1.drop_last() =~= defaults@.take(i as int)); assert(t1.last() == defaults@[i as int]); }
        let lk = to_lower_vec(chars_of(defaults[i].0.as_str()).as_slice());
        let ghost before = out@;
        if !crate::lint::name_listed(existing, lk.as_slice()) {
            out.push((defaults[i].0.clone(), defaults[i].1.clone()));
        }
        proof {
            assert(out@.map_values(|p: (String, String)| (p.0@, p.1@))
                =~= defaults_missing(existing@, t1));
        }
        i = i + 1;
    }
    proof { assert(defaults@.take(i as int) =~= defaults@); }
    out
}

/// A field of a route's declared allow-list, with its documentation.
#[derive(Debug)]
pub struct DslField {
    pub field: String,
    pub field_type: Option<String>,
    pub required: Option<bool>,
    pub format: Option<String>,
    pub description: Option<String>,
    pub default: Option<JsonValue>,
    pub items: Option<Box<DslField>>,
}

/// The structured allow-list of a declaration.
#[derive(Debug)]
pub struct Allowlist {
    pub body: Option<Vec<DslField>>,
    pub headers: Option<Vec<DslField>>,
    pub params: Option<Vec<DslField>>,
}

/// A route's `declaration` step, as far as request filtering reads it.
#[derive(Debug)]
pub struct DeclarationStep {
    pub allowed_body: Option<Vec<String>>,
    pub allowed_header: Option<Vec<String>>,
    pub allowed_params: Option<Vec<String>>,
    pub allowlist: Option<Allowlist>,
    pub strict: Option<bool>,
    pub override_ancestors: Option<bool>,
    pub description: Option<String>,
    /// The typed fields of a successful response.
    pub returns: Option<Vec<DslField>>,
}

/// The names an allow-list admits: the flat list when given, else the
/// structured list's field names.
pub open spec fn effective_names(flat: Option<Vec<String>>, fields: Option<Vec<DslField>>) -> Option<Seq<Seq<char>>> {
    match flat {
        Some(v) => Some(views(v@)),
        None => match fields {
            Some(fs) => Some(fs@.map_values(|f: DslField| f.field@)),
            None => None,
        },
    }
}

fn copy_names(v: &Vec<String>) -> (r: Vec<String>)
    ensures
        views(r@) == views(v@),
{
    let mut out: Vec<String> = Vec::new();
    let mut i: usize = 0;
    while i < v.len()
        invariant
            i <= v@.len(),
            out@.len() == i,
            views(out@) == views(v@).take(i as int),
        decreases v@.len() - i,
    {
        let ghost before = out@;
        let c = v[i].clone();
        out.push(c);
        i = i + 1;
        proof {
            assert forall|k: int| 0 <= k < i implies views(out@)[k] == views(v@).take(i as int)[k] by {
                if k < i - 1 { assert(out@[k] == before[k]); assert(views(before)[k] == views(v@).take(i - 1)[k]); }
            }
            assert(views(out@) =~= views(v@).take(i as int));
        }
    }
    proof { assert(views(v@).take(i as int) =~= views(v@)); }
    out
}

fn field_names(fs: &Vec<DslField>) -> (r: Vec<String>)
    ensures
        views(r@) == fs@.map_values(|f: DslField| f.field@),
{
    let mut out: Vec<String> = Vec::new();
    let mut i: usize = 0;
    while i < fs.len()
        invariant
            i <= fs@.len(),
            out@.len() == i,
            views(out@) == fs@.map_values(|f: DslField| f.field@).take(i as int),
        decreases fs@.len() - i,
    {
        let ghost before = out@;
        let c = fs[i].field.clone();
        out.push(c);
        i = i + 1;
        proof {
            let m = fs@.map_values(|f: DslField| f.field@);
            assert forall|k: int| 0 <= k < i implies views(out@)[k] == m.take(i as int)[k] by {
                if k < i - 1 { assert(out@[k] == before[k]); assert(views(before)[k] == m.take(i - 1)[k]); }
            }
            assert(views(out@) =~= m.take(i as int));
        }
    }
    proof { assert(fs@.map_values(|f: DslField| f.field@).take(i as int) =~= fs@.map_values(|f: DslField| f.field@)); }
    out
}

fn effective(flat: &Option<Vec<String>>, fields: Option<&Vec<DslField>>) -> (r: Option<Vec<String>>)
    ensures
        match r {
            Some(v) => effective_names(*flat, match fields { Some(f) => Some(*f), None => None }) == Some(views(v@)),
            None => effective_names(*flat, match fields { Some(f) => Some(*f), None => None }) is None,
        },
{
    match flat {
        Some(v) => Some(copy_names(v)),
        None => match fields {
            Some(fs) => Some(field_names(fs)),
            None => None,
        },
    }
}

pub open spec fn list_body(a: Option<Allowlist>) -> Option<Vec<DslField>> {
    match a { Some(l) => l.body, None => None }
}

pub open spec fn list_headers(a: Option<Allowlist>) -> Option<Vec<DslField>> {
    match a { Some(l) => l.headers, None => None }
}

pub open spec fn list_params(a: Option<Allowlist>) -> Option<Vec<DslField>> {
    match a { Some(l) => l.params, None => None }
}

pub open spec fn opt_views(o: Option<Vec<String>>) -> Option<Seq<Seq<char>>> {
    match o { Some(v) => Some(views(v@)), None => None }
}

impl DeclarationStep {
    /// Body fields admitted.
    pub fn effective_allowed_body(&self) -> (r: Option<Vec<String>>)
        ensures
            opt_views(r) == effective_names(self.allowed_body, list_body(self.allowlist)),
    {
        let fields = match &self.allowlist { Some(l) => match &l.body { Some(b) => Some(b), None => None }, None => None };
        effective(&self.allowed_body, fields)
    }

    /// Headers admitted.
    pub fn effective_allowed_header(&self) -> (r: Option<Vec<String>>)
        ensures
            opt_views(r) == effective_names(self.allowed_header, list_headers(self.allowlist)),
    {
        let fields = match &self.allowlist { Some(l) => match &l.headers { Some(b) => Some(b), None => None }, None => None };
        effective(&self.allowed_header, fields)
    }

    /// Query parameters admitted.
    pub fn effective_allowed_params(&self) -> (r: Option<Vec<String>>)
        ensures
            opt_views(r) == effective_names(self.allowed_params, list_params(self.allowlist)),
    {
        let fields = match &self.allowlist { Some(l) => match &l.params { Some(b) => Some(b), None => None }, None => None };
        effective(&self.allowed_params, fields)
    }

    /// Unknown request fields are refused.
    pub fn is_strict(&self) -> (r: bool)
        ensures
            r == (self.strict == Some(true)),
    {
        match self.strict { Some(b) => b, None => false }
    }
}

/// The HTTP version spoken to Unix-socket targets.
#[derive(Debug, Clone, Copy, PartialEq, Eq)]
pub enum UdsHttpVersion {
    Http1,
    /// HTTP/2 without TLS on the socket.
    Http2,
}

impl UdsHttpVersion {
    pub fn from_config(v: HttpVersion) -> (r: Self)
        ensures
            r == (match v { HttpVersion::Http1 => UdsHttpVersion::Http1, HttpVersion::Http2 => UdsHttpVersion::Http2 }),
    {
        match v {
            HttpVersion::Http1 => UdsHttpVersion::Http1,
            HttpVersion::Http2 => UdsHttpVersion::Http2,
        }
    }

    pub fn default() -> (r: Self)
        ensures
            r == UdsHttpVersion::Http1,
    {
        UdsHttpVersion::Http1
    }
}

/// Which socket paths have a pooled client, and how clients are built.
#[derive(Debug)]
pub struct UdsPool {
    pub paths: Vec<String>,
    pub idle_timeout_ms: u64,
    pub max_idle_per_host: usize,
    pub http_version: UdsHttpVersion,
}

impl UdsPool {
    pub open spec fn pooled(&self) -> Seq<Seq<char>> {
        views(self.paths@)
    }

    pub fn new(idle_timeout_ms: u64, max_idle_per_host: usize) -> (r: Self)
        ensures
            r.pooled().len() == 0,
            r.idle_timeout_ms == idle_timeout_ms,
            r.max_idle_per_host == max_idle_per_host,
            r.http_version == UdsHttpVersion::Http1,
    {
        Self::with_version(idle_timeout_ms, max_idle_per_host, UdsHttpVersion::Http1)
    }

    pub fn with_version(idle_timeout_ms: u64, max_idle_per_host: usize, http_version: UdsHttpVersion) -> (r: Self)
        ensures
            r.pooled().len() == 0,
            r.idle_timeout_ms == idle_timeout_ms,
            r.max_idle_per_host == max_idle_per_host,
            r.http_version == http_version,
    {
        let r = UdsPool { paths: Vec::new(), idle_timeout_ms, max_idle_per_host, http_version };
        proof { assert(r.pooled() =~= Seq::<Seq<char>>::empty()); }
        r
    }

    /// The client for `socket_path`: `true` when a new one must be
    /// built (HTTP/2-only when so configured), `false` when the pooled
    /// one is reused. Each path gets one client.
    pub fn client_for(&mut self, socket_path: &str) -> (r: bool)
        ensures
            r == !old(self).pooled().contains(socket_path@),
            final(self).pooled() == (if r { old(self).pooled().push(socket_path@) } else { old(self).pooled() }),
            final(self).idle_timeout_ms == old(self).idle_timeout_ms,
            final(self).max_idle_per_host == old(self).max_idle_per_host,
            final(self).http_version == old(self).http_version,
    {
        let pc = chars_of(socket_path);
        if crate::lint::name_listed(&self.paths, pc.as_slice()) {
            return false;
        }
        let ghost before = self.paths@;
        self.paths.push(socket_path.to_string());
        proof { assert(views(self.paths@) =~= views(before).push(socket_path@)); }
        true
    }
}

} // verus!
