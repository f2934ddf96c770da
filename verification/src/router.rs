//! Decisions the HTTP front door makes around a DSL run: which
//! requests are refused before any DSL runs, how a request path maps
//! to a project and a DSL key (with trailing path parameters), how the
//! caller's origin is chosen, and how the DSL's result becomes the
//! response status and body.
use vstd::prelude::*;
use crate::text::{trimmed, chars_of, string_of, segments, split_segments, join, join_range, eq_ignore_case,
    any_eq_ignore_case, extend_chars, push_decimal, decimal, is_trim_of, trim, eq_ignore_ascii_case,
    ends_with, is_suffix, string_views, find_char, first_char, find_char_from, utf8_len, utf8_length,
    slice_vec, substring, chars_eq};
use crate::config::{IncomingRequestsConfig, CsrfConfig, OptimisticConcurrencyConfig, ResponseConfig};
use crate::urls::{UrlParts, UrlView, parsed_url, parse_url, opt_view};
use crate::netaddr::{IpAddress, spec_canonical, canonicalise_ip};
use crate::json::{JsonValue, json_parse_result, parse_json_bytes};

verus! {

/// `m` is listed in `list`, up to ASCII case.
pub open spec fn listed(list: Seq<String>, m: Seq<char>) -> bool {
    exists|i: int| 0 <= i < list.len() && eq_ignore_case(list[i]@, m)
}

/// `s` is an entry of `list`.
pub open spec fn in_list(list: Seq<String>, s: Seq<char>) -> bool {
    exists|i: int| 0 <= i < list.len() && (#[trigger] list[i])@ == s
}

/// Why a request is refused before any DSL runs.
#[derive(Debug, Clone, Copy, PartialEq, Eq, Structural)]
pub enum GateVerdict {
    Pass,
    /// The method is not in `incoming_requests.allowed_method_types` (405).
    MethodNotAllowed,
    /// CSRF is on for the method and neither Origin nor the Referer's
    /// origin is allowed (403).
    CsrfOriginNotAllowed,
    /// `If-Match` is required for the method and absent (428).
    IfMatchRequired,
}

impl GateVerdict {
    /// Status and error message of a refusal; `None` for `Pass`.
    pub fn rejection(&self) -> (r: Option<(u16, &'static str)>)
        ensures
            match *self {
                GateVerdict::Pass => r is None,
                GateVerdict::MethodNotAllowed => r matches Some((s, m)) && s == 405 && m@ == "Method Not Allowed"@,
                GateVerdict::CsrfOriginNotAllowed => r matches Some((s, m)) && s == 403 && m@ == "CSRF: origin not allowed"@,
                GateVerdict::IfMatchRequired => r matches Some((s, m)) && s == 428
                    && m@ == "If-Match header is required for this method"@,
            },
    {
        match self {
            GateVerdict::Pass => None,
            GateVerdict::MethodNotAllowed => Some((405, "Method Not Allowed")),
            GateVerdict::CsrfOriginNotAllowed => Some((403, "CSRF: origin not allowed")),
            GateVerdict::IfMatchRequired => Some((428, "If-Match header is required for this method")),
        }
    }
}

/// `scheme://host[:port]` of a parsed Referer (port only when the URL
/// writes a non-default one; empty host when there is none).
pub open spec fn spec_referer_origin(u: UrlView) -> Seq<char> {
    u.scheme + seq![':', '/', '/'] + (match u.host { Some(h) => h, None => Seq::empty() })
        + (match u.port { Some(p) => seq![':'] + decimal(p as nat), None => Seq::empty() })
}

/// The Origin header, else the Referer's origin, is in `allowed`; a
/// request with neither (or an unparseable Referer) is refused.
pub open spec fn spec_origin_allowed(origin: Option<Seq<char>>, referer: Option<Seq<char>>, allowed: Seq<String>) -> bool {
    match origin {
        Some(o) => in_list(allowed, o),
        None => match referer {
            Some(r) => match parsed_url(r) {
                Some(u) => in_list(allowed, spec_referer_origin(u)),
                None => false,
            },
            None => false,
        },
    }
}

pub open spec fn spec_gate(
    incoming: IncomingRequestsConfig,
    csrf: CsrfConfig,
    occ: OptimisticConcurrencyConfig,
    method: Seq<char>,
    origin: Option<Seq<char>>,
    referer: Option<Seq<char>>,
    has_if_match: bool,
) -> GateVerdict {
    if !listed(incoming.allowed_method_types@, method) {
        GateVerdict::MethodNotAllowed
    } else if csrf.allowed_origins@.len() > 0 && listed(csrf.enforce_on_methods@, method)
        && !spec_origin_allowed(origin, referer, csrf.allowed_origins@) {
        GateVerdict::CsrfOriginNotAllowed
    } else if occ.require_if_match && listed(occ.enforce_on_methods@, method) && !has_if_match {
        GateVerdict::IfMatchRequired
    } else {
        GateVerdict::Pass
    }
}

fn list_has(list: &Vec<String>, s: &[char]) -> (r: bool)
    ensures
        r == in_list(list@, s@),
{
    let mut i: usize = 0;
    while i < list.len()
        invariant
            i <= list@.len(),
            forall|j: int| 0 <= j < i ==> (#[trigger] list@[j])@ != s@,
        decreases list@.len() - i,
    {
        let c = chars_of(list[i].as_str());
        if chars_eq(c.as_slice(), s) {
            return true;
        }
        i = i + 1;
    }
    false
}

/// Origin of a parsed Referer URL.
pub fn referer_origin(u: &UrlParts) -> (r: Vec<char>)
    ensures
        r@ == spec_referer_origin(u@),
{
    let mut out = chars_of(u.scheme.as_str());
    extend_chars(&mut out, &[':', '/', '/']);
    match &u.host {
        Some(h) => {
            let hc = chars_of(h.as_str());
            extend_chars(&mut out, hc.as_slice());
        },
        None => {},
    }
    match u.port {
        Some(p) => {
            out.push(':');
            push_decimal(&mut out, p as u128);
        },
        None => {},
    }
    proof {
        assert(out@ =~= spec_referer_origin(u@));
    }
    out
}

/// The CSRF origin check.
pub fn origin_allowed(origin: &Option<String>, referer: &Option<String>, allowed: &Vec<String>) -> (r: bool)
    ensures
        r == spec_origin_allowed(opt_view(*origin), opt_view(*referer), allowed@),
{
    match origin {
        Some(o) => {
            let oc = chars_of(o.as_str());
            list_has(allowed, oc.as_slice())
        },
        None => match referer {
            Some(rf) => match parse_url(rf.as_str()) {
                Some(u) => {
                    let ro = referer_origin(&u);
                    list_has(allowed, ro.as_slice())
                },
                None => false,
            },
            None => false,
        },
    }
}

/// Refusals that apply before any DSL runs, in the order the server
/// checks them: method allow-list, CSRF origin, `If-Match`.
pub fn gate_request(
    incoming: &IncomingRequestsConfig,
    csrf: &CsrfConfig,
    occ: &OptimisticConcurrencyConfig,
    method: &str,
    origin: &Option<String>,
    referer: &Option<String>,
    has_if_match: bool,
) -> (r: GateVerdict)
    ensures
        r == spec_gate(*incoming, *csrf, *occ, method@, opt_view(*origin), opt_view(*referer), has_if_match),
{
    let m = chars_of(method);
    if !any_eq_ignore_case(&incoming.allowed_method_types, m.as_slice()) {
        return GateVerdict::MethodNotAllowed;
    }
    if csrf.allowed_origins.len() > 0 && any_eq_ignore_case(&csrf.enforce_on_methods, m.as_slice())
        && !origin_allowed(origin, referer, &csrf.allowed_origins) {
        return GateVerdict::CsrfOriginNotAllowed;
    }
    if occ.require_if_match && any_eq_ignore_case(&occ.enforce_on_methods, m.as_slice()) && !has_if_match {
        return GateVerdict::IfMatchRequired;
    }
    GateVerdict::Pass
}

/// A WebSocket upgrade: `Upgrade: websocket` (any case) on a `GET`.
pub fn is_websocket_upgrade(upgrade: &Option<String>, method: &str) -> (r: bool)
    ensures
        r == ((match *upgrade { Some(u) => eq_ignore_case(u@, "websocket"@), None => false })
            && method@ == "GET"@),
{
    let up = match upgrade {
        Some(u) => {
            let c = chars_of(u.as_str());
            let w = chars_of("websocket");
            eq_ignore_ascii_case(c.as_slice(), w.as_slice())
        },
        None => false,
    };
    let mc = chars_of(method);
    let g = chars_of("GET");
    up && chars_eq(mc.as_slice(), g.as_slice())
}

/// Project and endpoint path of a request path.
#[derive(Debug, Clone)]
pub struct RequestTarget {
    pub project: String,
    /// The remaining non-empty segments joined with `/`.
    pub endpoint_path: String,
}

/// Split a request path into project and endpoint; `None` (404) when
/// the path has no non-empty segment.
pub fn request_target(path: &str) -> (r: Option<RequestTarget>)
    ensures
        match r {
            None => segments(path@, '/').len() == 0,
            Some(t) => segments(path@, '/').len() > 0
                && t.project@ == segments(path@, '/')[0]
                && t.endpoint_path@ == join(segments(path@, '/').skip(1), '/'),
        },
{
    let pc = chars_of(path);
    let segs = split_segments(pc.as_slice(), '/');
    if segs.len() == 0 {
        return None;
    }
    let project = string_of(segs[0].as_slice());
    let rest = join_range(&segs, 1, segs.len(), '/');
    proof {
        let m = segs@.map_values(|v: Vec<char>| v@);
        assert(m.subrange(1, m.len() as int) =~= m.skip(1));
    }
    Some(RequestTarget { project, endpoint_path: string_of(rest.as_slice()) })
}

/// Candidate DSL key built from the first `k` path segments.
pub open spec fn dsl_candidate(method: Seq<char>, segs: Seq<Seq<char>>, k: int) -> Seq<char> {
    method + seq!['/'] + join(segs.subrange(0, k), '/')
}

/// A matched DSL key and the trailing path segments that were stripped
/// to reach it, in URL order.
#[derive(Debug, Clone)]
pub struct DslMatch {
    pub key: String,
    pub path_params: Vec<String>,
}

/// Find the DSL for `method` and `path` among `keys` (the DSL keys of
/// one project and method): try the key made of all path segments,
/// then strip trailing segments one at a time; the stripped segments
/// become the path parameters.
pub fn resolve_dsl_key(keys: &Vec<String>, method: &str, path: &str) -> (r: Option<DslMatch>)
    ensures
        ({
            let segs = segments(path@, '/');
            match r {
                Some(m) => exists|k: int| 1 <= k <= segs.len()
                    && #[trigger] in_list(keys@, dsl_candidate(method@, segs, k))
                    && m.key@ == dsl_candidate(method@, segs, k)
                    && string_views(m.path_params@) == segs.subrange(k, segs.len() as int)
                    && forall|j: int| k < j <= segs.len() ==> !in_list(keys@, #[trigger] dsl_candidate(method@, segs, j)),
                None => forall|k: int| 1 <= k <= segs.len() ==> !in_list(keys@, #[trigger] dsl_candidate(method@, segs, k)),
            }
        }),
{
    let pc = chars_of(path);
    let segs = split_segments(pc.as_slice(), '/');
    let ghost sv = segs@.map_values(|v: Vec<char>| v@);
    let mc = chars_of(method);
    let n = segs.len();
    let mut k = n;
    while k > 0
        invariant
            k <= n,
            n == segs@.len(),
            sv == segs@.map_values(|v: Vec<char>| v@),
            sv == segments(path@, '/'),
            mc@ == method@,
            forall|j: int| k < j <= n ==> !in_list(keys@, #[trigger] dsl_candidate(method@, sv, j)),
        decreases k,
    {
        let mut cand = slice_vec(mc.as_slice(), 0, mc.len());
        cand.push('/');
        let body = join_range(&segs, 0, k, '/');
        extend_chars(&mut cand, body.as_slice());
        proof {
            assert(mc@.subrange(0, mc@.len() as int) == mc@);
            assert(cand@ =~= dsl_candidate(method@, sv, k as int));
        }
        if list_has(keys, cand.as_slice()) {
            let mut params: Vec<String> = Vec::new();
            let mut j = k;
            while j < n
                invariant
                    k <= j <= n,
                    n == segs@.len(),
                    sv == segs@.map_values(|v: Vec<char>| v@),
                    string_views(params@) == sv.subrange(k as int, j as int),
                decreases n - j,
            {
                let ghost before = string_views(params@);
                let piece = string_of(segs[j].as_slice());
                proof { assert(piece@ == sv[j as int]); }
                params.push(piece);
                j = j + 1;
                proof {
                    assert(string_views(params@) =~= before.push(sv[j - 1]));
                    assert(sv.subrange(k as int, j as int) =~= sv.subrange(k as int, j - 1).push(sv[j - 1]));
                }
            }
            return Some(DslMatch { key: string_of(cand.as_slice()), path_params: params });
        }
        k = k - 1;
    }
    None
}

/// Status the response carries: a DSL status of 200 gives way to the
/// configured status for runs with / without a value; a status outside
/// `100..=999` becomes 200.
pub open spec fn spec_final_status(cfg: ResponseConfig, status: u16, has_value: bool) -> u16 {
    let s = if status == 200 {
        if has_value {
            match cfg.dsl_with_response_status { Some(x) => x, None => status }
        } else {
            match cfg.dsl_without_response_status { Some(x) => x, None => status }
        }
    } else {
        status
    };
    if 100 <= s && s <= 999 { s } else { 200 }
}

pub fn final_status(cfg: &ResponseConfig, status: u16, has_value: bool) -> (r: u16)
    ensures
        r == spec_final_status(*cfg, status, has_value),
{
    let s = if status == 200 {
        if has_value {
            match cfg.dsl_with_response_status { Some(x) => x, None => status }
        } else {
            match cfg.dsl_without_response_status { Some(x) => x, None => status }
        }
    } else {
        status
    };
    if 100 <= s && s <= 999 { s } else { 200 }
}

/// `b` is the DSL's value, or `{}` when it returned none.
pub open spec fn is_raw_body(b: JsonValue, value: Option<JsonValue>) -> bool {
    match value {
        Some(v) => b == v,
        None => b matches JsonValue::Object(ms) && ms@.len() == 0,
    }
}

/// Whether a `return:` step's value is wrapped: the step's own
/// `wrapper:` flag, else the configured default.
pub fn return_wrapper(cfg: &ResponseConfig, step_wrapper: Option<bool>) -> (r: bool)
    ensures
        r == (match step_wrapper { Some(w) => w, None => cfg.default_wrapper }),
{
    match step_wrapper { Some(w) => w, None => cfg.default_wrapper }
}

/// Response body. `wrapper` is the flag of the `return:` step that
/// ended the run (see [`return_wrapper`]); `None` means the run never
/// reached a `return:` step: no wrapper, and a bare `null` body when
/// there is no value. With `Some(true)` the value (`{}` when there is
/// none) is wrapped as `{"response": value}`; with `Some(false)` it is
/// sent as it is.
pub fn response_body(wrapper: Option<bool>, value: Option<JsonValue>) -> (r: JsonValue)
    ensures
        match wrapper {
            Some(true) => r matches JsonValue::Object(ms) && ms@.len() == 1 && ms@[0].0@ == "response"@
                && is_raw_body(ms@[0].1, value),
            Some(false) => is_raw_body(r, value),
            None => match value {
                Some(v) => r == v,
                None => r is Null,
            },
        },
{
    match wrapper {
        None => match value {
            Some(v) => v,
            None => JsonValue::Null,
        },
        Some(wrap) => {
            let raw = match value { Some(v) => v, None => JsonValue::Object(Vec::new()) };
            if wrap {
                let mut ms: Vec<(String, JsonValue)> = Vec::new();
                ms.push(("response".to_owned(), raw));
                JsonValue::Object(ms)
            } else {
                raw
            }
        },
    }
}

/// The request declares a JSON body: its media type (before any `;`,
/// trimmed) is `application/json` in any case, or ends with `+json`.
pub open spec fn spec_looks_json(content_type: Seq<char>) -> bool {
    let mime = trimmed(match first_char(content_type, ';') {
        Some(i) => content_type.subrange(0, i),
        None => content_type,
    });
    eq_ignore_case(mime, "application/json"@) || is_suffix("+json"@, mime)
}

pub fn looks_json(content_type: &str) -> (r: bool)
    ensures
        r == spec_looks_json(content_type@),
{
    let c = chars_of(content_type);
    let end = match find_char(c.as_slice(), ';') {
        Some(i) => i,
        None => c.len(),
    };
    let raw = slice_vec(c.as_slice(), 0, end);
    proof {
        assert(c@.subrange(0, c@.len() as int) == c@);
    }
    let t = trim(raw.as_slice());
    let aj = chars_of("application/json");
    let pj = chars_of("+json");
    eq_ignore_ascii_case(t.as_slice(), aj.as_slice()) || ends_with(t.as_slice(), pj.as_slice())
}

/// The request body as the DSL's `incoming.body` members: an object's
/// members as they are; any other JSON value under the key `value`.
pub fn body_members(v: JsonValue) -> (r: Vec<(String, JsonValue)>)
    ensures
        match v {
            JsonValue::Object(ms) => r@ == ms@,
            _ => r@.len() == 1 && r@[0].0@ == "value"@ && r@[0].1 == v,
        },
{
    match v {
        JsonValue::Object(ms) => ms,
        other => {
            let mut r: Vec<(String, JsonValue)> = Vec::new();
            r.push(("value".to_owned(), other));
            r
        },
    }
}

/// A request body is parsed as JSON only when it is not empty and the
/// request declares a JSON media type; any other body reaches the DSL
/// as an empty `incoming.body`.
pub fn body_needs_parse(body_len: usize, content_type: &str) -> (r: bool)
    ensures
        r == (body_len > 0 && spec_looks_json(content_type@)),
{
    body_len > 0 && looks_json(content_type)
}

/// `b` is the answer `{"error": msg}`.
pub open spec fn is_error_body(b: JsonValue, msg: Seq<char>) -> bool {
    &&& b matches JsonValue::Object(ms)
    &&& ms@.len() == 1 && ms@[0].0@ == "error"@
    &&& ms@[0].1 matches JsonValue::String(s)
    &&& s@ == msg
}

/// The answer `{"error": message}` of a refused request.
pub fn error_body(message: String) -> (r: JsonValue)
    ensures
        is_error_body(r, message@),
{
    let mut ms: Vec<(String, JsonValue)> = Vec::new();
    ms.push(("error".to_owned(), JsonValue::String(message)));
    JsonValue::Object(ms)
}

/// `ms` are the `incoming.body` members of the decoded body `v`: an
/// object's members as they are, any other value under the key `value`.
pub open spec fn is_body_members(ms: Seq<(String, JsonValue)>, v: JsonValue) -> bool {
    match v {
        JsonValue::Object(om) => ms == om@,
        _ => ms.len() == 1 && ms[0].0@ == "value"@ && ms[0].1 == v,
    }
}

/// A declared JSON body once decoded: its `incoming.body` members, or,
/// when it does not decode (`Err` holds the decoder's message), the
/// answer `400` with `{"error": "invalid JSON body: <message>"}`.
pub fn parsed_body(parsed: Result<JsonValue, String>) -> (r: Result<Vec<(String, JsonValue)>, (u16, JsonValue)>)
    ensures
        match parsed {
            Ok(v) => r matches Ok(ms) && is_body_members(ms@, v),
            Err(e) => r matches Err((s, b)) && s == 400 && is_error_body(b, "invalid JSON body: "@ + e@),
        },
{
    match parsed {
        Ok(v) => Ok(body_members(v)),
        Err(e) => {
            let mut m = chars_of("invalid JSON body: ");
            crate::text::extend_chars(&mut m, chars_of(e.as_str()).as_slice());
            Err((400, error_body(string_of(m.as_slice()))))
        },
    }
}

/// The request body as the DSL's `incoming.body`. A body is decoded only
/// when it is not empty and the request declares a JSON media type; any
/// other body gives no members. A declared JSON body that does not
/// decode is answered `400` with `{"error": "invalid JSON body: <message>"}`.
pub fn request_body(body: &[u8], content_type: &str) -> (r: Result<Vec<(String, JsonValue)>, (u16, JsonValue)>)
    ensures
        !(body@.len() > 0 && spec_looks_json(content_type@)) ==> (r matches Ok(ms) && ms@.len() == 0),
        body@.len() > 0 && spec_looks_json(content_type@) ==> match json_parse_result(body@) {
            Ok(v) => r matches Ok(ms) && is_body_members(ms@, v),
            Err(e) => r matches Err((s, b)) && s == 400 && is_error_body(b, "invalid JSON body: "@ + e),
        },
{
    if body_needs_parse(body.len(), content_type) {
        parsed_body(parse_json_bytes(body))
    } else {
        Ok(Vec::new())
    }
}

/// Value of the first header named `name` (header names are held in
/// lower case).
pub open spec fn header_value(headers: Seq<(String, String)>, name: Seq<char>) -> Option<Seq<char>> {
    if exists|i: int| 0 <= i < headers.len() && (#[trigger] headers[i]).0@ == name {
        let i = choose|i: int| 0 <= i < headers.len() && (#[trigger] headers[i]).0@ == name
            && forall|j: int| 0 <= j < i ==> (#[trigger] headers[j]).0@ != name;
        Some(headers[i].1@)
    } else {
        None
    }
}

/// First header named `name`.
pub fn find_header(headers: &Vec<(String, String)>, name: &str) -> (r: Option<String>)
    ensures
        opt_view(r) == header_value(headers@, name@),
{
    let nc = chars_of(name);
    let mut i: usize = 0;
    while i < headers.len()
        invariant
            i <= headers@.len(),
            nc@ == name@,
            forall|j: int| 0 <= j < i ==> (#[trigger] headers@[j]).0@ != name@,
        decreases headers@.len() - i,
    {
        let hc = chars_of(headers[i].0.as_str());
        if chars_eq(hc.as_slice(), nc.as_slice()) {
            proof {
                let k = choose|k: int| 0 <= k < headers@.len() && (#[trigger] headers@[k]).0@ == name@
                    && forall|j: int| 0 <= j < k ==> (#[trigger] headers@[j]).0@ != name@;
                assert(k == i as int) by {
                    if k < i { } else if k > i { assert(headers@[i as int].0@ == name@); }
                }
            }
            return Some(headers[i].1.clone());
        }
        i = i + 1;
    }
    None
}

/// Text before the first `,`.
pub open spec fn first_field(v: Seq<char>) -> Seq<char> {
    match first_char(v, ',') { Some(i) => v.subrange(0, i), None => v }
}

fn xff_first_trimmed(v: &str) -> (r: Vec<char>)
    ensures
        r@ == trimmed(first_field(v@)),
{
    let vc = chars_of(v);
    let end = match find_char(vc.as_slice(), ',') { Some(i) => i, None => vc.len() };
    let first = slice_vec(vc.as_slice(), 0, end);
    proof { assert(vc@.subrange(0, vc@.len() as int) == vc@); }
    trim(first.as_slice())
}

/// The forwarded client address a trusted proxy reports: the leftmost
/// `X-Forwarded-For` entry, trimmed, when not empty; otherwise
/// `X-Real-IP`, trimmed. It still has to parse as an IP address.
pub open spec fn spec_origin_candidate(headers: Seq<(String, String)>) -> Option<Seq<char>> {
    let from_xff = match header_value(headers, "x-forwarded-for"@) {
        Some(v) => {
            let t = trimmed(first_field(v));
            if t.len() > 0 { Some(t) } else { None }
        },
        None => None,
    };
    match from_xff {
        Some(t) => Some(t),
        None => match header_value(headers, "x-real-ip"@) {
            Some(v) => Some(trimmed(v)),
            None => None,
        },
    }
}

pub fn origin_candidate(headers: &Vec<(String, String)>) -> (r: Option<String>)
    ensures
        opt_view(r) == spec_origin_candidate(headers@),
{
    let xff = find_header(headers, "x-forwarded-for");
    match xff {
        Some(v) => {
            let t = xff_first_trimmed(v.as_str());
            if t.len() > 0 {
                return Some(string_of(t.as_slice()));
            }
        },
        None => {},
    }
    match find_header(headers, "x-real-ip") {
        Some(v) => {
            let vc = chars_of(v.as_str());
            let t = trim(vc.as_slice());
            Some(string_of(t.as_slice()))
        },
        None => None,
    }
}

/// Where the request comes from: the forwarded address when the socket
/// peer is a trusted proxy and the forwarded value parsed, else the
/// socket peer; `None` ("unknown") when there is no peer. Addresses
/// are compared and returned in canonical form (IPv4-mapped IPv6
/// becomes IPv4).
pub open spec fn spec_choose_origin(peer: Option<IpAddress>, trusted: Seq<IpAddress>, forwarded: Option<IpAddress>) -> Option<IpAddress> {
    let peer_c = match peer { Some(p) => Some(spec_canonical(p)), None => None };
    let trusted_peer = match peer_c {
        Some(p) => exists|i: int| 0 <= i < trusted.len() && spec_canonical(#[trigger] trusted[i]) == p,
        None => false,
    };
    if trusted_peer && forwarded is Some {
        Some(spec_canonical(forwarded.unwrap()))
    } else {
        peer_c
    }
}

fn canonical_listed(list: &Vec<IpAddress>, p: IpAddress) -> (r: bool)
    ensures
        r == exists|i: int| 0 <= i < list@.len() && spec_canonical(#[trigger] list@[i]) == p,
{
    let mut i: usize = 0;
    while i < list.len()
        invariant
            i <= list@.len(),
            forall|j: int| 0 <= j < i ==> spec_canonical(#[trigger] list@[j]) != p,
        decreases list@.len() - i,
    {
        if canonicalise_ip(list[i]) == p {
            return true;
        }
        i = i + 1;
    }
    false
}

/// `trusted` holds the entries of `proxy.trusted` that parse as IP
/// addresses; `forwarded` is [`origin_candidate`] parsed as an IP
/// address.
pub fn choose_origin(peer: Option<IpAddress>, trusted: &Vec<IpAddress>, forwarded: Option<IpAddress>) -> (r: Option<IpAddress>)
    ensures
        r == spec_choose_origin(peer, trusted@, forwarded),
{
    let peer_c = match peer { Some(p) => Some(canonicalise_ip(p)), None => None };
    let trusted_peer = match peer_c {
        Some(p) => canonical_listed(trusted, p),
        None => false,
    };
    if trusted_peer {
        match forwarded {
            Some(f) => { return Some(canonicalise_ip(f)); },
            None => {},
        }
    }
    peer_c
}

/// Project and DSL path of a self-call URL path: leading slashes
/// dropped, split at the first `/` (path empty when there is none).
pub open spec fn spec_self_call_split(url_path: Seq<char>) -> (Seq<char>, Seq<char>) {
    let lead = choose|k: int| leading_slashes(url_path, k);
    let t = url_path.skip(lead);
    match first_char(t, '/') {
        Some(i) => (t.subrange(0, i), t.skip(i + 1)),
        None => (t, Seq::empty()),
    }
}

/// `s` starts with exactly `k` slashes.
pub open spec fn leading_slashes(s: Seq<char>, k: int) -> bool {
    0 <= k <= s.len() && (forall|j: int| 0 <= j < k ==> s[j] == '/') && (k < s.len() ==> s[k] != '/')
}

pub fn self_call_split(url_path: &str) -> (r: (String, String))
    ensures
        (r.0@, r.1@) == spec_self_call_split(url_path@),
{
    let c = chars_of(url_path);
    let mut lead: usize = 0;
    while lead < c.len() && c[lead] == '/'
        invariant
            lead <= c@.len(),
            c@ == url_path@,
            forall|j: int| 0 <= j < lead ==> c@[j] == '/',
        decreases c@.len() - lead,
    {
        lead = lead + 1;
    }
    proof {
        assert(leading_slashes(url_path@, lead as int));
        let k = choose|k: int| leading_slashes(url_path@, k);
        assert(k == lead as int) by {
            if k < lead { assert(url_path@[k] == '/'); } else if k > lead { assert(url_path@[lead as int] == '/'); }
        }
    }
    let t = slice_vec(c.as_slice(), lead, c.len());
    proof { assert(t@ =~= url_path@.skip(lead as int)); }
    match find_char(t.as_slice(), '/') {
        Some(i) => {
            let p = substring(t.as_slice(), 0, i);
            let rest = substring(t.as_slice(), i + 1, t.len());
            proof { assert(rest@ =~= t@.skip(i + 1)); }
            (p, rest)
        },
        None => (string_of(t.as_slice()), String::new()),
    }
}

} // verus!
