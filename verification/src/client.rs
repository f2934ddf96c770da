//! The outbound HTTP client's settings and its post-response checks,
//! and the test-only URL rewrite.
use vstd::prelude::*;
use crate::text::{chars_of, string_of, extend_chars, slice_vec, trim, trimmed, find_char, first_char, starts_with,
    is_prefix, decimal, decimal_string, utf8_len, string_views};
use crate::json::{JsonValue, json_text, to_json_string};
use crate::config::AppConfig;
use crate::outbound::{SelfOrigins, spec_self_origin, status_allowed, utf8_len_wide};
use crate::serve::{UdsPool, UdsHttpVersion};
use crate::sources::{split_all, split_on};

verus! {

/// How outbound calls are made and checked.
#[derive(Debug)]
pub struct ClientSettings {
    pub default_timeout_ms: u64,
    pub response_size_limit: Option<usize>,
    /// Accepted upstream statuses; empty accepts all.
    pub status_allow_list: Vec<u16>,
    pub outbound_disabled: bool,
    pub allowed_url_prefixes: Vec<String>,
    pub allowed_ip_hosts: Vec<String>,
    pub block_private_networks: bool,
    /// Host aliases served over Unix sockets.
    pub unix_socket_map: Vec<(String, String)>,
    pub uds_pool: UdsPool,
    pub self_origins: SelfOrigins,
}

fn copy_strings(v: &Vec<String>) -> (r: Vec<String>)
    ensures
        string_views(r@) == string_views(v@),
{
    let mut out: Vec<String> = Vec::new();
    let mut i: usize = 0;
    while i < v.len()
        invariant
            i <= v@.len(),
            out@.len() == i,
            forall|k: int| 0 <= k < i ==> (#[trigger] out@[k])@ == v@[k]@,
        decreases v@.len() - i,
    {
        out.push(v[i].clone());
        i = i + 1;
    }
    proof { assert(string_views(out@) =~= string_views(v@)); }
    out
}

fn copy_pairs(v: &Vec<(String, String)>) -> (r: Vec<(String, String)>)
    ensures
        r@.len() == v@.len(),
        forall|k: int| 0 <= k < v@.len() ==> (#[trigger] r@[k]).0@ == v@[k].0@ && r@[k].1@ == v@[k].1@,
{
    let mut out: Vec<(String, String)> = Vec::new();
    let mut i: usize = 0;
    while i < v.len()
        invariant
            i <= v@.len(),
            out@.len() == i,
            forall|k: int| 0 <= k < i ==> (#[trigger] out@[k]).0@ == v@[k].0@ && out@[k].1@ == v@[k].1@,
        decreases v@.len() - i,
    {
        out.push((v[i].0.clone(), v[i].1.clone()));
        i = i + 1;
    }
    out
}

fn copy_codes(v: &Vec<u16>) -> (r: Vec<u16>)
    ensures
        r@ == v@,
{
    let mut out: Vec<u16> = Vec::new();
    let mut i: usize = 0;
    while i < v.len()
        invariant
            i <= v@.len(),
            out@ == v@.take(i as int),
        decreases v@.len() - i,
    {
        out.push(v[i]);
        i = i + 1;
        proof { assert(out@ =~= v@.take(i as int)); }
    }
    proof { assert(v@.take(i as int) =~= v@); }
    out
}

impl ClientSettings {
    /// The settings the configuration gives: its timeout, size limit,
    /// accepted statuses, outbound policy and socket aliases; a socket
    /// pool with 30 s idle timeout and 32 idle connections per socket;
    /// the server's own origins.
    pub fn new(config: &AppConfig) -> (r: Self)
        ensures
            r.default_timeout_ms == config.http_request_timeout,
            r.response_size_limit == config.http_response_size_limit,
            r.status_allow_list@ == config.http_codes_allow_list@,
            r.outbound_disabled == config.internal_requests.disabled,
            string_views(r.allowed_url_prefixes@) == string_views(config.internal_requests.allowed_urls@),
            string_views(r.allowed_ip_hosts@) == string_views(config.internal_requests.allowed_ips@),
            r.block_private_networks == config.internal_requests.block_private_networks,
            r.unix_socket_map@.len() == config.unix_socket_map@.len(),
            forall|k: int| 0 <= k < r.unix_socket_map@.len() ==> (#[trigger] r.unix_socket_map@[k]).0@ == config.unix_socket_map@[k].0@
                && r.unix_socket_map@[k].1@ == config.unix_socket_map@[k].1@,
            r.uds_pool.pooled().len() == 0,
            r.uds_pool.idle_timeout_ms == 30_000,
            r.uds_pool.max_idle_per_host == 32,
            r.uds_pool.http_version == UdsHttpVersion::from_config_spec(config.uds_http_version),
            forall|h: Seq<char>, p: u16| r.self_origins.has(h, p) <==> spec_self_origin(config.port, config.listeners@, h, p),
    {
        ClientSettings {
            default_timeout_ms: config.http_request_timeout,
            response_size_limit: config.http_response_size_limit,
            status_allow_list: copy_codes(&config.http_codes_allow_list),
            outbound_disabled: config.internal_requests.disabled,
            allowed_url_prefixes: copy_strings(&config.internal_requests.allowed_urls),
            allowed_ip_hosts: copy_strings(&config.internal_requests.allowed_ips),
            block_private_networks: config.internal_requests.block_private_networks,
            unix_socket_map: copy_pairs(&config.unix_socket_map),
            uds_pool: UdsPool::with_version(30_000, 32, UdsHttpVersion::from_config(config.uds_http_version)),
            self_origins: SelfOrigins::from_config(config),
        }
    }

    /// Permissive settings with only a timeout: no limits, no
    /// allow-lists, private networks reachable, no aliases, no own
    /// origins.
    pub fn with_timeout_ms(default_timeout_ms: u64) -> (r: Self)
        ensures
            r.default_timeout_ms == default_timeout_ms,
            r.response_size_limit is None,
            r.status_allow_list@.len() == 0,
            !r.outbound_disabled,
            r.allowed_url_prefixes@.len() == 0,
            r.allowed_ip_hosts@.len() == 0,
            !r.block_private_networks,
            r.unix_socket_map@.len() == 0,
            r.uds_pool.pooled().len() == 0,
            forall|h: Seq<char>, p: u16| !r.self_origins.has(h, p),
    {
        ClientSettings {
            default_timeout_ms,
            response_size_limit: None,
            status_allow_list: Vec::new(),
            outbound_disabled: false,
            allowed_url_prefixes: Vec::new(),
            allowed_ip_hosts: Vec::new(),
            block_private_networks: false,
            unix_socket_map: Vec::new(),
            uds_pool: UdsPool::new(30_000, 32),
            self_origins: SelfOrigins::new(),
        }
    }
}

impl UdsHttpVersion {
    pub open spec fn from_config_spec(v: crate::config::HttpVersion) -> UdsHttpVersion {
        match v {
            crate::config::HttpVersion::Http1 => UdsHttpVersion::Http1,
            crate::config::HttpVersion::Http2 => UdsHttpVersion::Http2,
        }
    }
}

pub open spec fn status_refused_msg(status: u16) -> Seq<char> {
    "upstream status "@ + decimal(status as nat) + " not in http_codes_allow_list"@
}

pub open spec fn body_too_large_msg(size: nat, cap: usize) -> Seq<char> {
    "uds upstream body "@ + decimal(size) + " bytes exceeds http_response_size_limit "@ + decimal(cap as nat)
}

/// The byte size of a body as serialised JSON (0 without a body).
pub open spec fn body_size(body: Option<JsonValue>) -> nat {
    match body {
        Some(v) => utf8_len(json_text(v)),
        None => 0,
    }
}

/// Checks on a response read from a Unix socket: its status must be
/// accepted, and its body, as JSON, must fit the size limit.
pub fn enforce_status_and_size(allow: &Vec<u16>, limit: Option<usize>, status: u16, body: &Option<JsonValue>) -> (r: Result<(), String>)
    ensures
        !(allow@.len() == 0 || allow@.contains(status)) ==> (r matches Err(e) && e@ == status_refused_msg(status)),
        (allow@.len() == 0 || allow@.contains(status)) ==> match limit {
            Some(cap) => if body_size(*body) > cap {
                r matches Err(e) && e@ == body_too_large_msg(body_size(*body), cap)
            } else {
                r is Ok
            },
            None => r is Ok,
        },
{
    if !status_allowed(allow, status) {
        let mut m = chars_of("upstream status ");
        extend_chars(&mut m, chars_of(decimal_string(status as u128).as_str()).as_slice());
        extend_chars(&mut m, chars_of(" not in http_codes_allow_list").as_slice());
        return Err(string_of(m.as_slice()));
    }
    match limit {
        Some(cap) => {
            let size: u128 = match body {
                Some(v) => {
                    let t = to_json_string(v);
                    utf8_len_wide(chars_of(t.as_str()).as_slice())
                },
                None => 0,
            };
            if size > cap as u128 {
                let mut m = chars_of("uds upstream body ");
                extend_chars(&mut m, chars_of(decimal_string(size).as_str()).as_slice());
                extend_chars(&mut m, chars_of(" bytes exceeds http_response_size_limit ").as_slice());
                extend_chars(&mut m, chars_of(decimal_string(cap as u128).as_str()).as_slice());
                return Err(string_of(m.as_slice()));
            }
            Ok(())
        },
        None => Ok(()),
    }
}

/// The test-only URL rewrite (`RUUTER_HTTP_REWRITE`): comma-separated
/// `from=to` pairs, trimmed; pairs with an empty side are skipped; the
/// first `from` that prefixes the URL is replaced by its `to`. A pair
/// without `=` ends the search with no rewrite.
pub open spec fn rewrite_with(pairs: Seq<Seq<char>>, url: Seq<char>) -> Option<Seq<char>>
    decreases pairs.len(),
{
    if pairs.len() == 0 {
        None
    } else {
        let p = pairs[0];
        match first_char(p, '=') {
            None => None,
            Some(e) => {
                let from = trimmed(p.subrange(0, e));
                let to = trimmed(p.skip(e + 1));
                if from.len() == 0 || to.len() == 0 {
                    rewrite_with(pairs.skip(1), url)
                } else if is_prefix(from, url) {
                    Some(to + url.skip(from.len() as int))
                } else {
                    rewrite_with(pairs.skip(1), url)
                }
            },
        }
    }
}

pub open spec fn spec_rewrite_url(url: Seq<char>, env: Option<Seq<char>>) -> Option<Seq<char>> {
    match env {
        Some(raw) => if raw.len() == 0 { None } else { rewrite_with(split_all(raw, ','), url) },
        None => None,
    }
}

pub fn rewrite_url_for_tests(url: &str, env: &Option<String>) -> (r: Option<String>)
    ensures
        match r {
            Some(u) => spec_rewrite_url(url@, match env { Some(e) => Some(e@), None => None }) == Some(u@),
            None => spec_rewrite_url(url@, match env { Some(e) => Some(e@), None => None }) is None,
        },
{
    let raw = match env {
        Some(e) => e,
        None => return None,
    };
    let rc = chars_of(raw.as_str());
    if rc.len() == 0 {
        return None;
    }
    let uc = chars_of(url);
    let pairs = split_on(rc.as_slice(), ',');
    let ghost ps = pairs@.map_values(|v: Vec<char>| v@);
    let mut i: usize = 0;
    proof { assert(ps.skip(0) =~= ps); }
    while i < pairs.len()
        invariant
            i <= pairs@.len(),
            ps == pairs@.map_values(|v: Vec<char>| v@),
            ps == split_all(raw@, ','),
            uc@ == url@,
            env is Some && env->Some_0@ == raw@,
            raw@.len() > 0,
            rewrite_with(ps.skip(i as int), url@) == rewrite_with(ps, url@),
        decreases pairs@.len() - i,
    {
        let p = pairs[i].as_slice();
        proof {
            assert(ps.skip(i as int)[0] == p@);
            assert(ps.skip(i as int).skip(1) =~= ps.skip(i + 1));
        }
        let n = p.len();
        let e = match find_char(p, '=') {
            Some(e) => e,
            None => return None,
        };
        let fpart = slice_vec(p, 0, e);
        let tpart = slice_vec(p, e + 1, n);
        let from = trim(fpart.as_slice());
        let to = trim(tpart.as_slice());
        proof {
            assert(fpart@ =~= p@.subrange(0, e as int));
            assert(tpart@ =~= p@.skip(e + 1));
        }
        if from.len() > 0 && to.len() > 0 && starts_with(uc.as_slice(), from.as_slice()) {
            let mut out = to;
            let rest = slice_vec(uc.as_slice(), from.len(), uc.len());
            proof { assert(rest@ =~= url@.skip(from@.len() as int)); }
            extend_chars(&mut out, rest.as_slice());
            return Some(string_of(out.as_slice()));
        }
        i = i + 1;
    }
    proof { assert(ps.skip(i as int) =~= Seq::<Seq<char>>::empty()); }
    None
}

} // verus!
