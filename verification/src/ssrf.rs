//! Outbound-call policy: the `internal_requests` allow-lists, the
//! private-network block-list and the choice of transport for an
//! outbound URL.
use vstd::prelude::*;
use crate::text::{is_prefix, occurs_at, first_occurrence, chars_of, chars_eq, find, starts_with,
    slice_vec, extend_chars, concat_chars, string_of, any_eq};
use crate::urls::{UrlParts, UrlView, parsed_url, parse_url, spec_url_origin, url_origin,
    port_or_known_default, port_or_default};
use crate::netaddr::{IpAddress, spec_private_or_local, is_private_or_local};
use crate::config::InternalRequestsConfig;

verus! {

pub open spec fn is_delim(c: char) -> bool {
    c == '/' || c == '?' || c == '#'
}

pub open spec fn scheme_sep() -> Seq<char> {
    seq![':', '/', '/']
}

/// Offset of the first URL delimiter (`/`, `?`, `#`) in `s`.
#[verifier::opaque]
pub open spec fn first_delim(s: Seq<char>) -> Option<int> {
    if exists|i: int| 0 <= i < s.len() && is_delim(s[i]) {
        Some(choose|i: int| 0 <= i < s.len() && is_delim(s[i]) && forall|j: int| 0 <= j < i ==> !is_delim(s[j]))
    } else {
        None
    }
}

/// Length of `scheme://authority` in an allow-list entry; the whole
/// entry when it has no `://`.
pub open spec fn spec_authority_len(e: Seq<char>) -> int {
    match first_occurrence(e, scheme_sep()) {
        None => e.len() as int,
        Some(i) => match first_delim(e.skip(i + 3)) {
            Some(off) => i + 3 + off,
            None => e.len() as int,
        },
    }
}

/// The entry has something (path, query or fragment) after its
/// `scheme://authority`.
pub open spec fn spec_has_path_component(e: Seq<char>) -> bool {
    match first_occurrence(e, scheme_sep()) {
        None => false,
        Some(i) => first_delim(e.skip(i + 3)) is Some,
    }
}

/// Path plus `?query` of a parsed URL (the fragment is dropped).
pub open spec fn path_query(u: UrlView) -> Seq<char> {
    match u.query {
        Some(q) => u.path + seq!['?'] + q,
        None => u.path,
    }
}

/// The request continues past the entry at a segment boundary.
pub open spec fn boundary_tail(t: Seq<char>) -> bool {
    t.len() == 0 || t[0] == '/' || t[0] == '?' || t[0] == '#' || t[0] == '&'
}

/// An `allowed_urls` entry admits the request URL (whose origin is
/// `req_origin`). Origin-only entries need an equal origin; entries
/// with a path must be a prefix of the request's origin+path+query that
/// ends at a segment boundary.
pub open spec fn spec_entry_matches(entry: Seq<char>, req_origin: Seq<char>, req: UrlView) -> bool {
    match parsed_url(entry) {
        None => false,
        Some(eu) => match spec_url_origin(eu) {
            None => false,
            Some(eo) => if spec_has_path_component(entry) {
                let req_full = req_origin + path_query(req);
                let entry_full = eo + entry.skip(spec_authority_len(entry));
                &&& eo == req_origin
                &&& is_prefix(entry_full, req_full)
                &&& (is_delim(entry_full.last()) || boundary_tail(req_full.skip(entry_full.len() as int)))
            } else {
                eo == req_origin
            },
        },
    }
}

/// Index of the first delimiter in `s[from..]`.
fn find_delim_from(s: &[char], from: usize) -> (r: Option<usize>)
    requires
        from <= s@.len(),
    ensures
        match r {
            Some(i) => from <= i < s@.len() && first_delim(s@.skip(from as int)) == Some(i - from),
            None => first_delim(s@.skip(from as int)) is None,
        },
{
    reveal(first_delim);
    let mut i = from;
    while i < s.len()
        invariant
            from <= i <= s@.len(),
            forall|j: int| from <= j < i ==> !is_delim(s@[j]),
        decreases s@.len() - i,
    {
        if s[i] == '/' || s[i] == '?' || s[i] == '#' {
            proof {
                reveal(first_delim);
                let t = s@.skip(from as int);
                assert(is_delim(t[i - from]));
                let k = choose|k: int| 0 <= k < t.len() && is_delim(t[k]) && forall|j: int| 0 <= j < k ==> !is_delim(t[j]);
                assert(k == i - from) by {
                    if k < i - from { assert(t[k] == s@[from + k]); }
                    if k > i - from { }
                }
            }
            return Some(i);
        }
        i = i + 1;
    }
    proof {
        let t = s@.skip(from as int);
        assert forall|k: int| 0 <= k < t.len() implies !is_delim(t[k]) by {
            assert(t[k] == s@[from + k]);
        }
    }
    None
}

fn scheme_sep_vec() -> (v: Vec<char>)
    ensures
        v@ == scheme_sep(),
{
    let v = vec![':', '/', '/'];
    assert(v@ =~= scheme_sep());
    v
}

/// Length of `scheme://authority` inside an allow-list entry.
pub fn entry_scheme_authority_len(entry: &[char]) -> (r: usize)
    ensures
        r as int == spec_authority_len(entry@),
        r <= entry@.len(),
{
    let n = entry.len();
    let sep = scheme_sep_vec();
    match find(entry, sep.as_slice()) {
        None => entry.len(),
        Some(i) => {
            proof { assert(occurs_at(entry@, scheme_sep(), i as int)); }
            match find_delim_from(entry, i + 3) {
                Some(j) => j,
                None => entry.len(),
            }
        },
    }
}

/// Does the entry carry a path, query or fragment after its authority?
pub fn has_path_component(entry: &[char]) -> (r: bool)
    ensures
        r == spec_has_path_component(entry@),
{
    let n = entry.len();
    let sep = scheme_sep_vec();
    match find(entry, sep.as_slice()) {
        None => false,
        Some(i) => {
            proof { assert(occurs_at(entry@, scheme_sep(), i as int)); }
            match find_delim_from(entry, i + 3) {
                Some(_) => true,
                None => false,
            }
        },
    }
}

/// Path and query of a parsed URL, `?`-joined.
pub fn req_url_path_query(u: &UrlParts) -> (r: Vec<char>)
    ensures
        r@ == path_query(u@),
{
    let mut out = chars_of(u.path.as_str());
    match &u.query {
        Some(q) => {
            out.push('?');
            let qc = chars_of(q.as_str());
            extend_chars(&mut out, qc.as_slice());
        },
        None => {},
    }
    out
}

/// Does the allow-list entry admit a request to `req_url`, whose origin
/// is `req_origin`?
pub fn allow_entry_matches(entry: &str, req_origin: &[char], req_url: &UrlParts) -> (r: bool)
    ensures
        r == spec_entry_matches(entry@, req_origin@, req_url@),
{
    let eu = match parse_url(entry) {
        Some(u) => u,
        None => { return false; },
    };
    let eo = match url_origin(&eu) {
        Some(o) => o,
        None => { return false; },
    };
    let ec = chars_of(entry);
    if has_path_component(ec.as_slice()) {
        if !chars_eq(eo.as_slice(), req_origin) {
            return false;
        }
        let pq = req_url_path_query(req_url);
        let req_full = concat_chars(req_origin, pq.as_slice());
        let al = entry_scheme_authority_len(ec.as_slice());
        let tail = slice_vec(ec.as_slice(), al, ec.len());
        let entry_full = concat_chars(eo.as_slice(), tail.as_slice());
        proof { assert(tail@ == entry@.skip(al as int)); }
        if !starts_with(req_full.as_slice(), entry_full.as_slice()) {
            return false;
        }
        proof { assert(eo@.len() > 0); }
        let last = entry_full[entry_full.len() - 1];
        if last == '/' || last == '?' || last == '#' {
            return true;
        }
        let n = entry_full.len();
        if n == req_full.len() {
            proof { assert(req_full@.skip(n as int).len() == 0); }
            return true;
        }
        let c = req_full[n];
        proof { assert(req_full@.skip(n as int)[0] == c); }
        c == '/' || c == '?' || c == '#' || c == '&'
    } else {
        chars_eq(eo.as_slice(), req_origin)
    }
}

/// Why an outbound call was refused.
#[derive(Debug, Clone, Copy, PartialEq, Eq, Structural)]
pub enum SsrfRejection {
    /// `internal_requests.disabled` is set.
    Disabled,
    /// The URL does not parse (while checking `allowed_urls`).
    UrlUnparseable,
    /// The URL does not parse (while checking `allowed_ips` or the
    /// private-network block).
    InvalidUrl,
    /// The URL has no http(s) origin to compare with `allowed_urls`.
    NoOrigin,
    /// No `allowed_urls` entry admits the URL.
    NotInAllowedUrls,
    /// The URL has no host.
    NoHost,
    /// The host is not listed in `allowed_ips`.
    HostNotInAllowedIps,
    /// The host is an IP address in a private or local range.
    PrivateTarget,
    /// The host name resolves to a private or local address.
    PrivateResolved,
}

/// Outcome of the checks that need no name resolution.
#[derive(Debug, Clone)]
pub enum SsrfVerdict {
    Allowed,
    Rejected(SsrfRejection),
    /// The private-network block applies: every address of `host`
    /// (the host itself when it is an IP literal, else its DNS answers)
    /// must be checked with [`addresses_allowed`].
    CheckHost { host: String, port: u16 },
}

pub open spec fn any_entry_matches(entries: Seq<String>, req_origin: Seq<char>, req: UrlView) -> bool {
    exists|i: int| 0 <= i < entries.len() && spec_entry_matches(#[trigger] entries[i]@, req_origin, req)
}

pub open spec fn in_list(list: Seq<String>, s: Seq<char>) -> bool {
    exists|i: int| 0 <= i < list.len() && (#[trigger] list[i])@ == s
}

/// The verdict, as an `Option`: `None` = allowed, `Some(Err(r))` =
/// rejected, `Some(Ok((host, port)))` = host check needed.
pub open spec fn spec_ssrf(p: InternalRequestsConfig, url: Seq<char>) -> Option<Result<(Seq<char>, u16), SsrfRejection>> {
    if p.disabled {
        Some(Err(SsrfRejection::Disabled))
    } else if p.allowed_urls@.len() > 0 && (match parsed_url(url) {
        None => true,
        Some(u) => match spec_url_origin(u) {
            None => true,
            Some(o) => !any_entry_matches(p.allowed_urls@, o, u),
        },
    }) {
        match parsed_url(url) {
            None => Some(Err(SsrfRejection::UrlUnparseable)),
            Some(u) => match spec_url_origin(u) {
                None => Some(Err(SsrfRejection::NoOrigin)),
                Some(_) => Some(Err(SsrfRejection::NotInAllowedUrls)),
            },
        }
    } else if p.allowed_ips@.len() > 0 && (match parsed_url(url) {
        None => true,
        Some(u) => match u.host {
            None => true,
            Some(h) => !in_list(p.allowed_ips@, h),
        },
    }) {
        match parsed_url(url) {
            None => Some(Err(SsrfRejection::InvalidUrl)),
            Some(u) => match u.host {
                None => Some(Err(SsrfRejection::NoHost)),
                Some(_) => Some(Err(SsrfRejection::HostNotInAllowedIps)),
            },
        }
    } else if p.block_private_networks && p.allowed_urls@.len() == 0 && p.allowed_ips@.len() == 0 {
        match parsed_url(url) {
            None => Some(Err(SsrfRejection::InvalidUrl)),
            Some(u) => match u.host {
                None => Some(Err(SsrfRejection::NoHost)),
                Some(h) => Some(Ok((h, match port_or_known_default(u) { Some(pt) => pt, None => 0u16 }))),
            },
        }
    } else {
        None
    }
}

pub open spec fn verdict_view(v: SsrfVerdict) -> Option<Result<(Seq<char>, u16), SsrfRejection>> {
    match v {
        SsrfVerdict::Allowed => None,
        SsrfVerdict::Rejected(r) => Some(Err(r)),
        SsrfVerdict::CheckHost { host, port } => Some(Ok((host@, port))),
    }
}

fn any_allow_entry(entries: &Vec<String>, req_origin: &[char], req_url: &UrlParts) -> (r: bool)
    ensures
        r == any_entry_matches(entries@, req_origin@, req_url@),
{
    let mut i: usize = 0;
    while i < entries.len()
        invariant
            i <= entries@.len(),
            forall|j: int| 0 <= j < i ==> !spec_entry_matches(#[trigger] entries@[j]@, req_origin@, req_url@),
        decreases entries@.len() - i,
    {
        if allow_entry_matches(entries[i].as_str(), req_origin, req_url) {
            return true;
        }
        i = i + 1;
    }
    false
}

fn host_in_list(list: &Vec<String>, host: &String) -> (r: bool)
    ensures
        r == in_list(list@, host@),
{
    let hc = chars_of(host.as_str());
    any_eq(list, hc.as_slice())
}

/// The policy checks that need no DNS: the disabled switch, the two
/// allow-lists, and (when both allow-lists are empty and the block is
/// on) which host must be checked against the private ranges.
pub fn check_ssrf(policy: &InternalRequestsConfig, url: &str) -> (r: SsrfVerdict)
    ensures
        verdict_view(r) == spec_ssrf(*policy, url@),
{
    if policy.disabled {
        return SsrfVerdict::Rejected(SsrfRejection::Disabled);
    }
    if policy.allowed_urls.len() > 0 {
        let parsed = match parse_url(url) {
            Some(u) => u,
            None => { return SsrfVerdict::Rejected(SsrfRejection::UrlUnparseable); },
        };
        let origin = match url_origin(&parsed) {
            Some(o) => o,
            None => { return SsrfVerdict::Rejected(SsrfRejection::NoOrigin); },
        };
        if !any_allow_entry(&policy.allowed_urls, origin.as_slice(), &parsed) {
            return SsrfVerdict::Rejected(SsrfRejection::NotInAllowedUrls);
        }
    }
    if policy.allowed_ips.len() > 0 {
        let parsed = match parse_url(url) {
            Some(u) => u,
            None => { return SsrfVerdict::Rejected(SsrfRejection::InvalidUrl); },
        };
        match &parsed.host {
            None => { return SsrfVerdict::Rejected(SsrfRejection::NoHost); },
            Some(h) => {
                if !host_in_list(&policy.allowed_ips, h) {
                    return SsrfVerdict::Rejected(SsrfRejection::HostNotInAllowedIps);
                }
            },
        }
    }
    if policy.block_private_networks && policy.allowed_urls.len() == 0 && policy.allowed_ips.len() == 0 {
        let parsed = match parse_url(url) {
            Some(u) => u,
            None => { return SsrfVerdict::Rejected(SsrfRejection::InvalidUrl); },
        };
        let port = match port_or_default(&parsed) {
            Some(p) => p,
            None => 0,
        };
        match parsed.host {
            None => { return SsrfVerdict::Rejected(SsrfRejection::NoHost); },
            Some(h) => { return SsrfVerdict::CheckHost { host: h, port }; },
        }
    }
    SsrfVerdict::Allowed
}

/// Final step of the private-network block: the host is refused when
/// any of its addresses is private or local; `Err(i)` names the first
/// such address.
pub fn addresses_allowed(addrs: &Vec<IpAddress>) -> (r: Result<(), usize>)
    ensures
        r is Ok <==> forall|i: int| 0 <= i < addrs@.len() ==> !spec_private_or_local(#[trigger] addrs@[i]),
        r matches Err(k) ==> k < addrs@.len() && spec_private_or_local(addrs@[k as int])
            && forall|i: int| 0 <= i < k ==> !spec_private_or_local(#[trigger] addrs@[i]),
{
    let mut i: usize = 0;
    while i < addrs.len()
        invariant
            i <= addrs@.len(),
            forall|j: int| 0 <= j < i ==> !spec_private_or_local(#[trigger] addrs@[j]),
        decreases addrs@.len() - i,
    {
        if is_private_or_local(addrs[i]) {
            return Err(i);
        }
        i = i + 1;
    }
    Ok(())
}

/// What the opt-in hint of a private-network refusal says.
pub open spec fn opt_in_hint() -> Seq<char> {
    " (set internal_requests.block_private_networks=false or add the host to internal_requests.allowed_ips to opt in)"@
}

/// The text of a refusal of `url`, whose host is `host`. `detail` is
/// the URL parser's error for `UrlUnparseable` and `InvalidUrl`, and
/// the resolved address for `PrivateResolved`; other refusals do not
/// use it.
pub open spec fn rejection_text(r: SsrfRejection, url: Seq<char>, host: Seq<char>, detail: Seq<char>) -> Seq<char> {
    match r {
        SsrfRejection::Disabled => "outbound HTTP is disabled by internal_requests.disabled"@,
        SsrfRejection::UrlUnparseable => "url not in internal_requests.allowed_urls (unparseable '"@ + url + "'): "@ + detail,
        SsrfRejection::NoOrigin => "url not in internal_requests.allowed_urls (no origin): "@ + url,
        SsrfRejection::NotInAllowedUrls => "url not in internal_requests.allowed_urls: "@ + url,
        SsrfRejection::InvalidUrl => "invalid url '"@ + url + "': "@ + detail,
        SsrfRejection::NoHost => "url has no host: "@ + url,
        SsrfRejection::HostNotInAllowedIps => "url host '"@ + host + "' not in internal_requests.allowed_ips"@,
        SsrfRejection::PrivateTarget => "outbound to private / link-local target '"@ + host + "' blocked"@ + opt_in_hint(),
        SsrfRejection::PrivateResolved => "outbound to '"@ + host + "' blocked: DNS resolved to private / link-local "@
            + detail + opt_in_hint(),
    }
}

impl SsrfRejection {
    /// The message an outbound call refused for this reason fails with.
    pub fn message(&self, url: &str, host: &str, detail: &str) -> (r: String)
        ensures
            r@ == rejection_text(*self, url@, host@, detail@),
    {
        let mut m: Vec<char> = Vec::new();
        match self {
            SsrfRejection::Disabled => {
                extend_chars(&mut m, chars_of("outbound HTTP is disabled by internal_requests.disabled").as_slice());
            },
            SsrfRejection::UrlUnparseable => {
                extend_chars(&mut m, chars_of("url not in internal_requests.allowed_urls (unparseable '").as_slice());
                extend_chars(&mut m, chars_of(url).as_slice());
                extend_chars(&mut m, chars_of("'): ").as_slice());
                extend_chars(&mut m, chars_of(detail).as_slice());
            },
            SsrfRejection::NoOrigin => {
                extend_chars(&mut m, chars_of("url not in internal_requests.allowed_urls (no origin): ").as_slice());
                extend_chars(&mut m, chars_of(url).as_slice());
            },
            SsrfRejection::NotInAllowedUrls => {
                extend_chars(&mut m, chars_of("url not in internal_requests.allowed_urls: ").as_slice());
                extend_chars(&mut m, chars_of(url).as_slice());
            },
            SsrfRejection::InvalidUrl => {
                extend_chars(&mut m, chars_of("invalid url '").as_slice());
                extend_chars(&mut m, chars_of(url).as_slice());
                extend_chars(&mut m, chars_of("': ").as_slice());
                extend_chars(&mut m, chars_of(detail).as_slice());
            },
            SsrfRejection::NoHost => {
                extend_chars(&mut m, chars_of("url has no host: ").as_slice());
                extend_chars(&mut m, chars_of(url).as_slice());
            },
            SsrfRejection::HostNotInAllowedIps => {
                extend_chars(&mut m, chars_of("url host '").as_slice());
                extend_chars(&mut m, chars_of(host).as_slice());
                extend_chars(&mut m, chars_of("' not in internal_requests.allowed_ips").as_slice());
            },
            SsrfRejection::PrivateTarget => {
                extend_chars(&mut m, chars_of("outbound to private / link-local target '").as_slice());
                extend_chars(&mut m, chars_of(host).as_slice());
                extend_chars(&mut m, chars_of("' blocked").as_slice());
                extend_chars(&mut m, chars_of(" (set internal_requests.block_private_networks=false or add the host to internal_requests.allowed_ips to opt in)").as_slice());
            },
            SsrfRejection::PrivateResolved => {
                extend_chars(&mut m, chars_of("outbound to '").as_slice());
                extend_chars(&mut m, chars_of(host).as_slice());
                extend_chars(&mut m, chars_of("' blocked: DNS resolved to private / link-local ").as_slice());
                extend_chars(&mut m, chars_of(detail).as_slice());
                extend_chars(&mut m, chars_of(" (set internal_requests.block_private_networks=false or add the host to internal_requests.allowed_ips to opt in)").as_slice());
            },
        }
        string_of(m.as_slice())
    }
}

} // verus!
