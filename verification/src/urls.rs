//! URL parts as plain values. Parsing is done by the `url` crate; the
//! library only reads the scheme, host, explicit port, path and query
//! of the parsed URL.
use vstd::prelude::*;
use crate::text::{chars_eq, chars_of, extend_chars, push_decimal, decimal, string_of};

verus! {

/// The parts of a parsed URL that the routing and SSRF rules read.
#[derive(Debug, Clone)]
pub struct UrlParts {
    pub scheme: String,
    pub host: Option<String>,
    /// Port written in the URL (`None` when absent or equal to the
    /// scheme's default).
    pub port: Option<u16>,
    pub path: String,
    pub query: Option<String>,
}

/// Spec view of [`UrlParts`].
pub struct UrlView {
    pub scheme: Seq<char>,
    pub host: Option<Seq<char>>,
    pub port: Option<u16>,
    pub path: Seq<char>,
    pub query: Option<Seq<char>>,
}

pub open spec fn opt_view(o: Option<String>) -> Option<Seq<char>> {
    match o {
        Some(s) => Some(s@),
        None => None,
    }
}

impl View for UrlParts {
    type V = UrlView;

    open spec fn view(&self) -> UrlView {
        UrlView {
            scheme: self.scheme@,
            host: opt_view(self.host),
            port: self.port,
            path: self.path@,
            query: opt_view(self.query),
        }
    }
}

pub open spec fn opt_url_view(o: Option<UrlParts>) -> Option<UrlView> {
    match o {
        Some(u) => Some(u@),
        None => None,
    }
}

/// What the `url` crate's parser makes of a string (`None`: rejected).
pub uninterp spec fn parsed_url(s: Seq<char>) -> Option<UrlView>;

/// Default port of the schemes the `url` crate knows.
pub open spec fn known_default_port(scheme: Seq<char>) -> Option<u16> {
    if scheme == seq!['h', 't', 't', 'p'] || scheme == seq!['w', 's'] {
        Some(80)
    } else if scheme == seq!['h', 't', 't', 'p', 's'] || scheme == seq!['w', 's', 's'] {
        Some(443)
    } else if scheme == seq!['f', 't', 'p'] {
        Some(21)
    } else {
        None
    }
}

/// Explicit port, else the scheme's known default.
pub open spec fn port_or_known_default(u: UrlView) -> Option<u16> {
    match u.port {
        Some(p) => Some(p),
        None => known_default_port(u.scheme),
    }
}

/// Parse `s` with `url::Url::parse`; the parts are copied out of the
/// parsed URL. Claimed: the result is the parser's verdict on `s`
/// (named [`parsed_url`]), nothing more.
#[verifier::external_body]
pub(crate) fn parse_url(s: &str) -> (r: Option<UrlParts>)
    ensures
        opt_url_view(r) == parsed_url(s@),
{
    match url::Url::parse(s) {
        Ok(u) => Some(UrlParts {
            scheme: u.scheme().to_string(),
            host: u.host_str().map(str::to_string),
            port: u.port(),
            path: u.path().to_string(),
            query: u.query().map(str::to_string),
        }),
        Err(_) => None,
    }
}

pub open spec fn http_seq() -> Seq<char> {
    seq!['h', 't', 't', 'p']
}

pub open spec fn https_seq() -> Seq<char> {
    seq!['h', 't', 't', 'p', 's']
}

/// `scheme://host:port` of an http(s) URL with a host; `None` for any
/// other URL.
pub open spec fn spec_url_origin(u: UrlView) -> Option<Seq<char>> {
    if (u.scheme == http_seq() || u.scheme == https_seq()) && u.host is Some {
        let port = port_or_known_default(u).unwrap();
        Some(u.scheme + seq![':', '/', '/'] + u.host.unwrap() + seq![':'] + decimal(port as nat))
    } else {
        None
    }
}

pub fn is_http_or_https(scheme: &[char]) -> (r: bool)
    ensures
        r == (scheme@ == http_seq() || scheme@ == https_seq()),
{
    chars_eq(scheme, &['h', 't', 't', 'p']) || chars_eq(scheme, &['h', 't', 't', 'p', 's'])
}

/// Port of `u`, or its scheme's known default.
pub fn port_or_default(u: &UrlParts) -> (r: Option<u16>)
    ensures
        r == port_or_known_default(u@),
{
    match u.port {
        Some(p) => Some(p),
        None => {
            let sc = chars_of(u.scheme.as_str());
            if chars_eq(sc.as_slice(), &['h', 't', 't', 'p']) || chars_eq(sc.as_slice(), &['w', 's']) {
                Some(80)
            } else if chars_eq(sc.as_slice(), &['h', 't', 't', 'p', 's']) || chars_eq(sc.as_slice(), &['w', 's', 's']) {
                Some(443)
            } else if chars_eq(sc.as_slice(), &['f', 't', 'p']) {
                Some(21)
            } else {
                None
            }
        },
    }
}

/// The origin (`scheme://host:port`, port always written) of an
/// http/https URL; `None` for other schemes or when there is no host.
pub fn url_origin(u: &UrlParts) -> (r: Option<Vec<char>>)
    ensures
        match r {
            Some(v) => spec_url_origin(u@) == Some(v@),
            None => spec_url_origin(u@) is None,
        },
{
    let sc = chars_of(u.scheme.as_str());
    if !is_http_or_https(sc.as_slice()) {
        return None;
    }
    match &u.host {
        None => None,
        Some(h) => {
            let port = match port_or_default(u) {
                Some(p) => p,
                None => { return None; },
            };
            let mut out = sc;
            extend_chars(&mut out, &[':', '/', '/']);
            let hc = chars_of(h.as_str());
            extend_chars(&mut out, hc.as_slice());
            out.push(':');
            push_decimal(&mut out, port as u128);
            Some(out)
        },
    }
}

} // verus!
