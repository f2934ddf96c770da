//! Outbound calls over Unix-domain sockets: the `unix://` URL form and
//! the request head sent on the socket.
use vstd::prelude::*;
use crate::text::{chars_of, string_of, substring, slice_vec, find, first_occurrence, occurs_at, find_char,
    first_char, starts_with, is_prefix, chars_eq, eq_ignore_case, eq_ignore_ascii_case, decimal_string, decimal,
    utf8_len, string_views, extend_chars};
use crate::json::{JsonValue, json_text, to_json_string};
use crate::outbound::{value_text, value_string};

verus! {

/// Why a `unix://` URL is refused.
#[derive(Debug, Clone, Copy, PartialEq, Eq, Structural)]
pub enum UnixUrlError {
    /// The URL does not start with `unix://`.
    NotUnixScheme,
    /// No `/` follows the scheme.
    MissingLeadingSlash,
}

/// The text of a refused `unix://` URL.
pub open spec fn unix_url_error_text(e: UnixUrlError, url: Seq<char>) -> Seq<char> {
    match e {
        UnixUrlError::NotUnixScheme => "not a unix:// URL: "@ + url,
        UnixUrlError::MissingLeadingSlash => "unix:// URL missing leading / after scheme: "@ + url,
    }
}

impl UnixUrlError {
    /// The message a call to the refused `url` fails with.
    pub fn message(&self, url: &str) -> (r: String)
        ensures
            r@ == unix_url_error_text(*self, url@),
    {
        let mut m = match self {
            UnixUrlError::NotUnixScheme => chars_of("not a unix:// URL: "),
            UnixUrlError::MissingLeadingSlash => chars_of("unix:// URL missing leading / after scheme: "),
        };
        extend_chars(&mut m, chars_of(url).as_slice());
        string_of(m.as_slice())
    }
}

pub open spec fn unix_prefix() -> Seq<char> {
    seq!['u', 'n', 'i', 'x', ':', '/', '/']
}

pub open spec fn socket_marker() -> Seq<char> {
    seq!['.', 's', 'o', 'c', 'k', 'e', 't']
}

pub open spec fn sock_marker() -> Seq<char> {
    seq!['.', 's', 'o', 'c', 'k']
}

/// `(socket path, request target)` of a `unix://` URL: the text after
/// the scheme must start with `/`. The socket path ends right after the
/// first `.socket`, else the first `.sock`; without either marker it is
/// the first path segment. An empty request target becomes `/`.
pub open spec fn spec_parse_unix_url(url: Seq<char>) -> Result<(Seq<char>, Seq<char>), UnixUrlError> {
    if !is_prefix(unix_prefix(), url) {
        Err(UnixUrlError::NotUnixScheme)
    } else {
        let rest = url.skip(7);
        if rest.len() == 0 || rest[0] != '/' {
            Err(UnixUrlError::MissingLeadingSlash)
        } else {
            let marker_end = match first_occurrence(rest, socket_marker()) {
                Some(p) => Some(p + 7),
                None => match first_occurrence(rest, sock_marker()) {
                    Some(p) => Some(p + 5),
                    None => None,
                },
            };
            match marker_end {
                Some(end) => {
                    let tail = rest.skip(end);
                    Ok((rest.subrange(0, end), if tail.len() == 0 { seq!['/'] } else { tail }))
                },
                None => {
                    let after = rest.skip(1);
                    match first_char(after, '/') {
                        Some(i) => Ok((seq!['/'] + after.subrange(0, i), after.skip(i))),
                        None => Ok((rest, seq!['/'])),
                    }
                },
            }
        }
    }
}

/// Split `unix:///abs/socket.sock/rest?q=1` into the socket path and
/// the request target (`/rest?q=1`).
pub fn parse_unix_url(url: &str) -> (r: Result<(String, String), UnixUrlError>)
    ensures
        match r {
            Ok((sock, target)) => spec_parse_unix_url(url@) == Ok::<(Seq<char>, Seq<char>), UnixUrlError>((sock@, target@)),
            Err(e) => spec_parse_unix_url(url@) == Err::<(Seq<char>, Seq<char>), UnixUrlError>(e),
        },
{
    let c = chars_of(url);
    let n = c.len();
    if !starts_with(c.as_slice(), &['u', 'n', 'i', 'x', ':', '/', '/']) {
        return Err(UnixUrlError::NotUnixScheme);
    }
    let rest = slice_vec(c.as_slice(), 7, n);
    proof { assert(rest@ =~= url@.skip(7)); }
    let m = rest.len();
    if m == 0 || rest[0] != '/' {
        return Err(UnixUrlError::MissingLeadingSlash);
    }
    let end: Option<usize> = match find(rest.as_slice(), &['.', 's', 'o', 'c', 'k', 'e', 't']) {
        Some(p) => Some(p + 7),
        None => match find(rest.as_slice(), &['.', 's', 'o', 'c', 'k']) {
            Some(p) => Some(p + 5),
            None => None,
        },
    };
    match end {
        Some(e) => {
            let sock = substring(rest.as_slice(), 0, e);
            let tail = slice_vec(rest.as_slice(), e, m);
            proof { assert(tail@ =~= rest@.skip(e as int)); }
            let target = if tail.len() == 0 { "/".to_owned() } else { string_of(tail.as_slice()) };
            proof {
                if tail@.len() == 0 {
                    reveal_strlit("/");
                    assert("/"@ =~= seq!['/']);
                }
            }
            Ok((sock, target))
        },
        None => {
            let after = slice_vec(rest.as_slice(), 1, m);
            proof { assert(after@ =~= rest@.skip(1)); }
            let k = after.len();
            match find_char(after.as_slice(), '/') {
                Some(i) => {
                    let mut sock: Vec<char> = Vec::new();
                    sock.push('/');
                    let head = slice_vec(after.as_slice(), 0, i);
                    crate::text::extend_chars(&mut sock, head.as_slice());
                    proof { assert(sock@ =~= seq!['/'] + after@.subrange(0, i as int)); }
                    let tail = slice_vec(after.as_slice(), i, k);
                    proof { assert(tail@ =~= after@.skip(i as int)); }
                    Ok((string_of(sock.as_slice()), string_of(tail.as_slice())))
                },
                None => {
                    proof {
                        reveal_strlit("/");
                        assert("/"@ =~= seq!['/']);
                    }
                    Ok((string_of(rest.as_slice()), "/".to_owned()))
                },
            }
        },
    }
}

/// Header values as strings (a JSON string as it is, anything else as
/// its compact JSON text).
pub open spec fn header_texts(hs: Seq<(String, JsonValue)>) -> Seq<(Seq<char>, Seq<char>)> {
    hs.map_values(|h: (String, JsonValue)| (h.0@, value_text(h.1)))
}

pub open spec fn pair_views(hs: Seq<(String, String)>) -> Seq<(Seq<char>, Seq<char>)> {
    hs.map_values(|h: (String, String)| (h.0@, h.1@))
}

/// The request sent on the socket: its header list and body text.
#[derive(Debug)]
pub struct UdsRequest {
    pub headers: Vec<(String, String)>,
    /// Compact JSON text of the body; empty without a body.
    pub body: String,
}

/// The request head of a Unix-socket call: `host` first, then the
/// step's headers, then `content-length` and `content-type:
/// application/json` when there is a body and the step did not set
/// them. The body is the compact JSON text of the step's body.
pub fn uds_request(origin_host: &str, headers: &Vec<(String, JsonValue)>, body: &Option<JsonValue>) -> (r: UdsRequest)
    ensures
        ({
            let body_text = match *body { Some(b) => json_text(b), None => Seq::empty() };
            let step = header_texts(headers@);
            let base = seq![("host"@, origin_host@)] + step;
            let with_len = if body_text.len() > 0 && !has_header_text(step, "content-length"@) {
                base.push(("content-length"@, decimal(utf8_len(body_text))))
            } else {
                base
            };
            let all = if body_text.len() > 0 && !has_header_text(step, "content-type"@) {
                with_len.push(("content-type"@, "application/json"@))
            } else {
                with_len
            };
            &&& r.body@ == body_text
            &&& pair_views(r.headers@) == all
        }),
{
    let body_text = match body { Some(b) => to_json_string(b), None => String::new() };
    let bc = chars_of(body_text.as_str());
    let mut out: Vec<(String, String)> = Vec::new();
    out.push(("host".to_owned(), origin_host.to_owned()));
    let mut has_len = false;
    let mut has_type = false;
    let lname = chars_of("content-length");
    let tname = chars_of("content-type");
    let mut i: usize = 0;
    while i < headers.len()
        invariant
            i <= headers@.len(),
            lname@ == "content-length"@,
            tname@ == "content-type"@,
            pair_views(out@) == seq![("host"@, origin_host@)] + header_texts(headers@.subrange(0, i as int)),
            has_len == has_header_text(header_texts(headers@.subrange(0, i as int)), "content-length"@),
            has_type == has_header_text(header_texts(headers@.subrange(0, i as int)), "content-type"@),
        decreases headers@.len() - i,
    {
        let ghost before = pair_views(out@);
        let kc = chars_of(headers[i].0.as_str());
        if eq_ignore_ascii_case(kc.as_slice(), lname.as_slice()) {
            has_len = true;
        }
        if eq_ignore_ascii_case(kc.as_slice(), tname.as_slice()) {
            has_type = true;
        }
        let v = value_string(&headers[i].1);
        out.push((headers[i].0.clone(), v));
        i = i + 1;
        proof {
            let pre = header_texts(headers@.subrange(0, i - 1));
            let cur = header_texts(headers@.subrange(0, i as int));
            assert(cur =~= pre.push((headers@[i - 1].0@, value_text(headers@[i - 1].1))));
            assert(pair_views(out@) =~= before.push((headers@[i - 1].0@, value_text(headers@[i - 1].1))));
            lemma_has_header_push(pre, (headers@[i - 1].0@, value_text(headers@[i - 1].1)), "content-length"@);
            lemma_has_header_push(pre, (headers@[i - 1].0@, value_text(headers@[i - 1].1)), "content-type"@);
        }
    }
    proof { assert(headers@.subrange(0, headers@.len() as int) =~= headers@); }
    if bc.len() > 0 && !has_len {
        let ghost before = pair_views(out@);
        let blen = crate::outbound::utf8_len_wide(bc.as_slice());
        out.push(("content-length".to_owned(), decimal_string(blen)));
        proof { assert(pair_views(out@) =~= before.push(("content-length"@, decimal(utf8_len(bc@))))); }
    }
    if bc.len() > 0 && !has_type {
        let ghost before = pair_views(out@);
        out.push(("content-type".to_owned(), "application/json".to_owned()));
        proof { assert(pair_views(out@) =~= before.push(("content-type"@, "application/json"@))); }
    }
    UdsRequest { headers: out, body: body_text }
}

/// Some header in `hs` is named `name`, up to ASCII case.
pub open spec fn has_header_text(hs: Seq<(Seq<char>, Seq<char>)>, name: Seq<char>) -> bool {
    exists|i: int| 0 <= i < hs.len() && eq_ignore_case((#[trigger] hs[i]).0, name)
}

proof fn lemma_has_header_push(hs: Seq<(Seq<char>, Seq<char>)>, h: (Seq<char>, Seq<char>), name: Seq<char>)
    ensures
        has_header_text(hs.push(h), name) == (has_header_text(hs, name) || eq_ignore_case(h.0, name)),
{
    let hp = hs.push(h);
    if has_header_text(hs, name) {
        let i = choose|i: int| 0 <= i < hs.len() && eq_ignore_case((#[trigger] hs[i]).0, name);
        assert(hp[i] == hs[i]);
    }
    if eq_ignore_case(h.0, name) {
        assert(hp[hs.len() as int] == h);
    }
    if has_header_text(hp, name) {
        let i = choose|i: int| 0 <= i < hp.len() && eq_ignore_case((#[trigger] hp[i]).0, name);
        if i < hs.len() { assert(hp[i] == hs[i]); }
    }
}

} // verus!
