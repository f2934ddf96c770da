//! Outbound HTTP decisions: which transport an `http.*` step's URL
//! takes (refused, in-process self-call, Unix socket, TCP), the query
//! string appended for Unix-socket calls, and the status and size
//! gates applied to upstream responses.
use vstd::prelude::*;
use crate::text::{chars_of, chars_eq, string_of, slice_vec, find_char, first_char, starts_with, is_prefix,
    extend_chars, push_chars, utf8_char_len, utf8_len, has_char, decimal_string, decimal};
use crate::json::{JsonValue, digits_value, is_digit, json_text, to_json_string, json_parse_result, parse_json_bytes};
use crate::urls::{UrlParts, UrlView, parsed_url, parse_url, opt_view, http_seq, https_seq};
use crate::config::{AppConfig, ListenerConfig};

verus! {

/// `s` as an unsigned decimal (`str::parse` for an unsigned integer
/// type whose largest value is `max`): an optional `+`, then at least
/// one ASCII digit, and a value no larger than `max`.
pub open spec fn spec_parse_unsigned(s: Seq<char>, max: nat) -> Option<nat> {
    if all_digits(unsigned_body(s)) && digits_value(unsigned_body(s)) <= max {
        Some(digits_value(unsigned_body(s)))
    } else {
        None
    }
}

/// `s` without a leading `+`.
pub open spec fn unsigned_body(s: Seq<char>) -> Seq<char> {
    if s.len() > 0 && s[0] == '+' { s.skip(1) } else { s }
}

/// `d` is a non-empty string of ASCII digits.
pub open spec fn all_digits(d: Seq<char>) -> bool {
    d.len() > 0 && forall|i: int| 0 <= i < d.len() ==> is_digit(#[trigger] d[i])
}

/// A longer digit string has at least the value of its prefix.
proof fn lemma_digits_prefix(s: Seq<char>, k: int)
    requires
        0 <= k <= s.len(),
        forall|j: int| 0 <= j < s.len() ==> is_digit(#[trigger] s[j]),
    ensures
        digits_value(s.subrange(0, k)) <= digits_value(s),
{
    crate::json::lemma_digits_value_monotone(s, k);
}

/// Parse an unsigned decimal no larger than `max`.
pub fn parse_unsigned(s: &[char], max: u64) -> (r: Option<u64>)
    ensures
        match r {
            Some(v) => spec_parse_unsigned(s@, max as nat) == Some(v as nat),
            None => spec_parse_unsigned(s@, max as nat) is None,
        },
{
    let n = s.len();
    let start: usize = if n > 0 && s[0] == '+' { 1 } else { 0 };
    let ghost d = unsigned_body(s@);
    proof { assert(d =~= s@.skip(start as int)); }
    if start >= n {
        return None;
    }
    let mut acc: u64 = 0;
    let mut i = start;
    while i < n
        invariant
            start <= i <= n,
            n == s@.len(),
            d == s@.skip(start as int),
            d == unsigned_body(s@),
            forall|j: int| start <= j < i ==> is_digit(#[trigger] s@[j]),
            acc as nat == digits_value(d.subrange(0, i - start)),
            acc <= max,
        decreases n - i,
    {
        let c = s[i];
        if !('0' <= c && c <= '9') {
            proof {
                assert(d[i - start] == c);
                assert(!is_digit(d[i - start]));
                assert(!all_digits(d));
            }
            return None;
        }
        let dv = (c as u32 - 48) as u64;
        proof {
            assert(d.subrange(0, i - start + 1).drop_last() =~= d.subrange(0, i - start));
            assert(d.subrange(0, i - start + 1).last() == c);
        }
        if dv > max || acc > (max - dv) / 10 {
            proof {
                assert(digits_value(d.subrange(0, i - start + 1)) == acc * 10 + dv);
                assert(acc * 10 + dv > max) by (nonlinear_arith)
                    requires dv > max || acc > (max - dv) / 10, dv <= 9, acc <= max;
                if all_digits(d) {
                    lemma_digits_prefix(d, i - start + 1);
                }
            }
            return None;
        }
        proof {
            assert(acc * 10 + dv <= max) by (nonlinear_arith)
                requires acc <= (max - dv) / 10, dv <= max, dv <= 9;
        }
        acc = acc * 10 + dv;
        i = i + 1;
    }
    proof {
        assert(d.subrange(0, n - start) =~= d);
        assert forall|j: int| 0 <= j < d.len() implies is_digit(#[trigger] d[j]) by {
            assert(d[j] == s@[j + start]);
        }
    }
    Some(acc)
}

/// `str::parse::<u16>`.
pub fn parse_u16(s: &[char]) -> (r: Option<u16>)
    ensures
        match r {
            Some(v) => spec_parse_unsigned(s@, 65535) == Some(v as nat),
            None => spec_parse_unsigned(s@, 65535) is None,
        },
{
    match parse_unsigned(s, 65535) {
        Some(v) => Some(v as u16),
        None => None,
    }
}

/// Index of the last occurrence of `c` in `s`.
pub open spec fn last_char(s: Seq<char>, c: char) -> Option<int> {
    if s.contains(c) {
        Some(choose|i: int| 0 <= i < s.len() && s[i] == c && forall|j: int| i < j < s.len() ==> s[j] != c)
    } else {
        None
    }
}

pub(crate) fn rfind_char(s: &[char], c: char) -> (r: Option<usize>)
    ensures
        match r {
            Some(i) => i < s@.len() && s@[i as int] == c && last_char(s@, c) == Some(i as int)
                && forall|j: int| i < j < s@.len() ==> s@[j] != c,
            None => last_char(s@, c) is None,
        },
{
    let mut k = s.len();
    while k > 0
        invariant
            k <= s@.len(),
            forall|j: int| k <= j < s@.len() ==> s@[j] != c,
        decreases k,
    {
        if s[k - 1] == c {
            proof {
                let i = (k - 1) as int;
                assert(s@.contains(c));
                let w = choose|w: int| 0 <= w < s@.len() && s@[w] == c && forall|j: int| w < j < s@.len() ==> s@[j] != c;
                assert(w == i) by {
                    if w < i { assert(s@[i] != c); } else if w > i { assert(s@[w] != c); }
                }
            }
            return Some(k - 1);
        }
        k = k - 1;
    }
    proof {
        assert(!s@.contains(c)) by {
            if s@.contains(c) {
                let w = choose|w: int| 0 <= w < s@.len() && s@[w] == c;
                assert(s@[w] != c);
            }
        }
    }
    None
}

/// `host:port`, or `[v6]:port` (the host keeps its brackets).
pub open spec fn spec_split_host_port(s: Seq<char>) -> Option<(Seq<char>, u16)> {
    if s.len() > 0 && s[0] == '[' {
        let st = s.skip(1);
        match first_char(st, ']') {
            None => None,
            Some(end) => {
                let rest = st.skip(end + 1);
                if rest.len() > 0 && rest[0] == ':' {
                    match spec_parse_unsigned(rest.skip(1), 65535) {
                        Some(p) => Some((seq!['['] + st.subrange(0, end) + seq![']'], p as u16)),
                        None => None,
                    }
                } else {
                    None
                }
            },
        }
    } else {
        match last_char(s, ':') {
            None => None,
            Some(i) => match spec_parse_unsigned(s.skip(i + 1), 65535) {
                Some(p) => Some((s.subrange(0, i), p as u16)),
                None => None,
            },
        }
    }
}

/// Split a listener bind spec into host and port.
pub fn split_host_port(s: &str) -> (r: Option<(String, u16)>)
    ensures
        match r {
            Some((h, p)) => spec_split_host_port(s@) == Some((h@, p)),
            None => spec_split_host_port(s@) is None,
        },
{
    let c = chars_of(s);
    let n = c.len();
    if n > 0 && c[0] == '[' {
        let st = slice_vec(c.as_slice(), 1, n);
        proof { assert(st@ =~= s@.skip(1)); }
        let m = st.len();
        let end = match find_char(st.as_slice(), ']') { Some(e) => e, None => { return None; } };
        let rest = slice_vec(st.as_slice(), end + 1, m);
        proof { assert(rest@ =~= st@.skip(end + 1)); }
        let k = rest.len();
        if k > 0 && rest[0] == ':' {
            let ps = slice_vec(rest.as_slice(), 1, k);
            proof { assert(ps@ =~= rest@.skip(1)); }
            match parse_u16(ps.as_slice()) {
                Some(p) => {
                    let mut h: Vec<char> = Vec::new();
                    h.push('[');
                    let inner = slice_vec(st.as_slice(), 0, end);
                    extend_chars(&mut h, inner.as_slice());
                    h.push(']');
                    proof { assert(h@ =~= seq!['['] + st@.subrange(0, end as int) + seq![']']); }
                    Some((string_of(h.as_slice()), p))
                },
                None => None,
            }
        } else {
            None
        }
    } else {
        let i = match rfind_char(c.as_slice(), ':') { Some(i) => i, None => { return None; } };
        let ps = slice_vec(c.as_slice(), i + 1, n);
        proof { assert(ps@ =~= s@.skip(i + 1)); }
        match parse_u16(ps.as_slice()) {
            Some(p) => {
                let h = string_of(slice_vec(c.as_slice(), 0, i).as_slice());
                Some((h, p))
            },
            None => None,
        }
    }
}

/// Host names under which a listener on any interface is reached
/// from this process.
pub open spec fn loopback_synonyms() -> Seq<Seq<char>> {
    seq!["localhost"@, "127.0.0.1"@, "0.0.0.0"@, "[::1]"@, "::1"@]
}

/// The `(host, port)` pairs that address this server's own TCP
/// listeners.
#[derive(Debug, Clone)]
pub struct SelfOrigins {
    pub tcp: Vec<(String, u16)>,
}

impl SelfOrigins {
    /// `(host, port)` is one of the pairs.
    pub open spec fn has(&self, host: Seq<char>, port: u16) -> bool {
        exists|i: int| 0 <= i < self.tcp@.len() && (#[trigger] self.tcp@[i]).0@ == host && self.tcp@[i].1 == port
    }

    /// No origins at all.
    pub fn new() -> (r: Self)
        ensures
            forall|h: Seq<char>, p: u16| !r.has(h, p),
    {
        SelfOrigins { tcp: Vec::new() }
    }

    fn add_synonyms(&mut self, port: u16)
        ensures
            forall|h: Seq<char>, p: u16| final(self).has(h, p)
                <==> (old(self).has(h, p) || (p == port && loopback_synonyms().contains(h))),
    {
        let ghost before = *self;
        self.tcp.push(("localhost".to_owned(), port));
        self.tcp.push(("127.0.0.1".to_owned(), port));
        self.tcp.push(("0.0.0.0".to_owned(), port));
        self.tcp.push(("[::1]".to_owned(), port));
        self.tcp.push(("::1".to_owned(), port));
        proof {
            let n = before.tcp@.len();
            assert forall|h: Seq<char>, p: u16| self.has(h, p)
                <==> (before.has(h, p) || (p == port && loopback_synonyms().contains(h))) by {
                if self.has(h, p) {
                    let i = choose|i: int| 0 <= i < self.tcp@.len() && (#[trigger] self.tcp@[i]).0@ == h && self.tcp@[i].1 == p;
                    if i < n {
                        assert(before.tcp@[i] == self.tcp@[i]);
                    } else {
                        assert(loopback_synonyms()[i - n] == h);
                    }
                }
                if before.has(h, p) {
                    let i = choose|i: int| 0 <= i < before.tcp@.len() && (#[trigger] before.tcp@[i]).0@ == h && before.tcp@[i].1 == p;
                    assert(self.tcp@[i] == before.tcp@[i]);
                }
                if p == port && loopback_synonyms().contains(h) {
                    let k = choose|k: int| 0 <= k < loopback_synonyms().len() && loopback_synonyms()[k] == h;
                    assert(self.tcp@[n + k].0@ == h);
                }
            }
        }
    }

    fn add_listener(&mut self, l: &ListenerConfig)
        ensures
            forall|h: Seq<char>, p: u16| #![trigger final(self).has(h, p)] #![trigger old(self).has(h, p)]
                final(self).has(h, p) <==> (old(self).has(h, p) || listener_binds(*l, h, p)),
    {
        reveal(listener_binds);
        match &l.bind {
            Some(b) => {
                match split_host_port(b.as_str()) {
                    Some((bh, bp)) => {
                        let ghost before = *self;
                        let ghost bhv = bh@;
                        self.tcp.push((bh, bp));
                        proof {
                            let n = before.tcp@.len();
                            assert forall|h: Seq<char>, p: u16| self.has(h, p) <==> (before.has(h, p) || (h == bhv && p == bp)) by {
                                if self.has(h, p) {
                                    let w = choose|w: int| 0 <= w < self.tcp@.len() && (#[trigger] self.tcp@[w]).0@ == h && self.tcp@[w].1 == p;
                                    if w < n { assert(before.tcp@[w] == self.tcp@[w]); }
                                }
                                if before.has(h, p) {
                                    let w = choose|w: int| 0 <= w < before.tcp@.len() && (#[trigger] before.tcp@[w]).0@ == h && before.tcp@[w].1 == p;
                                    assert(self.tcp@[w] == before.tcp@[w]);
                                }
                                if h == bhv && p == bp { assert(self.tcp@[n as int].0@ == h); }
                            }
                        }
                        self.add_synonyms(bp);
                    },
                    None => {},
                }
            },
            None => {},
        }
    }

    /// The origins of a configuration: every loopback synonym on
    /// `port` when no listener is configured; otherwise, for each TCP
    /// listener whose bind spec splits into host and port, that pair
    /// and every loopback synonym on that port.
    pub fn from_config(config: &AppConfig) -> (r: Self)
        ensures
            forall|h: Seq<char>, p: u16| r.has(h, p) <==> spec_self_origin(config.port, config.listeners@, h, p),
    {
        let mut r = SelfOrigins::new();
        if config.listeners.len() == 0 {
            r.add_synonyms(config.port);
            return r;
        }
        let mut i: usize = 0;
        while i < config.listeners.len()
            invariant
                i <= config.listeners@.len(),
                config.listeners@.len() > 0,
                forall|h: Seq<char>, p: u16| r.has(h, p) <==> bound_in(config.listeners@.subrange(0, i as int), h, p),
            decreases config.listeners@.len() - i,
        {
            let ghost before = r;
            r.add_listener(&config.listeners[i]);
            proof {
                lemma_bound_in_push(config.listeners@, i as int);
                assert forall|h: Seq<char>, p: u16| r.has(h, p) <==> bound_in(config.listeners@.subrange(0, i + 1), h, p) by {
                    assert(r.has(h, p) <==> (before.has(h, p) || listener_binds(config.listeners@[i as int], h, p)));
                    assert(before.has(h, p) <==> bound_in(config.listeners@.subrange(0, i as int), h, p));
                }
            }
            i = i + 1;
        }
        proof {
            assert(config.listeners@.subrange(0, config.listeners@.len() as int) =~= config.listeners@);
        }
        r
    }

    /// `(host, port)` is one of the pairs.
    pub fn contains(&self, host: &[char], port: u16) -> (r: bool)
        ensures
            r == self.has(host@, port),
    {
        let mut i: usize = 0;
        while i < self.tcp.len()
            invariant
                i <= self.tcp@.len(),
                forall|j: int| 0 <= j < i ==> !((#[trigger] self.tcp@[j]).0@ == host@ && self.tcp@[j].1 == port),
            decreases self.tcp@.len() - i,
        {
            let hc = chars_of(self.tcp[i].0.as_str());
            if self.tcp[i].1 == port && chars_eq(hc.as_slice(), host) {
                return true;
            }
            i = i + 1;
        }
        false
    }

    /// `url` is an http(s) URL whose host and port (explicit, else 80
    /// or 443) address one of our own listeners.
    pub fn matches(&self, url: &str) -> (r: bool)
        ensures
            r == spec_matches_self(*self, url@),
    {
        let u = match parse_url(url) { Some(u) => u, None => { return false; } };
        let sc = chars_of(u.scheme.as_str());
        let is_http = chars_eq(sc.as_slice(), &['h', 't', 't', 'p']);
        let is_https = chars_eq(sc.as_slice(), &['h', 't', 't', 'p', 's']);
        if !is_http && !is_https {
            return false;
        }
        let host = match &u.host { Some(h) => h, None => { return false; } };
        let port: u16 = match u.port {
            Some(p) => p,
            None => if is_http { 80 } else { 443 },
        };
        let hc = chars_of(host.as_str());
        self.contains(hc.as_slice(), port)
    }
}

/// Listener `l` contributes `(h, p)`.
#[verifier::opaque]
pub open spec fn listener_binds(l: ListenerConfig, h: Seq<char>, p: u16) -> bool {
    match l.bind {
        Some(b) => match spec_split_host_port(b@) {
            Some((bh, bp)) => (h == bh && p == bp) || (p == bp && loopback_synonyms().contains(h)),
            None => false,
        },
        None => false,
    }
}

pub open spec fn bound_in(ls: Seq<ListenerConfig>, h: Seq<char>, p: u16) -> bool {
    exists|k: int| 0 <= k < ls.len() && #[trigger] listener_binds(ls[k], h, p)
}

proof fn lemma_bound_in_push(ls: Seq<ListenerConfig>, i: int)
    requires
        0 <= i < ls.len(),
    ensures
        forall|h: Seq<char>, p: u16| bound_in(ls.subrange(0, i + 1), h, p)
            <==> (bound_in(ls.subrange(0, i), h, p) || listener_binds(ls[i], h, p)),
{
    let pre = ls.subrange(0, i);
    let cur = ls.subrange(0, i + 1);
    assert forall|h: Seq<char>, p: u16| bound_in(cur, h, p) <==> (bound_in(pre, h, p) || listener_binds(ls[i], h, p)) by {
        if bound_in(cur, h, p) {
            let k = choose|k: int| 0 <= k < cur.len() && #[trigger] listener_binds(cur[k], h, p);
            if k < i { assert(cur[k] == pre[k]); } else { assert(cur[k] == ls[i]); }
        }
        if bound_in(pre, h, p) {
            let k = choose|k: int| 0 <= k < pre.len() && #[trigger] listener_binds(pre[k], h, p);
            assert(cur[k] == pre[k]);
        }
        if listener_binds(ls[i], h, p) {
            assert(cur[i] == ls[i]);
        }
    }
}

pub open spec fn spec_self_origin(port: u16, listeners: Seq<ListenerConfig>, h: Seq<char>, p: u16) -> bool {
    if listeners.len() == 0 {
        p == port && loopback_synonyms().contains(h)
    } else {
        bound_in(listeners, h, p)
    }
}

pub open spec fn spec_matches_self(o: SelfOrigins, url: Seq<char>) -> bool {
    match parsed_url(url) {
        None => false,
        Some(u) => (u.scheme == http_seq() || u.scheme == https_seq()) && u.host is Some && o.has(
            u.host.unwrap(),
            match u.port { Some(p) => p, None => if u.scheme == http_seq() { 80u16 } else { 443u16 } },
        ),
    }
}


/// Transport of one outbound call.
#[derive(Debug, Clone)]
pub enum OutboundRoute {
    /// `internal_requests.disabled`: every transport is refused.
    Disabled,
    /// The URL addresses this server: run the target DSL in-process.
    SelfCall,
    /// A `unix://` URL.
    UnixUrl,
    /// The URL's host is an alias of this Unix socket path.
    Alias(String),
    /// Plain TCP, after the SSRF checks.
    Tcp,
}

/// Socket path aliased to the host of `url`.
pub open spec fn spec_alias(map: Seq<(String, String)>, url: Seq<char>) -> Option<Seq<char>> {
    if map.len() == 0 {
        None
    } else {
        match parsed_url(url) {
            None => None,
            Some(u) => match u.host {
                None => None,
                Some(h) => pair_value(map, h),
            },
        }
    }
}

/// Value of the first pair whose key is `k`.
pub open spec fn pair_value(map: Seq<(String, String)>, k: Seq<char>) -> Option<Seq<char>> {
    if exists|i: int| 0 <= i < map.len() && (#[trigger] map[i]).0@ == k {
        let i = choose|i: int| 0 <= i < map.len() && (#[trigger] map[i]).0@ == k
            && forall|j: int| 0 <= j < i ==> (#[trigger] map[j]).0@ != k;
        Some(map[i].1@)
    } else {
        None
    }
}

/// Value of the first pair whose key is `k`.
pub fn lookup_pair(map: &Vec<(String, String)>, k: &[char]) -> (r: Option<String>)
    ensures
        opt_view(r) == pair_value(map@, k@),
{
    let mut i: usize = 0;
    while i < map.len()
        invariant
            i <= map@.len(),
            forall|j: int| 0 <= j < i ==> (#[trigger] map@[j]).0@ != k@,
        decreases map@.len() - i,
    {
        let kc = chars_of(map[i].0.as_str());
        if chars_eq(kc.as_slice(), k) {
            proof {
                let w = choose|w: int| 0 <= w < map@.len() && (#[trigger] map@[w]).0@ == k@
                    && forall|j: int| 0 <= j < w ==> (#[trigger] map@[j]).0@ != k@;
                assert(w == i as int) by {
                    if w < i { } else if w > i { assert(map@[i as int].0@ == k@); }
                }
            }
            return Some(map[i].1.clone());
        }
        i = i + 1;
    }
    None
}

/// Socket path for a URL whose host is in `unix_socket_map`.
pub fn host_alias_lookup(map: &Vec<(String, String)>, url: &str) -> (r: Option<String>)
    ensures
        opt_view(r) == spec_alias(map@, url@),
{
    if map.len() == 0 {
        return None;
    }
    let u = match parse_url(url) { Some(u) => u, None => { return None; } };
    match &u.host {
        None => None,
        Some(h) => {
            let hc = chars_of(h.as_str());
            lookup_pair(map, hc.as_slice())
        },
    }
}

/// Pick the transport of an outbound call, in the order the client
/// tries them: refused when outbound calls are disabled, in-process
/// when the URL addresses this server and the router is wired, a
/// `unix://` URL, a Unix-socket host alias, else TCP.
pub fn route_outbound(disabled: bool, origins: &SelfOrigins, handler_wired: bool, map: &Vec<(String, String)>, url: &str)
    -> (r: OutboundRoute)
    ensures
        match r {
            OutboundRoute::Disabled => disabled,
            OutboundRoute::SelfCall => !disabled && handler_wired && spec_matches_self(*origins, url@),
            OutboundRoute::UnixUrl => !disabled && !(handler_wired && spec_matches_self(*origins, url@))
                && is_prefix("unix://"@, url@),
            OutboundRoute::Alias(p) => !disabled && !(handler_wired && spec_matches_self(*origins, url@))
                && !is_prefix("unix://"@, url@) && spec_alias(map@, url@) == Some(p@),
            OutboundRoute::Tcp => !disabled && !(handler_wired && spec_matches_self(*origins, url@))
                && !is_prefix("unix://"@, url@) && spec_alias(map@, url@) is None,
        },
{
    if disabled {
        return OutboundRoute::Disabled;
    }
    if handler_wired && origins.matches(url) {
        return OutboundRoute::SelfCall;
    }
    let uc = chars_of(url);
    let pre = chars_of("unix://");
    if starts_with(uc.as_slice(), pre.as_slice()) {
        return OutboundRoute::UnixUrl;
    }
    match host_alias_lookup(map, url) {
        Some(p) => OutboundRoute::Alias(p),
        None => OutboundRoute::Tcp,
    }
}

/// An upstream status passes `http_codes_allow_list` (empty accepts all).
pub fn status_allowed(allow: &Vec<u16>, status: u16) -> (r: bool)
    ensures
        r == (allow@.len() == 0 || allow@.contains(status)),
{
    if allow.len() == 0 {
        return true;
    }
    let mut i: usize = 0;
    while i < allow.len()
        invariant
            i <= allow@.len(),
            forall|j: int| 0 <= j < i ==> allow@[j] != status,
        decreases allow@.len() - i,
    {
        if allow[i] == status {
            return true;
        }
        i = i + 1;
    }
    false
}

/// The query-string text of a JSON value: a string as it is, anything
/// else as its compact JSON text.
pub open spec fn value_text(v: JsonValue) -> Seq<char> {
    match v {
        JsonValue::String(s) => s@,
        _ => json_text(v),
    }
}

pub fn value_string(v: &JsonValue) -> (r: String)
    ensures
        r@ == value_text(*v),
{
    match v {
        JsonValue::String(s) => s.clone(),
        _ => to_json_string(v),
    }
}

/// UTF-8 encoding of one character.
pub open spec fn utf8_bytes(c: char) -> Seq<u8> {
    let u = c as u32;
    if u < 0x80 {
        seq![u as u8]
    } else if u < 0x800 {
        seq![(0xC0 + u / 64) as u8, (0x80 + u % 64) as u8]
    } else if u < 0x10000 {
        seq![(0xE0 + u / 4096) as u8, (0x80 + (u / 64) % 64) as u8, (0x80 + u % 64) as u8]
    } else {
        seq![(0xF0 + u / 262144) as u8, (0x80 + (u / 4096) % 64) as u8, (0x80 + (u / 64) % 64) as u8, (0x80 + u % 64) as u8]
    }
}

/// Upper-case hex digit of `d < 16`.
pub open spec fn hex_upper(d: nat) -> char {
    if d < 10 { ((d + 48) as u32) as char } else { ((d + 55) as u32) as char }
}

/// Percent-encoding of one byte: unreserved characters as they are,
/// any other byte as `%XX` (upper-case hex).
pub open spec fn encode_byte(b: u8) -> Seq<char> {
    if (0x41 <= b <= 0x5a) || (0x61 <= b <= 0x7a) || (0x30 <= b <= 0x39) || b == 0x2d || b == 0x5f || b == 0x2e || b == 0x7e {
        seq![(b as u32) as char]
    } else {
        seq!['%', hex_upper((b / 16) as nat), hex_upper((b % 16) as nat)]
    }
}

pub open spec fn encode_bytes(bs: Seq<u8>) -> Seq<char>
    decreases bs.len(),
{
    if bs.len() == 0 { Seq::empty() } else { encode_bytes(bs.drop_last()) + encode_byte(bs.last()) }
}

pub open spec fn encode_chars(s: Seq<char>) -> Seq<char>
    decreases s.len(),
{
    if s.len() == 0 { Seq::empty() } else { encode_chars(s.drop_last()) + encode_bytes(utf8_bytes(s.last())) }
}

fn hex_upper_char(d: u8) -> (r: char)
    requires
        d < 16,
    ensures
        r == hex_upper(d as nat),
{
    if d < 10 { crate::text::char_from_ascii((d + 48) as u32) } else { crate::text::char_from_ascii((d + 55) as u32) }
}

fn push_encoded_byte(out: &mut Vec<char>, b: u8)
    ensures
        final(out)@ == old(out)@ + encode_byte(b),
{
    let ghost before = out@;
    if (0x41 <= b && b <= 0x5a) || (0x61 <= b && b <= 0x7a) || (0x30 <= b && b <= 0x39) || b == 0x2d || b == 0x5f || b == 0x2e || b == 0x7e {
        out.push(crate::text::char_from_ascii(b as u32));
    } else {
        out.push('%');
        out.push(hex_upper_char(b / 16));
        out.push(hex_upper_char(b % 16));
    }
    assert(out@ =~= before + encode_byte(b));
}

proof fn lemma_encode_one(b: u8)
    ensures
        encode_bytes(seq![b]) == encode_byte(b),
{
    let s1 = seq![b];
    assert(s1.drop_last() =~= Seq::<u8>::empty());
    assert(s1.last() == b);
    assert(encode_bytes(Seq::<u8>::empty()) == Seq::<char>::empty());
    assert(Seq::<char>::empty() + encode_byte(b) =~= encode_byte(b));
}

fn push_encoded_char(out: &mut Vec<char>, c: char)
    ensures
        final(out)@ == old(out)@ + encode_bytes(utf8_bytes(c)),
{
    let ghost before = out@;
    let u = c as u32;
    let ghost bs = utf8_bytes(c);
    if u < 0x80 {
        push_encoded_byte(out, u as u8);
        assert(bs.drop_last() =~= Seq::<u8>::empty());
        proof { lemma_encode_one(u as u8); }
        assert(bs =~= seq![u as u8]);
    } else if u < 0x800 {
        let b0 = (0xC0 + u / 64) as u8;
        let b1 = (0x80 + u % 64) as u8;
        push_encoded_byte(out, b0);
        push_encoded_byte(out, b1);
        assert(bs =~= seq![b0, b1]);
        assert(bs.drop_last() =~= seq![b0]);
        assert(seq![b0].drop_last() =~= Seq::<u8>::empty());
        proof { lemma_encode_one(b0); }
        assert(encode_bytes(bs) =~= encode_byte(b0) + encode_byte(b1));
    } else if u < 0x10000 {
        let b0 = (0xE0 + u / 4096) as u8;
        let b1 = (0x80 + (u / 64) % 64) as u8;
        let b2 = (0x80 + u % 64) as u8;
        push_encoded_byte(out, b0);
        push_encoded_byte(out, b1);
        push_encoded_byte(out, b2);
        assert(bs =~= seq![b0, b1, b2]);
        assert(bs.drop_last() =~= seq![b0, b1]);
        assert(seq![b0, b1].drop_last() =~= seq![b0]);
        assert(seq![b0].drop_last() =~= Seq::<u8>::empty());
        proof { lemma_encode_one(b0); }
        assert(encode_bytes(seq![b0, b1]) =~= encode_byte(b0) + encode_byte(b1));
        assert(encode_bytes(bs) =~= encode_byte(b0) + encode_byte(b1) + encode_byte(b2));
    } else {
        let b0 = (0xF0 + u / 262144) as u8;
        let b1 = (0x80 + (u / 4096) % 64) as u8;
        let b2 = (0x80 + (u / 64) % 64) as u8;
        let b3 = (0x80 + u % 64) as u8;
        push_encoded_byte(out, b0);
        push_encoded_byte(out, b1);
        push_encoded_byte(out, b2);
        push_encoded_byte(out, b3);
        assert(bs =~= seq![b0, b1, b2, b3]);
        assert(bs.drop_last() =~= seq![b0, b1, b2]);
        assert(seq![b0, b1, b2].drop_last() =~= seq![b0, b1]);
        assert(seq![b0, b1].drop_last() =~= seq![b0]);
        assert(seq![b0].drop_last() =~= Seq::<u8>::empty());
        proof { lemma_encode_one(b0); }
        assert(encode_bytes(seq![b0, b1]) =~= encode_byte(b0) + encode_byte(b1));
        assert(encode_bytes(seq![b0, b1, b2]) =~= encode_byte(b0) + encode_byte(b1) + encode_byte(b2));
        assert(encode_bytes(bs) =~= encode_byte(b0) + encode_byte(b1) + encode_byte(b2) + encode_byte(b3));
    }
    assert(out@ =~= before + encode_bytes(bs));
}

/// Percent-encode the UTF-8 bytes of `s` for a query string.
pub fn urlencoding_encode(s: &str) -> (r: String)
    ensures
        r@ == encode_chars(s@),
{
    let c = chars_of(s);
    let mut out: Vec<char> = Vec::new();
    let mut i: usize = 0;
    while i < c.len()
        invariant
            i <= c@.len(),
            c@ == s@,
            out@ == encode_chars(c@.subrange(0, i as int)),
        decreases c@.len() - i,
    {
        proof { assert(c@.subrange(0, i + 1).drop_last() =~= c@.subrange(0, i as int)); }
        push_encoded_char(&mut out, c[i]);
        i = i + 1;
    }
    proof { assert(c@.subrange(0, c@.len() as int) =~= c@); }
    string_of(out.as_slice())
}

/// `key=value` of one query parameter, both percent-encoded.
pub open spec fn query_part(kv: (String, JsonValue)) -> Seq<char> {
    encode_chars(kv.0@) + seq!['='] + encode_chars(value_text(kv.1))
}

pub open spec fn query_parts(q: Seq<(String, JsonValue)>) -> Seq<char>
    decreases q.len(),
{
    if q.len() == 0 {
        Seq::empty()
    } else if q.len() == 1 {
        query_part(q[0])
    } else {
        query_parts(q.drop_last()) + seq!['&'] + query_part(q.last())
    }
}

/// `path_and_query` with the extra parameters appended (after `&` when
/// it already has a `?`, else after `?`), in the order given.
pub open spec fn spec_merge_query(pq: Seq<char>, extra: Option<Seq<(String, JsonValue)>>) -> Seq<char> {
    match extra {
        None => pq,
        Some(q) => if q.len() == 0 {
            pq
        } else {
            pq + seq![if pq.contains('?') { '&' } else { '?' }] + query_parts(q)
        },
    }
}

pub open spec fn opt_pairs_view(o: Option<Vec<(String, JsonValue)>>) -> Option<Seq<(String, JsonValue)>> {
    match o { Some(v) => Some(v@), None => None }
}

/// Append extra query parameters to a path-and-query string.
pub fn merge_query_params(path_and_query: &str, extra: &Option<Vec<(String, JsonValue)>>) -> (r: String)
    ensures
        r@ == spec_merge_query(path_and_query@, opt_pairs_view(*extra)),
{
    let q = match extra { Some(q) => q, None => { return path_and_query.to_owned(); } };
    if q.len() == 0 {
        return path_and_query.to_owned();
    }
    let mut out = chars_of(path_and_query);
    let sep = if has_char(out.as_slice(), '?') { '&' } else { '?' };
    out.push(sep);
    let ghost base = out@;
    let mut i: usize = 0;
    while i < q.len()
        invariant
            i <= q@.len(),
            out@ == base + query_parts(q@.subrange(0, i as int)),
        decreases q@.len() - i,
    {
        let ghost before = out@;
        if i > 0 {
            out.push('&');
        }
        let k = urlencoding_encode(q[i].0.as_str());
        let vs = value_string(&q[i].1);
        let v = urlencoding_encode(vs.as_str());
        let kc = chars_of(k.as_str());
        let vc = chars_of(v.as_str());
        extend_chars(&mut out, kc.as_slice());
        out.push('=');
        extend_chars(&mut out, vc.as_slice());
        i = i + 1;
        proof {
            let sub = q@.subrange(0, i as int);
            assert(sub.drop_last() =~= q@.subrange(0, i - 1));
            assert(sub.last() == q@[i - 1]);
            if i == 1 {
                assert(q@.subrange(0, 0) =~= Seq::<(String, JsonValue)>::empty());
                assert(sub.len() == 1 && sub[0] == q@[0]);
            }
            assert(out@ =~= base + query_parts(sub));
        }
    }
    proof { assert(q@.subrange(0, q@.len() as int) =~= q@); }
    string_of(out.as_slice())
}

/// A declared `Content-Length` larger than the response cap.
pub open spec fn spec_declared_too_large(cap: Option<usize>, content_length: Option<Seq<char>>) -> bool {
    match (cap, content_length) {
        (Some(c), Some(l)) => match spec_parse_unsigned(l, usize::MAX as nat) {
            Some(d) => d > c,
            None => false,
        },
        _ => false,
    }
}

pub fn declared_too_large(cap: Option<usize>, content_length: &Option<String>) -> (r: bool)
    ensures
        r == spec_declared_too_large(cap, opt_view(*content_length)),
{
    match (cap, content_length) {
        (Some(c), Some(l)) => {
            let lc = chars_of(l.as_str());
            match parse_unsigned(lc.as_slice(), usize::MAX as u64) {
                Some(d) => d > c as u64,
                None => false,
            }
        },
        _ => false,
    }
}

/// A streamed body grown to `received` bytes with a further chunk of
/// `chunk` bytes goes over the cap.
pub fn stream_exceeds(cap: usize, received: usize, chunk: usize) -> (r: bool)
    ensures
        r == (received + chunk > cap),
{
    received as u128 + chunk as u128 > cap as u128
}

/// UTF-8 length of `s`, as a wide integer.
pub fn utf8_len_wide(s: &[char]) -> (r: u128)
    ensures
        r == utf8_len(s@),
{
    let mut acc: u128 = 0;
    let mut i: usize = 0;
    while i < s.len()
        invariant
            i <= s@.len(),
            acc == utf8_len(s@.subrange(0, i as int)),
            acc <= 4 * i,
        decreases s@.len() - i,
    {
        proof { assert(s@.subrange(0, i + 1).drop_last() == s@.subrange(0, i as int)); }
        acc = acc + crate::text::char_utf8_len(s[i]) as u128;
        i = i + 1;
    }
    proof { assert(s@.subrange(0, s@.len() as int) == s@); }
    acc
}

/// Why an upstream response is refused.
#[derive(Debug, Clone, Copy, PartialEq, Eq, Structural)]
pub enum ResponseRefusal {
    /// The status is not in `http_codes_allow_list`.
    StatusNotAllowed,
    /// The body's compact JSON text is longer than the cap.
    BodyTooLarge,
}

/// The body of an upstream answer, over TCP or a Unix socket: none when
/// it is empty; else what `serde_json` decodes, and none when the bytes
/// do not decode.
pub fn upstream_body(bytes: &[u8]) -> (r: Option<JsonValue>)
    ensures
        r == (if bytes@.len() == 0 {
            None
        } else {
            match json_parse_result(bytes@) {
                Ok(v) => Some(v),
                Err(_) => None,
            }
        }),
{
    if bytes.len() == 0 {
        None
    } else {
        match parse_json_bytes(bytes) {
            Ok(v) => Some(v),
            Err(_) => None,
        }
    }
}

/// Status and size gate of a Unix-socket response, whose body was read
/// whole: the size measured is that of the body's compact JSON text.
pub fn uds_response_gate(allow: &Vec<u16>, cap: Option<usize>, status: u16, body: &Option<JsonValue>)
    -> (r: Result<(), ResponseRefusal>)
    ensures
        !(allow@.len() == 0 || allow@.contains(status)) ==> r == Err::<(), ResponseRefusal>(ResponseRefusal::StatusNotAllowed),
        (allow@.len() == 0 || allow@.contains(status)) ==> (r is Err <==> (match (cap, *body) {
            (Some(c), Some(b)) => utf8_len(json_text(b)) > c,
            _ => false,
        })),
        r is Err ==> r == Err::<(), ResponseRefusal>(ResponseRefusal::StatusNotAllowed)
            || r == Err::<(), ResponseRefusal>(ResponseRefusal::BodyTooLarge),
{
    if !status_allowed(allow, status) {
        return Err(ResponseRefusal::StatusNotAllowed);
    }
    match (cap, body) {
        (Some(c), Some(b)) => {
            let t = to_json_string(b);
            let tc = chars_of(t.as_str());
            if utf8_len_wide(tc.as_slice()) > c as u128 {
                Err(ResponseRefusal::BodyTooLarge)
            } else {
                Ok(())
            }
        },
        _ => Ok(()),
    }
}

/// The body handed to a self-called DSL: an object's members; any
/// other value under `_body`; nothing when there is no body.
pub fn self_call_body(body: Option<JsonValue>) -> (r: Vec<(String, JsonValue)>)
    ensures
        match body {
            None => r@.len() == 0,
            Some(JsonValue::Object(ms)) => r@ == ms@,
            Some(v) => r@.len() == 1 && r@[0].0@ == "_body"@ && r@[0].1 == v,
        },
{
    match body {
        None => Vec::new(),
        Some(JsonValue::Object(ms)) => ms,
        Some(v) => {
            let mut r: Vec<(String, JsonValue)> = Vec::new();
            r.push(("_body".to_owned(), v));
            r
        },
    }
}

/// What an outbound call returns to the DSL.
#[derive(Debug)]
pub struct HttpResponse {
    pub status: u16,
    pub body: Option<JsonValue>,
    pub headers: Vec<(String, String)>,
}

} // verus!
