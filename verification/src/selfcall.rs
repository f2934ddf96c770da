//! A call to one of the server's own origins is served in-process: the
//! URL's path, its query merged with the step's `query`, the step's
//! headers as lower-cased text, and the body as members.
use vstd::prelude::*;
use crate::text::{chars_of, string_of, extend_chars, lower_seq, to_lower_vec, decimal, decimal_string};
use crate::json::JsonValue;
use crate::urls::{parse_url, parsed_url, opt_view};
use crate::outbound::{value_text, value_string, self_call_body, status_allowed};
use crate::steps::first_key;
use crate::sources::member_index;
use crate::ws::{unique_keys, tag_get, tag_set};
use crate::lint::views;

verus! {

/// The `(name, value)` pairs the `url` crate decodes from a query
/// string (`application/x-www-form-urlencoded`).
pub uninterp spec fn form_pairs(query: Seq<char>) -> Seq<(Seq<char>, Seq<char>)>;

/// `url::form_urlencoded::parse`: the decoded pairs of a query string,
/// in order. Claimed: they are the decoder's result on the string
/// (named [`form_pairs`]).
#[verifier::external_body]
fn query_pairs(query: &str) -> (r: Vec<(String, String)>)
    ensures
        r@.map_values(|p: (String, String)| (p.0@, p.1@)) == form_pairs(query@),
{
    let mut out: Vec<(String, String)> = Vec::new();
    for (k, v) in url::form_urlencoded::parse(query.as_bytes()) {
        out.push((k.into_owned(), v.into_owned()));
    }
    out
}

/// The `Display` text of the `url` crate's error for a string it
/// rejects.
pub uninterp spec fn url_error_text(s: Seq<char>) -> Seq<char>;

/// `url::Url::parse`'s error, as text, when it rejects `s`. Claimed: an
/// error comes exactly when the parse fails, and its text is the
/// crate's (named [`url_error_text`]).
#[verifier::external_body]
fn url_error(s: &str) -> (r: Option<String>)
    ensures
        r is Some <==> parsed_url(s@) is None,
        r matches Some(e) ==> e@ == url_error_text(s@),
{
    match url::Url::parse(s) {
        Ok(_) => None,
        Err(e) => Some(e.to_string()),
    }
}

/// The value of the last pair named `k`.
pub open spec fn last_pair(ps: Seq<(Seq<char>, Seq<char>)>, k: Seq<char>) -> Option<Seq<char>>
    decreases ps.len(),
{
    if ps.len() == 0 {
        None
    } else if ps.last().0 == k {
        Some(ps.last().1)
    } else {
        last_pair(ps.drop_last(), k)
    }
}

/// Keys of a member list are distinct.
pub open spec fn distinct_members(ms: Seq<(String, JsonValue)>) -> bool {
    forall|i: int, j: int| 0 <= i < j < ms.len() ==> (#[trigger] ms[i]).0@ != (#[trigger] ms[j]).0@
}

/// The value of member `k`.
pub open spec fn member_of(ms: Seq<(String, JsonValue)>, k: Seq<char>) -> Option<JsonValue> {
    match first_key(ms, k) {
        Some(i) => Some(ms[i].1),
        None => None,
    }
}

proof fn lemma_member_of_at(ms: Seq<(String, JsonValue)>, i: int)
    requires
        distinct_members(ms),
        0 <= i < ms.len(),
    ensures
        member_of(ms, ms[i].0@) == Some(ms[i].1),
{
    let k = ms[i].0@;
    assert forall|j: int| 0 <= j < i implies (#[trigger] ms[j]).0@ != k by {}
    let w = choose|w: int| 0 <= w < ms.len() && (#[trigger] ms[w]).0@ == k && forall|j: int| 0 <= j < w ==> (#[trigger] ms[j]).0@ != k;
    if w < i { assert(ms[w].0@ != ms[i].0@); } else if w > i { assert(ms[i].0@ == k); }
}

/// The last header named `k` (compared lower-cased), its value as text.
pub open spec fn header_after(hs: Seq<(String, JsonValue)>, k: Seq<char>) -> Option<Seq<char>>
    decreases hs.len(),
{
    if hs.len() == 0 {
        None
    } else if lower_seq(hs.last().0@) == k {
        Some(value_text(hs.last().1))
    } else {
        header_after(hs.drop_last(), k)
    }
}

/// The merged query: the step's entries as they are, and each name of
/// the URL's query the step lacks with the URL's last value for it.
pub open spec fn query_ok(rq: Seq<(String, JsonValue)>, pairs: Seq<(Seq<char>, Seq<char>)>, query: Seq<(String, JsonValue)>) -> bool {
    &&& distinct_members(rq)
    &&& forall|k: Seq<char>| member_of(query, k) is Some ==> #[trigger] member_of(rq, k) == member_of(query, k)
    &&& forall|k: Seq<char>| member_of(query, k) is None && last_pair(pairs, k) is Some ==>
            (#[trigger] member_of(rq, k) matches Some(JsonValue::String(s)) && s@ == last_pair(pairs, k)->Some_0)
    &&& forall|k: Seq<char>| member_of(query, k) is None && last_pair(pairs, k) is None ==> #[trigger] member_of(rq, k) is None
}

proof fn lemma_member_of_absent(ms: Seq<(String, JsonValue)>, k: Seq<char>)
    requires
        forall|i: int| 0 <= i < ms.len() ==> (#[trigger] ms[i]).0@ != k,
    ensures
        member_of(ms, k) is None,
{
}

proof fn lemma_member_of_push(ms: Seq<(String, JsonValue)>, e: (String, JsonValue))
    requires
        distinct_members(ms.push(e)),
    ensures
        member_of(ms.push(e), e.0@) == Some(e.1),
        forall|k: Seq<char>| k != e.0@ ==> #[trigger] member_of(ms.push(e), k) == member_of(ms, k),
{
    let p = ms.push(e);
    lemma_member_of_at(p, ms.len() as int);
    assert(distinct_members(ms)) by {
        assert forall|i: int, j: int| 0 <= i < j < ms.len() implies (#[trigger] ms[i]).0@ != (#[trigger] ms[j]).0@ by {
            assert(p[i] == ms[i] && p[j] == ms[j]);
        }
    }
    assert forall|k: Seq<char>| k != e.0@ implies #[trigger] member_of(p, k) == member_of(ms, k) by {
        if exists|i: int| 0 <= i < ms.len() && (#[trigger] ms[i]).0@ == k {
            let i = choose|i: int| 0 <= i < ms.len() && (#[trigger] ms[i]).0@ == k;
            lemma_member_of_at(ms, i);
            assert(p[i] == ms[i]);
            lemma_member_of_at(p, i);
        } else {
            lemma_member_of_absent(ms, k);
            assert forall|i: int| 0 <= i < p.len() implies (#[trigger] p[i]).0@ != k by {
                if i < ms.len() { assert(p[i] == ms[i]); }
            }
            lemma_member_of_absent(p, k);
        }
    }
}

/// Some of the first `j` entries of the URL map is named `k`.
pub open spec fn in_map_prefix(m: Seq<(String, String)>, j: int, k: Seq<char>) -> bool {
    exists|x: int| 0 <= x < j && (#[trigger] m[x]).0@ == k
}

/// The request a self-call hands to the router.
#[derive(Debug)]
pub struct SelfCallRequest {
    pub path: String,
    pub query: Vec<(String, JsonValue)>,
    /// Names in lower case.
    pub headers: Vec<(String, String)>,
    pub body: Vec<(String, JsonValue)>,
}

/// `r` is the self-call request for URL `u` (its parts `v`): the
/// step's query wins over the URL's; the URL's last pair of a name
/// wins over earlier ones.
pub open spec fn request_ok(r: SelfCallRequest, url_path: Seq<char>, pairs: Seq<(Seq<char>, Seq<char>)>,
    query: Seq<(String, JsonValue)>, headers: Seq<(String, JsonValue)>, body: Option<JsonValue>) -> bool
{
    &&& r.path@ == url_path
    &&& query_ok(r.query@, pairs, query)
    &&& unique_keys(r.headers@)
    &&& forall|k: Seq<char>| #[trigger] tag_get(r.headers@, k) == header_after(headers, k)
    &&& (match body {
            None => r.body@.len() == 0,
            Some(JsonValue::Object(ms)) => r.body@ == ms@,
            Some(v) => r.body@.len() == 1 && r.body@[0].0@ == "_body"@ && r.body@[0].1 == v,
        })
}

pub open spec fn invalid_url_msg(url: Seq<char>) -> Seq<char> {
    "invalid self-call url '"@ + url + "': "@ + url_error_text(url)
}

/// Build the in-process request of a self-call to `url`; an
/// unparseable URL is refused.
pub fn self_call_request(url: &str, body: Option<JsonValue>, query: Option<Vec<(String, JsonValue)>>,
    headers: &Option<Vec<(String, JsonValue)>>) -> (r: Result<SelfCallRequest, String>)
    requires
        query matches Some(q) ==> distinct_members(q@),
    ensures
        match parsed_url(url@) {
            None => r matches Err(e) && e@ == invalid_url_msg(url@),
            Some(u) => r matches Ok(req) && request_ok(req, u.path,
                match u.query { Some(q) => form_pairs(q), None => Seq::empty() },
                match query { Some(q) => q@, None => Seq::empty() },
                match headers { Some(h) => h@, None => Seq::empty() },
                body),
        },
{
    let parts = match parse_url(url) {
        Some(p) => p,
        None => {
            let text = match url_error(url) {
                Some(e) => e,
                None => {
                    proof { assert(false); }
                    String::new()
                },
            };
            let mut m = chars_of("invalid self-call url '");
            extend_chars(&mut m, chars_of(url).as_slice());
            extend_chars(&mut m, chars_of("': ").as_slice());
            extend_chars(&mut m, chars_of(text.as_str()).as_slice());
            return Err(string_of(m.as_slice()));
        },
    };
    let pairs = match &parts.query {
        Some(q) => query_pairs(q.as_str()),
        None => Vec::new(),
    };
    let ghost pv = pairs@.map_values(|p: (String, String)| (p.0@, p.1@));
    proof {
        if parts.query is None { assert(pv =~= Seq::<(Seq<char>, Seq<char>)>::empty()); }
    }
    // The URL's pairs as a map: the last pair of a name wins.
    let mut url_map: Vec<(String, String)> = Vec::new();
    let mut i: usize = 0;
    while i < pairs.len()
        invariant
            i <= pairs@.len(),
            pv == pairs@.map_values(|p: (String, String)| (p.0@, p.1@)),
            unique_keys(url_map@),
            forall|k: Seq<char>| tag_get(url_map@, k) == last_pair(pv.take(i as int), k),
        decreases pairs@.len() - i,
    {
        let ghost t1 = pv.take(i + 1);
        proof { assert(t1.drop_last() =~= pv.take(i as int)); assert(t1.last() == (pairs@[i as int].0@, pairs@[i as int].1@)); }
        tag_set(&mut url_map, pairs[i].0.clone(), pairs[i].1.clone());
        i = i + 1;
    }
    proof { assert(pv.take(i as int) =~= pv); }
    let ghost qq = if query is Some { query->Some_0@ } else { Seq::<(String, JsonValue)>::empty() };
    let mut merged: Vec<(String, JsonValue)> = match query {
        Some(q) => q,
        None => Vec::new(),
    };
    let ghost qv = merged@;
    proof { assert(qq == qv); }
    let mut j: usize = 0;
    proof {
        assert forall|k: Seq<char>| member_of(qv, k) is None && !(#[trigger] in_map_prefix(url_map@, 0, k)) implies member_of(merged@, k) is None by {}
    }
    while j < url_map.len()
        invariant
            j <= url_map@.len(),
            unique_keys(url_map@),
            distinct_members(merged@),
            forall|k: Seq<char>| member_of(qv, k) is Some ==> #[trigger] member_of(merged@, k) == member_of(qv, k),
            forall|k: Seq<char>| member_of(qv, k) is None && #[trigger] in_map_prefix(url_map@, j as int, k) ==>
                (member_of(merged@, k) matches Some(JsonValue::String(s)) && Some(s@) == tag_get(url_map@, k)),
            forall|k: Seq<char>| member_of(qv, k) is None && !#[trigger] in_map_prefix(url_map@, j as int, k) ==>
                member_of(merged@, k) is None,
        decreases url_map@.len() - j,
    {
        let kc = chars_of(url_map[j].0.as_str());
        let ghost kj = url_map@[j as int].0@;
        proof {
            crate::ws::lemma_tag_at_pub(url_map@, j as int);
            assert forall|k: Seq<char>| k != kj implies (#[trigger] in_map_prefix(url_map@, j + 1, k) == in_map_prefix(url_map@, j as int, k)) by {
                if in_map_prefix(url_map@, j + 1, k) {
                    let x = choose|x: int| 0 <= x < j + 1 && (#[trigger] url_map@[x]).0@ == k;
                    assert(x != j);
                }
            }
            assert(in_map_prefix(url_map@, j + 1, kj));
            assert(!in_map_prefix(url_map@, j as int, kj)) by {
                if in_map_prefix(url_map@, j as int, kj) {
                    let x = choose|x: int| 0 <= x < j && (#[trigger] url_map@[x]).0@ == kj;
                    assert(url_map@[x].0@ != url_map@[j as int].0@);
                }
            }
        }
        match member_index(&merged, kc.as_slice()) {
            Some(_) => {
                proof {
                    assert(member_of(merged@, kj) is Some);
                    assert(member_of(qv, kj) is Some);
                }
            },
            None => {
                let ghost before = merged@;
                let entry = (url_map[j].0.clone(), JsonValue::String(url_map[j].1.clone()));
                let ghost ev = entry;
                merged.push(entry);
                proof {
                    assert(merged@ == before.push(ev));
                    assert(member_of(before, kj) is None);
                    assert forall|a: int, b: int| 0 <= a < b < merged@.len() implies (#[trigger] merged@[a]).0@ != (#[trigger] merged@[b]).0@ by {
                        if b < before.len() {
                            assert(merged@[a] == before[a] && merged@[b] == before[b]);
                        } else {
                            assert(merged@[a] == before[a]);
                            if before[a].0@ == kj { lemma_member_of_at(before, a); }
                        }
                    }
                    lemma_member_of_push(before, ev);
                    if member_of(qv, kj) is Some { assert(member_of(before, kj) == member_of(qv, kj)); }
                }
            },
        }
        j = j + 1;
    }
    proof {
        assert forall|k: Seq<char>| #[trigger] in_map_prefix(url_map@, url_map@.len() as int, k) <==> tag_get(url_map@, k) is Some by {
            if tag_get(url_map@, k) is Some {
                let x = choose|x: int| 0 <= x < url_map@.len() && (#[trigger] url_map@[x]).0@ == k;
            }
        }
        assert forall|k: Seq<char>| member_of(qv, k) is None && last_pair(pv, k) is Some implies
            (#[trigger] member_of(merged@, k) matches Some(JsonValue::String(s)) && s@ == last_pair(pv, k)->Some_0) by {
            assert(in_map_prefix(url_map@, url_map@.len() as int, k));
        }
        assert forall|k: Seq<char>| member_of(qv, k) is None && last_pair(pv, k) is None implies #[trigger] member_of(merged@, k) is None by {
            assert(!in_map_prefix(url_map@, url_map@.len() as int, k));
        }
    }
    let mut hs: Vec<(String, String)> = Vec::new();
    match headers {
        Some(h) => {
            let mut k: usize = 0;
            while k < h.len()
                invariant
                    k <= h@.len(),
                    unique_keys(hs@),
                    forall|n: Seq<char>| tag_get(hs@, n) == header_after(h@.take(k as int), n),
                decreases h@.len() - k,
            {
                let ghost t1 = h@.take(k + 1);
                proof { assert(t1.drop_last() =~= h@.take(k as int)); assert(t1.last() == h@[k as int]); }
                let name = string_of(to_lower_vec(chars_of(h[k].0.as_str()).as_slice()).as_slice());
                tag_set(&mut hs, name, value_string(&h[k].1));
                k = k + 1;
            }
            proof { assert(h@.take(k as int) =~= h@); }
        },
        None => {},
    }
    Ok(SelfCallRequest { path: parts.path, query: merged, headers: hs, body: self_call_body(body) })
}

pub open spec fn self_call_refused_msg(status: u16) -> Seq<char> {
    "self-call status "@ + decimal(status as nat) + " not in http_codes_allow_list"@
}

/// The status gate on a self-call's response.
pub fn self_call_status_gate(allow: &Vec<u16>, status: u16) -> (r: Result<(), String>)
    ensures
        (allow@.len() == 0 || allow@.contains(status)) <==> r is Ok,
        r matches Err(e) ==> e@ == self_call_refused_msg(status),
{
    if status_allowed(allow, status) {
        Ok(())
    } else {
        let mut m = chars_of("self-call status ");
        extend_chars(&mut m, chars_of(decimal_string(status as u128).as_str()).as_slice());
        extend_chars(&mut m, chars_of(" not in http_codes_allow_list").as_slice());
        Err(string_of(m.as_slice()))
    }
}

} // verus!
