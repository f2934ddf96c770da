//! Pieces of the OpenAPI document generated from the DSL tree: which
//! method directories are operations, the operation id and summary of
//! a DSL, the response codes it documents and their reason phrases.
use vstd::prelude::*;
use crate::text::{chars_of, string_of, chars_eq, extend_chars, eq_ignore_ascii_case, eq_ignore_case, lower_seq,
    to_lower_vec, is_prefix, starts_with, slice_vec};
use crate::json::{JsonValue, number_as_u64, number_to_u64};
use crate::outbound::{last_char, rfind_char};

verus! {

pub const OPENAPI_VERSION: &'static str = "3.1.0";

/// A method directory documented as an operation (ASCII case ignored).
pub open spec fn spec_openapi_method(m: Seq<char>) -> bool {
    eq_ignore_case(m, "GET"@) || eq_ignore_case(m, "POST"@) || eq_ignore_case(m, "PUT"@) || eq_ignore_case(m, "PATCH"@)
        || eq_ignore_case(m, "DELETE"@) || eq_ignore_case(m, "OPTIONS"@) || eq_ignore_case(m, "HEAD"@) || eq_ignore_case(m, "TRACE"@)
}

pub fn is_openapi_method(m: &str) -> (r: bool)
    ensures
        r == spec_openapi_method(m@),
{
    let c = chars_of(m);
    let s = c.as_slice();
    eq_ignore_ascii_case(s, chars_of("GET").as_slice()) || eq_ignore_ascii_case(s, chars_of("POST").as_slice())
        || eq_ignore_ascii_case(s, chars_of("PUT").as_slice()) || eq_ignore_ascii_case(s, chars_of("PATCH").as_slice())
        || eq_ignore_ascii_case(s, chars_of("DELETE").as_slice()) || eq_ignore_ascii_case(s, chars_of("OPTIONS").as_slice())
        || eq_ignore_ascii_case(s, chars_of("HEAD").as_slice()) || eq_ignore_ascii_case(s, chars_of("TRACE").as_slice())
}

/// `s` with every leading copy of `p` removed (`trim_start_matches`).
pub open spec fn strip_all_prefix(s: Seq<char>, p: Seq<char>) -> Seq<char>
    decreases s.len(),
{
    if p.len() > 0 && is_prefix(p, s) { strip_all_prefix(s.skip(p.len() as int), p) } else { s }
}

pub(crate) fn strip_all(s: &[char], p: &[char]) -> (r: Vec<char>)
    ensures
        r@ == strip_all_prefix(s@, p@),
{
    let mut i: usize = 0;
    let n = s.len();
    proof { assert(s@.skip(0) =~= s@); }
    let mut go = p.len() > 0 && crate::text::matches_at(s, p, 0);
    while go
        invariant
            i <= s@.len(),
            n == s@.len(),
            go ==> p@.len() > 0 && crate::text::occurs_at(s@, p@, i as int),
            !go ==> !(p@.len() > 0 && crate::text::occurs_at(s@, p@, i as int)),
            strip_all_prefix(s@.skip(i as int), p@) == strip_all_prefix(s@, p@),
        decreases s@.len() - i,
    {
        proof {
            assert(is_prefix(p@, s@.skip(i as int))) by {
                assert(s@.skip(i as int).subrange(0, p@.len() as int) =~= s@.subrange(i as int, i + p@.len()));
            }
            assert(s@.skip(i as int).skip(p@.len() as int) =~= s@.skip(i + p@.len()));
        }
        assert(i + p@.len() <= s@.len());
        i = i + p.len();
        go = crate::text::matches_at(s, p, i);
    }
    let r = slice_vec(s, i, s.len());
    proof {
        assert(r@ =~= s@.skip(i as int));
        if p@.len() > 0 && !crate::text::occurs_at(s@, p@, i as int) {
            if is_prefix(p@, s@.skip(i as int)) {
                assert(s@.skip(i as int).subrange(0, p@.len() as int) =~= s@.subrange(i as int, i + p@.len()));
            }
        }
    }
    r
}

/// `c` if ASCII alphanumeric, else `_`.
pub open spec fn slug_char(c: char) -> char {
    if ('a' <= c && c <= 'z') || ('A' <= c && c <= 'Z') || ('0' <= c && c <= '9') { c } else { '_' }
}

/// `<method lower-cased>_<project>_<path below the method, each
/// non-alphanumeric character as _>`.
pub open spec fn spec_operation_id(project: Seq<char>, method: Seq<char>, dsl_key: Seq<char>) -> Seq<char> {
    let suffix = strip_all_prefix(dsl_key, method.push('/'));
    lower_seq(method) + seq!['_'] + project + seq!['_'] + suffix.map_values(|c: char| slug_char(c))
}

pub fn operation_id(project: &str, method: &str, dsl_key: &str) -> (r: String)
    ensures
        r@ == spec_operation_id(project@, method@, dsl_key@),
{
    let mut p = chars_of(method);
    p.push('/');
    let suffix = strip_all(chars_of(dsl_key).as_slice(), p.as_slice());
    let mut out = to_lower_vec(chars_of(method).as_slice());
    out.push('_');
    extend_chars(&mut out, chars_of(project).as_slice());
    out.push('_');
    let ghost before = out@;
    let mut i: usize = 0;
    while i < suffix.len()
        invariant
            i <= suffix@.len(),
            out@ == before + suffix@.take(i as int).map_values(|c: char| slug_char(c)),
        decreases suffix@.len() - i,
    {
        let c = suffix[i];
        let s = if ('a' <= c && c <= 'z') || ('A' <= c && c <= 'Z') || ('0' <= c && c <= '9') { c } else { '_' };
        out.push(s);
        proof {
            assert(suffix@.take(i + 1).map_values(|c: char| slug_char(c))
                =~= suffix@.take(i as int).map_values(|c: char| slug_char(c)).push(slug_char(c)));
        }
        i = i + 1;
    }
    proof {
        assert(suffix@.take(i as int) =~= suffix@);
        assert(p@ == method@.push('/'));
    }
    string_of(out.as_slice())
}

/// The last `/`-separated segment of the key.
pub open spec fn spec_summary(dsl_key: Seq<char>) -> Seq<char> {
    match last_char(dsl_key, '/') {
        Some(i) => dsl_key.skip(i + 1),
        None => dsl_key,
    }
}

pub fn summary_from_key(dsl_key: &str) -> (r: String)
    ensures
        r@ == spec_summary(dsl_key@),
{
    let c = chars_of(dsl_key);
    let n = c.len();
    match rfind_char(c.as_slice(), '/') {
        Some(i) => {
            assert(i < n);
            let s = slice_vec(c.as_slice(), i + 1, c.len());
            proof { assert(s@ =~= dsl_key@.skip(i + 1)); }
            string_of(s.as_slice())
        },
        None => string_of(c.as_slice()),
    }
}

/// The status of a return step as a documented code: a plain integer
/// in `100..=599`.
pub open spec fn return_code(status: Option<JsonValue>) -> Option<u16> {
    match status {
        Some(JsonValue::Number(n)) => match number_as_u64(n.repr@) {
            Some(u) => if 100 <= u <= 599 { Some(u as u16) } else { None },
            None => None,
        },
        _ => None,
    }
}

/// The documented codes of the return steps, first occurrence first.
pub open spec fn return_codes(ss: Seq<Option<JsonValue>>) -> Seq<u16>
    decreases ss.len(),
{
    if ss.len() == 0 {
        Seq::empty()
    } else {
        let p = return_codes(ss.drop_last());
        match return_code(ss.last()) {
            Some(c) => if p.contains(c) { p } else { p.push(c) },
            None => p,
        }
    }
}

fn contains_code(v: &Vec<u16>, c: u16) -> (r: bool)
    ensures
        r == v@.contains(c),
{
    let mut i: usize = 0;
    while i < v.len()
        invariant
            i <= v@.len(),
            forall|j: int| 0 <= j < i ==> v@[j] != c,
        decreases v@.len() - i,
    {
        if v[i] == c {
            return true;
        }
        i = i + 1;
    }
    false
}

/// The codes a DSL documents, from the `status` of each return step.
pub fn collect_return_statuses(statuses: &Vec<Option<JsonValue>>) -> (r: Vec<u16>)
    ensures
        r@ == return_codes(statuses@),
{
    let mut out: Vec<u16> = Vec::new();
    let mut i: usize = 0;
    while i < statuses.len()
        invariant
            i <= statuses@.len(),
            out@ == return_codes(statuses@.take(i as int)),
        decreases statuses@.len() - i,
    {
        let ghost t1 = statuses@.take(i + 1);
        proof { assert(t1.drop_last() =~= statuses@.take(i as int)); assert(t1.last() == statuses@[i as int]); }
        match &statuses[i] {
            Some(JsonValue::Number(n)) => match number_to_u64(n) {
                Some(u) => {
                    if 100 <= u && u <= 599 {
                        let c = u as u16;
                        if !contains_code(&out, c) {
                            out.push(c);
                        }
                    }
                },
                None => {},
            },
            _ => {},
        }
        i = i + 1;
    }
    proof { assert(statuses@.take(i as int) =~= statuses@); }
    out
}

/// The codes an operation documents: its own (200 when it has none),
/// then 200 unless a 2xx is there, 400 unless a 4xx is, 500 unless it
/// is.
pub open spec fn spec_effective_statuses(codes: Seq<u16>) -> Seq<u16> {
    let base = if codes.len() == 0 { seq![200u16] } else { codes };
    let a = if has_code_in(base, 200, 300) { base } else { base.push(200u16) };
    let b = if has_code_in(a, 400, 500) { a } else { a.push(400u16) };
    if b.contains(500u16) { b } else { b.push(500u16) }
}

/// Some code lies in `lo..hi`.
pub open spec fn has_code_in(s: Seq<u16>, lo: u16, hi: u16) -> bool {
    exists|i: int| 0 <= i < s.len() && lo <= #[trigger] s[i] < hi
}

fn any_in_range(v: &Vec<u16>, lo: u16, hi: u16) -> (r: bool)
    ensures
        r == has_code_in(v@, lo, hi),
{
    let mut i: usize = 0;
    while i < v.len()
        invariant
            i <= v@.len(),
            forall|j: int| 0 <= j < i ==> !(lo <= #[trigger] v@[j] < hi),
        decreases v@.len() - i,
    {
        if lo <= v[i] && v[i] < hi {
            return true;
        }
        i = i + 1;
    }
    false
}

pub fn effective_statuses(codes: &Vec<u16>) -> (r: Vec<u16>)
    ensures
        r@ == spec_effective_statuses(codes@),
{
    let mut out: Vec<u16> = Vec::new();
    if codes.len() == 0 {
        out.push(200);
        proof { assert(out@ =~= seq![200u16]); }
    } else {
        let mut i: usize = 0;
        while i < codes.len()
            invariant
                i <= codes@.len(),
                out@ == codes@.take(i as int),
            decreases codes@.len() - i,
        {
            out.push(codes[i]);
            i = i + 1;
            proof { assert(out@ =~= codes@.take(i as int)); }
        }
        proof { assert(codes@.take(i as int) =~= codes@); }
    }
    let ghost base = out@;
    if !any_in_range(&out, 200, 300) {
        out.push(200);
    }
    let ghost a = out@;
    if !any_in_range(&out, 400, 500) {
        out.push(400);
    }
    let ghost b = out@;
    if !contains_code(&out, 500) {
        out.push(500);
    }
    out
}

/// The reason phrase a response code is documented with.
pub open spec fn spec_status_reason(code: u16) -> Seq<char> {
    if code == 200 { "OK"@ }
    else if code == 201 { "Created"@ }
    else if code == 202 { "Accepted"@ }
    else if code == 204 { "No Content"@ }
    else if code == 301 { "Moved Permanently"@ }
    else if code == 302 { "Found"@ }
    else if code == 304 { "Not Modified"@ }
    else if code == 400 { "Bad Request"@ }
    else if code == 401 { "Unauthorized"@ }
    else if code == 403 { "Forbidden"@ }
    else if code == 404 { "Not Found"@ }
    else if code == 405 { "Method Not Allowed"@ }
    else if code == 409 { "Conflict"@ }
    else if code == 412 { "Precondition Failed"@ }
    else if code == 428 { "Precondition Required"@ }
    else if code == 429 { "Too Many Requests"@ }
    else if code == 500 { "Internal Server Error"@ }
    else if code == 502 { "Bad Gateway"@ }
    else if code == 503 { "Service Unavailable"@ }
    else if code == 504 { "Gateway Timeout"@ }
    else { "Response"@ }
}

pub fn status_reason(code: u16) -> (r: &'static str)
    ensures
        r@ == spec_status_reason(code),
{
    match code {
        200 => "OK",
        201 => "Created",
        202 => "Accepted",
        204 => "No Content",
        301 => "Moved Permanently",
        302 => "Found",
        304 => "Not Modified",
        400 => "Bad Request",
        401 => "Unauthorized",
        403 => "Forbidden",
        404 => "Not Found",
        405 => "Method Not Allowed",
        409 => "Conflict",
        412 => "Precondition Failed",
        428 => "Precondition Required",
        429 => "Too Many Requests",
        500 => "Internal Server Error",
        502 => "Bad Gateway",
        503 => "Service Unavailable",
        504 => "Gateway Timeout",
        _ => "Response",
    }
}

} // verus!
