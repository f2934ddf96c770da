//! The decisions of the composite steps around the script engine:
//! `assign` (its log line), `template` (the target's key and lookup),
//! `iterate` (the list it walks), `state` (what a read binds) and the
//! test-only `http_mock` (the result it binds).
use vstd::prelude::*;
use crate::text::{chars_of, string_of, chars_eq, extend_chars, join};
use crate::json::JsonValue;
use crate::steps::{key_lt, key_less, lemma_key_lt_transitive, lemma_key_lt_irreflexive, spec_exception_key, exception_dsl_key};
use crate::lint::{views, name_listed};
use crate::audit::ProjectRoutes;

verus! {

/// Strings in non-decreasing order.
pub open spec fn strings_sorted(s: Seq<Seq<char>>) -> bool {
    forall|i: int, j: int| 0 <= i < j < s.len() ==> !key_lt(#[trigger] s[j], #[trigger] s[i])
}

fn insert_string(out: &mut Vec<String>, x: String)
    requires
        strings_sorted(views(old(out)@)),
    ensures
        strings_sorted(views(final(out)@)),
        views(final(out)@).to_multiset() == views(old(out)@).to_multiset().insert(x@),
{
    let xc = chars_of(x.as_str());
    let mut p: usize = 0;
    while p < out.len() && !key_less(xc.as_slice(), chars_of(out[p].as_str()).as_slice())
        invariant
            p <= out@.len(),
            xc@ == x@,
            forall|q: int| 0 <= q < p ==> !key_lt(x@, #[trigger] views(out@)[q]),
        decreases out@.len() - p,
    {
        proof { assert(views(out@)[p as int] == out@[p as int]@); }
        p = p + 1;
    }
    let ghost before = views(out@);
    let ghost xv = x@;
    out.insert(p, x);
    proof {
        let now = views(out@);
        assert(now =~= before.insert(p as int, xv));
        assert forall|i: int, j: int| 0 <= i < j < now.len() implies !key_lt(#[trigger] now[j], #[trigger] now[i]) by {
            if j < p {
                assert(now[i] == before[i] && now[j] == before[j]);
            } else if j == p {
                assert(now[i] == before[i]);
            } else if i == p {
                assert(now[j] == before[j - 1]);
                assert(key_lt(xv, before[p as int]));
                if key_lt(before[j - 1], xv) {
                    lemma_key_lt_transitive(before[j - 1], xv, before[p as int]);
                    if j - 1 == p { lemma_key_lt_irreflexive(before[p as int]); }
                }
            } else if i < p {
                assert(now[i] == before[i] && now[j] == before[j - 1]);
            } else {
                assert(now[i] == before[i - 1] && now[j] == before[j - 1]);
            }
        }
        broadcast use vstd::seq_lib::group_to_multiset_ensures;
        assert(now.remove(p as int) =~= before);
        assert(now.to_multiset().remove(xv) =~= before.to_multiset());
        assert(now.contains(xv)) by { assert(now[p as int] == xv); }
        assert(now.to_multiset() =~= before.to_multiset().insert(xv));
    }
}

/// The strings in order (byte-wise, as `sort` orders them).
pub fn sort_strings(v: Vec<String>) -> (r: Vec<String>)
    ensures
        strings_sorted(views(r@)),
        views(r@).to_multiset() == views(v@).to_multiset(),
{
    let ghost all = views(v@);
    let mut rest = v;
    let mut out: Vec<String> = Vec::new();
    let ghost mut done: int = 0;
    proof {
        assert(views(out@) =~= Seq::<Seq<char>>::empty());
        assert(all.take(0) =~= Seq::<Seq<char>>::empty());
    }
    while rest.len() > 0
        invariant
            0 <= done <= all.len(),
            views(rest@) == all.skip(done),
            strings_sorted(views(out@)),
            views(out@).to_multiset() == all.take(done).to_multiset(),
        decreases rest@.len(),
    {
        proof {
            assert(views(rest@).len() == rest@.len());
            assert(all.skip(done)[0] == all[done]);
            assert(views(rest@)[0] == rest@[0]@);
        }
        let ghost rb = rest@;
        let x = rest.remove(0);
        let ghost xv = x@;
        proof {
            assert(xv == all[done]);
            assert forall|k: int| 0 <= k < views(rest@).len() implies views(rest@)[k] == all.skip(done + 1)[k] by {
                assert(rest@[k] == rb[k + 1]);
                assert(views(rb)[k + 1] == all.skip(done)[k + 1]);
            }
        }
        insert_string(&mut out, x);
        proof {
            broadcast use vstd::seq_lib::group_to_multiset_ensures;
            assert(all.take(done + 1) =~= all.take(done).push(xv));
            done = done + 1;
            assert(views(rest@) =~= all.skip(done));
        }
    }
    proof { assert(all.take(done) =~= all); }
    out
}

/// The `keys` log field of an `assign` step: the assigned names,
/// sorted, joined by commas.
pub fn assigned_keys_log(keys: Vec<String>) -> (r: String)
    ensures
        exists|s: Seq<Seq<char>>| strings_sorted(s) && s.to_multiset() == views(keys@).to_multiset()
            && r@ == join(s, ','),
{
    let sorted = sort_strings(keys);
    let mut out: Vec<char> = Vec::new();
    let mut i: usize = 0;
    while i < sorted.len()
        invariant
            i <= sorted@.len(),
            out@ == join(views(sorted@).take(i as int), ','),
        decreases sorted@.len() - i,
    {
        let ghost t1 = views(sorted@).take(i + 1);
        proof { assert(t1.drop_last() =~= views(sorted@).take(i as int)); assert(t1.last() == sorted@[i as int]@); }
        if i > 0 {
            out.push(',');
        }
        extend_chars(&mut out, chars_of(sorted[i].as_str()).as_slice());
        proof {
            if i == 0 { assert(t1.len() == 1); assert(out@ =~= t1[0]); } else { assert(out@ =~= join(t1, ',')); }
        }
        i = i + 1;
    }
    proof { assert(views(sorted@).take(i as int) =~= views(sorted@)); }
    string_of(out.as_slice())
}

/// Method and key of a template target: the step's `request_type`
/// (default `GET`) upper-cased, and `<METHOD>/<path>` with the path's
/// outer slashes trimmed.
pub fn template_dsl_key(request_type: &Option<String>, template: &str) -> (r: (String, String))
    ensures
        (r.0@, r.1@) == spec_exception_key(match request_type { Some(t) => t@, None => "GET"@ }, template@),
{
    match request_type {
        Some(t) => exception_dsl_key(t.as_str(), template),
        None => exception_dsl_key("GET", template),
    }
}

pub open spec fn template_missing_msg(key: Seq<char>, project: Seq<char>) -> Seq<char> {
    "template not found: "@ + key + " (project="@ + project + ")"@
}

/// Index of the first project entry named `project`.
pub open spec fn first_project(http: Seq<ProjectRoutes>, project: Seq<char>) -> Option<int> {
    if exists|p: int| 0 <= p < http.len() && (#[trigger] http[p]).project@ == project {
        Some(choose|p: int| 0 <= p < http.len() && (#[trigger] http[p]).project@ == project
            && forall|q: int| 0 <= q < p ==> (#[trigger] http[q]).project@ != project)
    } else {
        None
    }
}

/// Index of the first method entry named `method`.
pub open spec fn first_method(ms: Seq<crate::audit::MethodRoutes>, method: Seq<char>) -> Option<int> {
    if exists|m: int| 0 <= m < ms.len() && (#[trigger] ms[m]).method@ == method {
        Some(choose|m: int| 0 <= m < ms.len() && (#[trigger] ms[m]).method@ == method
            && forall|q: int| 0 <= q < m ==> (#[trigger] ms[q]).method@ != method)
    } else {
        None
    }
}

/// The tree has DSL `key` under `method` of `project`.
pub open spec fn template_exists(http: Seq<ProjectRoutes>, project: Seq<char>, method: Seq<char>, key: Seq<char>) -> bool {
    match first_project(http, project) {
        Some(p) => match first_method(http[p].methods@, method) {
            Some(m) => views(http[p].methods@[m].keys@).contains(key),
            None => false,
        },
        None => false,
    }
}

/// Check that the template target exists in the project's tree.
pub fn find_template(http: &Vec<ProjectRoutes>, project: &str, method: &str, key: &str) -> (r: Result<(), String>)
    ensures
        r is Ok <==> template_exists(http@, project@, method@, key@),
        r matches Err(e) ==> e@ == template_missing_msg(key@, project@),
{
    let pc = chars_of(project);
    let mc = chars_of(method);
    let kc = chars_of(key);
    let mut p: usize = 0;
    while p < http.len()
        invariant
            p <= http@.len(),
            pc@ == project@,
            mc@ == method@,
            kc@ == key@,
            forall|q: int| 0 <= q < p ==> (#[trigger] http@[q]).project@ != project@,
        decreases http@.len() - p,
    {
        if chars_eq(chars_of(http[p].project.as_str()).as_slice(), pc.as_slice()) {
            proof {
                let w = choose|w: int| 0 <= w < http@.len() && (#[trigger] http@[w]).project@ == project@
                    && forall|q: int| 0 <= q < w ==> (#[trigger] http@[q]).project@ != project@;
                assert(w == p as int) by {
                    if w < p { } else if w > p { assert(http@[p as int].project@ == project@); }
                }
            }
            let ms = &http[p].methods;
            let mut m: usize = 0;
            while m < ms.len()
                invariant
                    m <= ms@.len(),
                    (p as int) < http@.len(),
                    *ms == http@[p as int].methods,
                    first_project(http@, project@) == Some(p as int),
                    pc@ == project@,
                    mc@ == method@,
                    kc@ == key@,
                    forall|q: int| 0 <= q < m ==> (#[trigger] ms@[q]).method@ != method@,
                decreases ms@.len() - m,
            {
                if chars_eq(chars_of(ms[m].method.as_str()).as_slice(), mc.as_slice()) {
                    proof {
                        let w = choose|w: int| 0 <= w < ms@.len() && (#[trigger] ms@[w]).method@ == method@
                            && forall|q: int| 0 <= q < w ==> (#[trigger] ms@[q]).method@ != method@;
                        assert(w == m as int) by {
                            if w < m { } else if w > m { assert(ms@[m as int].method@ == method@); }
                        }
                    }
                    if name_listed(&ms[m].keys, kc.as_slice()) {
                        return Ok(());
                    }
                    return Err(template_missing(kc.as_slice(), pc.as_slice()));
                }
                m = m + 1;
            }
            return Err(template_missing(kc.as_slice(), pc.as_slice()));
        }
        p = p + 1;
    }
    Err(template_missing(kc.as_slice(), pc.as_slice()))
}

fn template_missing(key: &[char], project: &[char]) -> (r: String)
    ensures
        r@ == template_missing_msg(key@, project@),
{
    let mut e = chars_of("template not found: ");
    extend_chars(&mut e, key);
    extend_chars(&mut e, chars_of(" (project=").as_slice());
    extend_chars(&mut e, project);
    extend_chars(&mut e, chars_of(")").as_slice());
    string_of(e.as_slice())
}

/// Why `iterate` refuses its list.
#[derive(Debug)]
pub enum IterateError {
    /// `over` did not evaluate to an array (the value it gave).
    NotArray(JsonValue),
    /// More items than `max_items` (default 10 000).
    TooMany { count: usize, max: usize },
}

/// The default `max_items` of an `iterate` step.
pub const DEFAULT_MAX_ITEMS: usize = 10_000;

/// The items `iterate` walks: the evaluated `over` must be an array of
/// at most `max_items` (default 10 000) items.
pub fn iterate_items(over: JsonValue, max_items: Option<usize>) -> (r: Result<Vec<JsonValue>, IterateError>)
    ensures
        match over {
            JsonValue::Array(items) => {
                let max = match max_items { Some(m) => m, None => 10_000 };
                if items@.len() > max {
                    r matches Err(IterateError::TooMany { count, max: m }) && count == items@.len() && m == max
                } else {
                    r matches Ok(v) && v@ == items@
                }
            },
            _ => r matches Err(IterateError::NotArray(v)) && v == over,
        },
{
    match over {
        JsonValue::Array(items) => {
            let max = match max_items { Some(m) => m, None => DEFAULT_MAX_ITEMS };
            if items.len() > max {
                Err(IterateError::TooMany { count: items.len(), max })
            } else {
                Ok(items)
            }
        },
        other => Err(IterateError::NotArray(other)),
    }
}

/// What a `state: get` binds: the stored value, or `null` on a miss;
/// and whether it was a hit.
pub fn state_get_binding(found: Option<JsonValue>) -> (r: (JsonValue, bool))
    ensures
        match found {
            Some(v) => r.0 == v && r.1,
            None => r.0 is Null && !r.1,
        },
{
    match found {
        Some(v) => (v, true),
        None => (JsonValue::Null, false),
    }
}

/// `r` is the result an `http_mock` step binds for `status`, `body`
/// and `request`.
pub open spec fn mock_bound(r: JsonValue, status: u16, body: JsonValue, request: Option<JsonValue>) -> bool {
    r matches JsonValue::Object(ms) && {
            let resp_at = if request is Some { 1int } else { 0 };
            &&& ms@.len() == resp_at + 1
            &&& (request matches Some(q) ==> ms@[0].0@ == "request"@ && ms@[0].1 == q)
            &&& ms@[resp_at].0@ == "response"@
            &&& ms@[resp_at].1 matches JsonValue::Object(rs) && rs@.len() == 3
                && rs@[0].0@ == "body"@ && rs@[0].1 == body
                && rs@[1].0@ == "headers"@ && (rs@[1].1 matches JsonValue::Object(h) && h@.len() == 0)
                && rs@[2].0@ == "status"@ && (rs@[2].1 matches JsonValue::Number(n) && n.repr@ == crate::text::decimal(status as nat))
        }
}

/// The result an `http_mock` step binds:
/// `{"request": <req>, "response": {"body": <body>, "headers": {}, "status": <status>}}`
/// (members in key order; `request` only when the step has one).
pub fn mock_binding(status: u16, body: JsonValue, request: Option<JsonValue>) -> (r: JsonValue)
    ensures
        mock_bound(r, status, body, request),
{
    let mut resp: Vec<(String, JsonValue)> = Vec::new();
    resp.push(("body".to_string(), body));
    resp.push(("headers".to_string(), JsonValue::Object(Vec::new())));
    let n = crate::json::JsonNumber { repr: crate::text::decimal_string(status as u128) };
    resp.push(("status".to_string(), JsonValue::Number(n)));
    let mut out: Vec<(String, JsonValue)> = Vec::new();
    match request {
        Some(q) => out.push(("request".to_string(), q)),
        None => {},
    }
    out.push(("response".to_string(), JsonValue::Object(resp)));
    JsonValue::Object(out)
}

} // verus!
