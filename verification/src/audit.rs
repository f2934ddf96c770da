//! Guard audit: for every HTTP route of the loaded tree, the guard keys
//! that gate it (empty for an unguarded route), sorted by project,
//! method and path so that reports are stable.
use vstd::prelude::*;
use crate::config::GuardMode;
use crate::text::{chars_of, string_of, slice_vec, starts_with, chars_eq, to_upper_vec, upper_seq, is_prefix};
use crate::steps::{key_lt, key_less, lemma_key_lt_transitive, lemma_key_lt_total, lemma_key_lt_irreflexive};
use crate::guards::{ProjectGuards, well_formed_table, spec_guard_keys, view_keys, guard_keys_for_dsl};

verus! {

/// One route and the guards that gate it.
#[derive(Debug, Clone)]
pub struct RouteAudit {
    pub project: String,
    pub method: String,
    /// The route path below the method (`admin/users` for the DSL key
    /// `POST/admin/users`).
    pub path: String,
    /// The full DSL key, method prefix included.
    pub dsl_key: String,
    /// Guard keys, outermost first; empty when nothing gates the route.
    pub guards: Vec<String>,
}

impl RouteAudit {
    pub fn is_unguarded(&self) -> (r: bool)
        ensures
            r == (self.guards@.len() == 0),
    {
        self.guards.len() == 0
    }
}

/// The DSL keys loaded for one method directory.
#[derive(Debug, Clone)]
pub struct MethodRoutes {
    pub method: String,
    pub keys: Vec<String>,
}

/// The HTTP routes of one project.
#[derive(Debug, Clone)]
pub struct ProjectRoutes {
    pub project: String,
    pub methods: Vec<MethodRoutes>,
}

/// The HTTP methods whose routes the guard chain covers.
pub open spec fn is_http_method_name(name: Seq<char>) -> bool {
    let u = upper_seq(name);
    u == "GET"@ || u == "POST"@ || u == "PUT"@ || u == "PATCH"@ || u == "DELETE"@ || u == "OPTIONS"@ || u == "HEAD"@
}

/// A method directory that routes HTTP requests (ASCII case ignored);
/// `WS` and other directories are not.
pub fn is_http_method(name: &str) -> (r: bool)
    ensures
        r == is_http_method_name(name@),
{
    let u = to_upper_vec(chars_of(name).as_slice());
    let us = u.as_slice();
    chars_eq(us, chars_of("GET").as_slice()) || chars_eq(us, chars_of("POST").as_slice())
        || chars_eq(us, chars_of("PUT").as_slice()) || chars_eq(us, chars_of("PATCH").as_slice())
        || chars_eq(us, chars_of("DELETE").as_slice()) || chars_eq(us, chars_of("OPTIONS").as_slice())
        || chars_eq(us, chars_of("HEAD").as_slice())
}

/// The route path of a DSL key: the key without its `<method>/` prefix
/// (the key itself when it lacks one).
pub open spec fn route_path(dsl_key: Seq<char>, method: Seq<char>) -> Seq<char> {
    let p = method.push('/');
    if is_prefix(p, dsl_key) { dsl_key.skip(p.len() as int) } else { dsl_key }
}

pub fn strip_method(dsl_key: &str, method: &str) -> (r: String)
    ensures
        r@ == route_path(dsl_key@, method@),
{
    let mut p = chars_of(method);
    p.push('/');
    let k = chars_of(dsl_key);
    if starts_with(k.as_slice(), p.as_slice()) {
        let rest = slice_vec(k.as_slice(), p.len(), k.len());
        proof { assert(rest@ =~= dsl_key@.skip(p@.len() as int)); }
        string_of(rest.as_slice())
    } else {
        string_of(k.as_slice())
    }
}

/// `a` is a correct audit of DSL `key` of `method` in `project`.
pub open spec fn audits(a: RouteAudit, project: Seq<char>, method: Seq<char>, key: Seq<char>,
    guards: Seq<ProjectGuards>, mode: GuardMode) -> bool
{
    &&& a.project@ == project
    &&& a.method@ == method
    &&& a.dsl_key@ == key
    &&& a.path@ == route_path(key, method)
    &&& (forall|i: int| 0 <= i < guards.len() ==> (#[trigger] guards[i]).project@ != project) ==> a.guards@.len() == 0
    &&& forall|i: int| 0 <= i < guards.len() && (#[trigger] guards[i]).project@ == project
        ==> spec_guard_keys(view_keys(a.guards@), guards[i].guards@, key, mode)
}

/// Route `k` of method `m` of project `p` exists and is an HTTP route.
pub open spec fn is_route(http: Seq<ProjectRoutes>, p: int, m: int, k: int) -> bool {
    &&& 0 <= p < http.len()
    &&& 0 <= m < http[p].methods@.len()
    &&& 0 <= k < http[p].methods@[m].keys@.len()
    &&& is_http_method_name(http[p].methods@[m].method@)
}

/// `a` audits some HTTP route of the tree.
pub open spec fn audits_some_route(a: RouteAudit, http: Seq<ProjectRoutes>, guards: Seq<ProjectGuards>, mode: GuardMode) -> bool {
    exists|p: int, m: int, k: int| #[trigger] is_route(http, p, m, k)
        && audits(a, http[p].project@, http[p].methods@[m].method@, http[p].methods@[m].keys@[k]@, guards, mode)
}

/// Number of HTTP routes among the first `m` methods of a project.
pub open spec fn method_route_count(ms: Seq<MethodRoutes>) -> nat
    decreases ms.len(),
{
    if ms.len() == 0 {
        0
    } else {
        method_route_count(ms.drop_last())
            + if is_http_method_name(ms.last().method@) { ms.last().keys@.len() } else { 0 }
    }
}

/// Number of HTTP routes of the tree.
pub open spec fn route_count(http: Seq<ProjectRoutes>) -> nat
    decreases http.len(),
{
    if http.len() == 0 { 0 } else { route_count(http.drop_last()) + method_route_count(http.last().methods@) }
}

/// Order of audits by project, then method, then path.
pub open spec fn audit_lt(a: RouteAudit, b: RouteAudit) -> bool {
    key_lt(a.project@, b.project@)
        || (a.project@ == b.project@ && (key_lt(a.method@, b.method@)
            || (a.method@ == b.method@ && key_lt(a.path@, b.path@))))
}

pub open spec fn audits_sorted(s: Seq<RouteAudit>) -> bool {
    forall|i: int, j: int| 0 <= i < j < s.len() ==> !audit_lt(#[trigger] s[j], #[trigger] s[i])
}

proof fn lemma_audit_lt_transitive(a: RouteAudit, b: RouteAudit, c: RouteAudit)
    requires
        audit_lt(a, b),
        audit_lt(b, c),
    ensures
        audit_lt(a, c),
{
    if key_lt(a.project@, b.project@) && key_lt(b.project@, c.project@) {
        lemma_key_lt_transitive(a.project@, b.project@, c.project@);
    } else if a.project@ == b.project@ && b.project@ == c.project@ {
        if key_lt(a.method@, b.method@) && key_lt(b.method@, c.method@) {
            lemma_key_lt_transitive(a.method@, b.method@, c.method@);
        } else if a.method@ == b.method@ && b.method@ == c.method@ {
            lemma_key_lt_transitive(a.path@, b.path@, c.path@);
        }
    }
}

fn audit_less(a: &RouteAudit, b: &RouteAudit) -> (r: bool)
    ensures
        r == audit_lt(*a, *b),
{
    let ap = chars_of(a.project.as_str());
    let bp = chars_of(b.project.as_str());
    if key_less(ap.as_slice(), bp.as_slice()) {
        return true;
    }
    if !chars_eq(ap.as_slice(), bp.as_slice()) {
        return false;
    }
    let am = chars_of(a.method.as_str());
    let bm = chars_of(b.method.as_str());
    if key_less(am.as_slice(), bm.as_slice()) {
        return true;
    }
    if !chars_eq(am.as_slice(), bm.as_slice()) {
        return false;
    }
    key_less(chars_of(a.path.as_str()).as_slice(), chars_of(b.path.as_str()).as_slice())
}

/// Insert `x` after every element that does not sort after it.
fn insert_sorted(out: &mut Vec<RouteAudit>, x: RouteAudit)
    requires
        audits_sorted(old(out)@),
    ensures
        audits_sorted(final(out)@),
        final(out)@.to_multiset() == old(out)@.to_multiset().insert(x),
{
    let ghost xv = x;
    let mut p: usize = 0;
    while p < out.len() && !audit_less(&x, &out[p])
        invariant
            p <= out@.len(),
            x == xv,
            forall|q: int| 0 <= q < p ==> !audit_lt(xv, #[trigger] out@[q]),
        decreases out@.len() - p,
    {
        p = p + 1;
    }
    let ghost before = out@;
    out.insert(p, x);
    proof {
        let now = out@;
        assert(now =~= before.insert(p as int, xv));
        assert forall|i: int, j: int| 0 <= i < j < now.len() implies !audit_lt(#[trigger] now[j], #[trigger] now[i]) by {
            if j < p {
                assert(now[i] == before[i] && now[j] == before[j]);
            } else if j == p {
                assert(now[i] == before[i]);
            } else if i == p {
                assert(now[j] == before[j - 1]);
                assert(audit_lt(xv, before[p as int]));
                if audit_lt(before[j - 1], xv) {
                    lemma_audit_lt_transitive(before[j - 1], xv, before[p as int]);
                    if j - 1 == p {
                        lemma_key_lt_irreflexive(before[p as int].project@);
                        lemma_key_lt_irreflexive(before[p as int].method@);
                        lemma_key_lt_irreflexive(before[p as int].path@);
                    } else {
                        assert(!audit_lt(before[j - 1], before[p as int]));
                    }
                }
            } else if i < p {
                assert(now[i] == before[i] && now[j] == before[j - 1]);
            } else {
                assert(now[i] == before[i - 1] && now[j] == before[j - 1]);
            }
        }
        assert(now.remove(p as int) =~= before);
        broadcast use vstd::seq_lib::group_to_multiset_ensures;
        assert(now.to_multiset().remove(xv) =~= before.to_multiset());
        assert(now.contains(xv)) by { assert(now[p as int] == xv); }
        assert(now.to_multiset().count(xv) > 0);
        assert(now.to_multiset() =~= before.to_multiset().insert(xv));
    }
}

/// Some audit in `out` audits this route.
pub open spec fn covers(out: Seq<RouteAudit>, project: Seq<char>, method: Seq<char>, key: Seq<char>,
    guards: Seq<ProjectGuards>, mode: GuardMode) -> bool
{
    exists|i: int| 0 <= i < out.len() && audits(#[trigger] out[i], project, method, key, guards, mode)
}

/// Everything `a` held, `b` still holds.
pub open spec fn retains(a: Seq<RouteAudit>, b: Seq<RouteAudit>) -> bool {
    forall|y: RouteAudit| a.contains(y) ==> #[trigger] b.contains(y)
}

proof fn lemma_covers_retained(a: Seq<RouteAudit>, b: Seq<RouteAudit>, project: Seq<char>, method: Seq<char>, key: Seq<char>,
    guards: Seq<ProjectGuards>, mode: GuardMode)
    requires
        retains(a, b),
        covers(a, project, method, key, guards, mode),
    ensures
        covers(b, project, method, key, guards, mode),
{
    let i = choose|i: int| 0 <= i < a.len() && audits(#[trigger] a[i], project, method, key, guards, mode);
    assert(a.contains(a[i]));
    assert(b.contains(a[i]));
    let j = choose|j: int| 0 <= j < b.len() && b[j] == a[i];
    assert(audits(b[j], project, method, key, guards, mode));
}

/// Audit `x` and insert it in order.
fn add_audit(out: &mut Vec<RouteAudit>, x: RouteAudit)
    requires
        audits_sorted(old(out)@),
    ensures
        audits_sorted(final(out)@),
        final(out)@.len() == old(out)@.len() + 1,
        retains(old(out)@, final(out)@),
        final(out)@.contains(x),
        forall|i: int| 0 <= i < final(out)@.len() ==> old(out)@.contains(#[trigger] final(out)@[i]) || final(out)@[i] == x,
{
    let ghost before = out@;
    let ghost xv = x;
    insert_sorted(out, x);
    proof {
        broadcast use vstd::seq_lib::group_to_multiset_ensures;
        let now = out@;
        assert(now.len() == now.to_multiset().len());
        assert(before.len() == before.to_multiset().len());
        assert forall|y: RouteAudit| before.contains(y) implies #[trigger] now.contains(y) by {
            assert(before.to_multiset().count(y) > 0);
            assert(now.to_multiset().count(y) > 0);
        }
        assert(now.to_multiset().count(xv) > 0);
        assert forall|i: int| 0 <= i < now.len() implies before.contains(#[trigger] now[i]) || now[i] == xv by {
            assert(now.contains(now[i]));
            assert(now.to_multiset().count(now[i]) > 0);
            if now[i] != xv {
                assert(before.to_multiset().count(now[i]) > 0);
            }
        }
    }
}

/// Audit every DSL key of one method directory (none when it is not an
/// HTTP method) into `out`, keeping `out` sorted.
fn audit_method(out: &mut Vec<RouteAudit>, project: &String, mr: &MethodRoutes, guards: &Vec<ProjectGuards>, mode: GuardMode)
    requires
        audits_sorted(old(out)@),
        well_formed_table(guards@),
    ensures
        audits_sorted(final(out)@),
        final(out)@.len() == old(out)@.len() + (if is_http_method_name(mr.method@) { mr.keys@.len() } else { 0 }),
        retains(old(out)@, final(out)@),
        forall|i: int| 0 <= i < final(out)@.len() ==> old(out)@.contains(#[trigger] final(out)@[i])
            || (is_http_method_name(mr.method@) && exists|k: int| 0 <= k < mr.keys@.len()
                && audits(final(out)@[i], project@, mr.method@, #[trigger] mr.keys@[k]@, guards@, mode)),
        is_http_method_name(mr.method@) ==> forall|k: int| 0 <= k < mr.keys@.len()
            ==> covers(final(out)@, project@, mr.method@, (#[trigger] mr.keys@[k])@, guards@, mode),
{
    if !is_http_method(mr.method.as_str()) {
        proof { assert(retains(out@, out@)) by { assert forall|y: RouteAudit| out@.contains(y) implies #[trigger] out@.contains(y) by {} } }
        return;
    }
    let ghost start = out@;
    let mut k: usize = 0;
    while k < mr.keys.len()
        invariant
            k <= mr.keys@.len(),
            is_http_method_name(mr.method@),
            well_formed_table(guards@),
            audits_sorted(out@),
            out@.len() == start.len() + k,
            retains(start, out@),
            forall|i: int| 0 <= i < out@.len() ==> start.contains(#[trigger] out@[i])
                || exists|q: int| 0 <= q < mr.keys@.len() && audits(out@[i], project@, mr.method@, #[trigger] mr.keys@[q]@, guards@, mode),
            forall|q: int| 0 <= q < k ==> covers(out@, project@, mr.method@, (#[trigger] mr.keys@[q])@, guards@, mode),
        decreases mr.keys@.len() - k,
    {
        let key = &mr.keys[k];
        let gk = guard_keys_for_dsl(project.as_str(), key.as_str(), guards, mode);
        let a = RouteAudit {
            project: project.clone(),
            method: mr.method.clone(),
            path: strip_method(key.as_str(), mr.method.as_str()),
            dsl_key: key.clone(),
            guards: gk,
        };
        let ghost av = a;
        let ghost prev = out@;
        proof { assert(audits(av, project@, mr.method@, mr.keys@[k as int]@, guards@, mode)); }
        add_audit(out, a);
        proof {
            let now = out@;
            assert forall|y: RouteAudit| start.contains(y) implies #[trigger] now.contains(y) by {
                assert(prev.contains(y));
            }
            assert forall|i: int| 0 <= i < now.len() implies start.contains(#[trigger] now[i])
                || exists|q: int| 0 <= q < mr.keys@.len() && audits(now[i], project@, mr.method@, #[trigger] mr.keys@[q]@, guards@, mode) by {
                if now[i] == av {
                    assert(audits(now[i], project@, mr.method@, mr.keys@[k as int]@, guards@, mode));
                } else {
                    assert(prev.contains(now[i]));
                    let j = choose|j: int| 0 <= j < prev.len() && prev[j] == now[i];
                    assert(start.contains(prev[j]) || exists|q: int| 0 <= q < mr.keys@.len() && audits(prev[j], project@, mr.method@, #[trigger] mr.keys@[q]@, guards@, mode));
                }
            }
            assert forall|q: int| 0 <= q < k + 1 implies covers(now, project@, mr.method@, (#[trigger] mr.keys@[q])@, guards@, mode) by {
                if q < k {
                    assert(covers(prev, project@, mr.method@, mr.keys@[q]@, guards@, mode));
                    lemma_covers_retained(prev, now, project@, mr.method@, mr.keys@[q]@, guards@, mode);
                } else {
                    assert(now.contains(av));
                    let j = choose|j: int| 0 <= j < now.len() && now[j] == av;
                    assert(audits(now[j], project@, mr.method@, mr.keys@[q]@, guards@, mode));
                }
            }
        }
        k = k + 1;
    }
}

/// `a` audits an HTTP route of project `pr`.
pub open spec fn audits_project_route(a: RouteAudit, pr: ProjectRoutes, guards: Seq<ProjectGuards>, mode: GuardMode) -> bool {
    exists|m: int, k: int| 0 <= m < pr.methods@.len() && 0 <= k < pr.methods@[m].keys@.len()
        && is_http_method_name(pr.methods@[m].method@)
        && #[trigger] audits(a, pr.project@, pr.methods@[m].method@, pr.methods@[m].keys@[k]@, guards, mode)
}

/// Audit every HTTP route of one project into `out`.
fn audit_project(out: &mut Vec<RouteAudit>, pr: &ProjectRoutes, guards: &Vec<ProjectGuards>, mode: GuardMode)
    requires
        audits_sorted(old(out)@),
        well_formed_table(guards@),
    ensures
        audits_sorted(final(out)@),
        final(out)@.len() == old(out)@.len() + method_route_count(pr.methods@),
        retains(old(out)@, final(out)@),
        forall|i: int| 0 <= i < final(out)@.len() ==> old(out)@.contains(#[trigger] final(out)@[i])
            || audits_project_route(final(out)@[i], *pr, guards@, mode),
        forall|m: int, k: int| 0 <= m < pr.methods@.len() && 0 <= k < pr.methods@[m].keys@.len()
            && is_http_method_name(pr.methods@[m].method@)
            ==> #[trigger] covers(final(out)@, pr.project@, pr.methods@[m].method@, pr.methods@[m].keys@[k]@, guards@, mode),
{
    let ghost start = out@;
    let mut m: usize = 0;
    proof {
        assert(pr.methods@.take(0) =~= Seq::<MethodRoutes>::empty());
        assert forall|y: RouteAudit| start.contains(y) implies #[trigger] out@.contains(y) by {}
    }
    while m < pr.methods.len()
        invariant
            m <= pr.methods@.len(),
            well_formed_table(guards@),
            audits_sorted(out@),
            out@.len() == start.len() + method_route_count(pr.methods@.take(m as int)),
            retains(start, out@),
            forall|i: int| 0 <= i < out@.len() ==> start.contains(#[trigger] out@[i])
                || audits_project_route(out@[i], *pr, guards@, mode),
            forall|mm: int, k: int| 0 <= mm < m && 0 <= k < pr.methods@[mm].keys@.len()
                && is_http_method_name(pr.methods@[mm].method@)
                ==> #[trigger] covers(out@, pr.project@, pr.methods@[mm].method@, pr.methods@[mm].keys@[k]@, guards@, mode),
        decreases pr.methods@.len() - m,
    {
        let ghost prev = out@;
        let mr = &pr.methods[m];
        audit_method(out, &pr.project, mr, guards, mode);
        proof {
            let now = out@;
            let t1 = pr.methods@.take(m + 1);
            assert(t1.drop_last() =~= pr.methods@.take(m as int));
            assert(t1.last() == pr.methods@[m as int]);
            assert forall|y: RouteAudit| start.contains(y) implies #[trigger] now.contains(y) by {
                assert(prev.contains(y));
            }
            assert forall|i: int| 0 <= i < now.len() implies start.contains(#[trigger] now[i])
                || audits_project_route(now[i], *pr, guards@, mode) by {
                if prev.contains(now[i]) {
                    let j = choose|j: int| 0 <= j < prev.len() && prev[j] == now[i];
                    assert(start.contains(prev[j]) || audits_project_route(prev[j], *pr, guards@, mode));
                } else {
                    let k = choose|k: int| 0 <= k < mr.keys@.len()
                        && audits(now[i], pr.project@, mr.method@, #[trigger] mr.keys@[k]@, guards@, mode);
                    assert(audits(now[i], pr.project@, pr.methods@[m as int].method@, pr.methods@[m as int].keys@[k]@, guards@, mode));
                }
            }
            assert forall|mm: int, k: int| 0 <= mm < m + 1 && 0 <= k < pr.methods@[mm].keys@.len()
                && is_http_method_name(pr.methods@[mm].method@)
                implies #[trigger] covers(now, pr.project@, pr.methods@[mm].method@, pr.methods@[mm].keys@[k]@, guards@, mode) by {
                if mm < m {
                    assert(covers(prev, pr.project@, pr.methods@[mm].method@, pr.methods@[mm].keys@[k]@, guards@, mode));
                    lemma_covers_retained(prev, now, pr.project@, pr.methods@[mm].method@, pr.methods@[mm].keys@[k]@, guards@, mode);
                } else {
                    assert(covers(now, pr.project@, mr.method@, mr.keys@[k]@, guards@, mode));
                }
            }
        }
        m = m + 1;
    }
    proof { assert(pr.methods@.take(m as int) =~= pr.methods@); }
}

/// Audit every HTTP route of the loaded tree: one record per route,
/// sorted by project, method and path. Routes of non-HTTP method
/// directories (`WS`) are left out.
pub fn audit_all_routes(http: &Vec<ProjectRoutes>, guards: &Vec<ProjectGuards>, mode: GuardMode) -> (r: Vec<RouteAudit>)
    requires
        well_formed_table(guards@),
    ensures
        audits_sorted(r@),
        r@.len() == route_count(http@),
        forall|i: int| 0 <= i < r@.len() ==> audits_some_route(#[trigger] r@[i], http@, guards@, mode),
        forall|p: int, m: int, k: int| #[trigger] is_route(http@, p, m, k)
            ==> covers(r@, http@[p].project@, http@[p].methods@[m].method@, http@[p].methods@[m].keys@[k]@, guards@, mode),
{
    let mut out: Vec<RouteAudit> = Vec::new();
    let mut p: usize = 0;
    proof { assert(http@.take(0) =~= Seq::<ProjectRoutes>::empty()); }
    while p < http.len()
        invariant
            p <= http@.len(),
            well_formed_table(guards@),
            audits_sorted(out@),
            out@.len() == route_count(http@.take(p as int)),
            forall|i: int| 0 <= i < out@.len() ==> audits_some_route(#[trigger] out@[i], http@, guards@, mode),
            forall|pp: int, m: int, k: int| #[trigger] is_route(http@, pp, m, k) && pp < p
                ==> covers(out@, http@[pp].project@, http@[pp].methods@[m].method@, http@[pp].methods@[m].keys@[k]@, guards@, mode),
        decreases http@.len() - p,
    {
        let ghost prev = out@;
        let pr = &http[p];
        audit_project(&mut out, pr, guards, mode);
        proof {
            let now = out@;
            let t1 = http@.take(p + 1);
            assert(t1.drop_last() =~= http@.take(p as int));
            assert(t1.last() == http@[p as int]);
            assert forall|i: int| 0 <= i < now.len() implies audits_some_route(#[trigger] now[i], http@, guards@, mode) by {
                if prev.contains(now[i]) {
                    let j = choose|j: int| 0 <= j < prev.len() && prev[j] == now[i];
                    assert(audits_some_route(prev[j], http@, guards@, mode));
                } else {
                    assert(audits_project_route(now[i], *pr, guards@, mode));
                    let (m, k) = choose|m: int, k: int| 0 <= m < pr.methods@.len() && 0 <= k < pr.methods@[m].keys@.len()
                        && is_http_method_name(pr.methods@[m].method@)
                        && #[trigger] audits(now[i], pr.project@, pr.methods@[m].method@, pr.methods@[m].keys@[k]@, guards@, mode);
                    assert(is_route(http@, p as int, m, k));
                }
            }
            assert forall|pp: int, m: int, k: int| #[trigger] is_route(http@, pp, m, k) && pp < p + 1
                implies covers(now, http@[pp].project@, http@[pp].methods@[m].method@, http@[pp].methods@[m].keys@[k]@, guards@, mode) by {
                if pp < p {
                    lemma_covers_retained(prev, now, http@[pp].project@, http@[pp].methods@[m].method@, http@[pp].methods@[m].keys@[k]@, guards@, mode);
                } else {
                    assert(covers(now, pr.project@, pr.methods@[m].method@, pr.methods@[m].keys@[k]@, guards@, mode));
                }
            }
        }
        p = p + 1;
    }
    proof { assert(http@.take(p as int) =~= http@); }
    out
}

} // verus!
