//! Guard resolution: which guard keys gate a DSL route, in execution
//! order, plus the per-request guard stack that rejects re-entrant
//! guard chains.
//!
//! A guard stored under key `K` (for instance `POST/admin`) protects the
//! DSL whose key is exactly `K` and every DSL whose key starts with
//! `K/`. A project-level guard, stored under [`PROJECT_GUARD_KEY`],
//! always runs first. A matching guard declared with
//! `override_ancestors` replaces every other guard (the most specific
//! such guard wins).
use vstd::prelude::*;
use crate::config::GuardMode;
use crate::text::{is_prefix, chars_of, chars_eq, slice_vec, starts_with};

verus! {

/// The key under which a project-wide guard is stored.
pub const PROJECT_GUARD_KEY: &'static str = "_project";

pub open spec fn project_guard_key() -> Seq<char> {
    seq!['_', 'p', 'r', 'o', 'j', 'e', 'c', 't']
}

/// One guard of a project: its key and whether its declaration sets
/// `override_ancestors: true`.
#[derive(Debug, Clone)]
pub struct GuardEntry {
    pub key: String,
    pub override_ancestors: bool,
}

/// Every guard of one project.
#[derive(Debug, Clone)]
pub struct ProjectGuards {
    pub project: String,
    pub guards: Vec<GuardEntry>,
}

/// Keys of a guard list are pairwise distinct (they come from a map).
pub open spec fn distinct_keys(gs: Seq<GuardEntry>) -> bool {
    forall|i: int, j: int| 0 <= i < gs.len() && 0 <= j < gs.len() && i != j ==> gs[i].key@ != gs[j].key@
}

/// Projects of a guard table are pairwise distinct and each project's
/// keys are distinct.
pub open spec fn well_formed_table(t: Seq<ProjectGuards>) -> bool {
    &&& forall|i: int, j: int| 0 <= i < t.len() && 0 <= j < t.len() && i != j ==> t[i].project@ != t[j].project@
    &&& forall|i: int| 0 <= i < t.len() ==> distinct_keys(#[trigger] t[i].guards@)
}

/// Guard key `k` gates the DSL with key `dsl`.
pub open spec fn gates(k: Seq<char>, dsl: Seq<char>) -> bool {
    k == dsl || is_prefix(k.push('/'), dsl)
}

/// A method-scoped guard (anything but the project guard) that gates `dsl`.
pub open spec fn scoped_match(k: Seq<char>, dsl: Seq<char>) -> bool {
    k != project_guard_key() && gates(k, dsl)
}

/// Keys that gate `dsl`: all of them, strictly ordered by length
/// (outermost first). Two gating keys of equal length are equal, so
/// this order is total.
/// `k` is the key of some guard in `gs`.
pub open spec fn key_in(gs: Seq<GuardEntry>, k: Seq<char>) -> bool {
    exists|j: int| 0 <= j < gs.len() && (#[trigger] gs[j]).key@ == k
}

pub open spec fn is_ordered_match_list(out: Seq<Seq<char>>, gs: Seq<GuardEntry>, dsl: Seq<char>) -> bool {
    &&& forall|i: int| 0 <= i < out.len() ==> key_in(gs, #[trigger] out[i])
    &&& forall|i: int| 0 <= i < out.len() ==> scoped_match(#[trigger] out[i], dsl)
    &&& forall|j: int| 0 <= j < gs.len() && scoped_match(#[trigger] gs[j].key@, dsl) ==> out.contains(gs[j].key@)
    &&& forall|a: int, b: int| 0 <= a < b < out.len() ==> out[a].len() < out[b].len()
}

/// Some gating guard declares `override_ancestors`.
pub open spec fn has_override(gs: Seq<GuardEntry>, dsl: Seq<char>) -> bool {
    exists|j: int| 0 <= j < gs.len() && gs[j].override_ancestors && scoped_match(#[trigger] gs[j].key@, dsl)
}

/// `k` is the longest gating key among guards that declare an override.
pub open spec fn is_longest_override(k: Seq<char>, gs: Seq<GuardEntry>, dsl: Seq<char>) -> bool {
    &&& exists|j: int| 0 <= j < gs.len() && gs[j].override_ancestors && scoped_match(gs[j].key@, dsl) && gs[j].key@ == k
    &&& forall|j: int| 0 <= j < gs.len() && gs[j].override_ancestors && scoped_match(#[trigger] gs[j].key@, dsl)
        ==> gs[j].key@.len() <= k.len()
}

/// The project guard is present.
pub open spec fn has_project_guard(gs: Seq<GuardEntry>) -> bool {
    exists|j: int| 0 <= j < gs.len() && #[trigger] gs[j].key@ == project_guard_key()
}

pub open spec fn view_keys(v: Seq<String>) -> Seq<Seq<char>> {
    v.map_values(|s: String| s@)
}

/// The guard keys that gate `dsl`, outermost first, for one project's
/// guard list `gs` under `mode`.
pub open spec fn spec_guard_keys(out: Seq<Seq<char>>, gs: Seq<GuardEntry>, dsl: Seq<char>, mode: GuardMode) -> bool {
    if has_override(gs, dsl) {
        out.len() == 1 && is_longest_override(out[0], gs, dsl)
    } else {
        let scoped = if has_project_guard(gs) { out.drop_first() } else { out };
        &&& has_project_guard(gs) ==> out.len() >= 1 && out[0] == project_guard_key()
        &&& match mode {
            GuardMode::Stack => is_ordered_match_list(scoped, gs, dsl),
            GuardMode::ClosestOnly => exists|all: Seq<Seq<char>>| #[trigger] is_ordered_match_list(all, gs, dsl)
                && scoped == (if all.len() == 0 { Seq::<Seq<char>>::empty() } else { seq![all.last()] }),
        }
    }
}

/// A gating key is the prefix of `dsl` of its own length, ending at the
/// end of `dsl` or just before a `/`.
pub proof fn lemma_gates_shape(k: Seq<char>, dsl: Seq<char>)
    ensures
        gates(k, dsl) <==> (k.len() <= dsl.len() && dsl.subrange(0, k.len() as int) == k
            && (k.len() == dsl.len() || dsl[k.len() as int] == '/')),
{
    if gates(k, dsl) {
        if k != dsl {
            let kp = k.push('/');
            assert(dsl.subrange(0, kp.len() as int) == kp);
            assert(dsl.subrange(0, k.len() as int) =~= kp.subrange(0, k.len() as int));
            assert(kp.subrange(0, k.len() as int) =~= k);
            assert(dsl[k.len() as int] == dsl.subrange(0, kp.len() as int)[k.len() as int]);
        } else {
            assert(dsl.subrange(0, k.len() as int) =~= k);
        }
    }
    if k.len() <= dsl.len() && dsl.subrange(0, k.len() as int) == k
        && (k.len() == dsl.len() || dsl[k.len() as int] == '/') {
        if k.len() == dsl.len() {
            assert(dsl =~= dsl.subrange(0, k.len() as int));
        } else {
            assert(dsl.subrange(0, k.len() as int + 1) =~= k.push('/'));
        }
    }
}

/// Two gating keys of the same length are the same key.
pub proof fn lemma_gating_keys_same_len(a: Seq<char>, b: Seq<char>, dsl: Seq<char>)
    requires
        gates(a, dsl),
        gates(b, dsl),
        a.len() == b.len(),
    ensures
        a == b,
{
    lemma_gates_shape(a, dsl);
    lemma_gates_shape(b, dsl);
}

/// Does guard key `k` gate `dsl`?
pub fn key_gates(k: &[char], dsl: &[char]) -> (r: bool)
    ensures
        r == gates(k@, dsl@),
{
    if chars_eq(k, dsl) {
        return true;
    }
    let mut with_slash: Vec<char> = slice_vec(k, 0, k.len());
    with_slash.push('/');
    proof { assert(k@.subrange(0, k@.len() as int) == k@); }
    starts_with(dsl, with_slash.as_slice())
}

fn is_project_key(k: &[char]) -> (r: bool)
    ensures
        r == (k@ == project_guard_key()),
{
    chars_eq(k, &['_', 'p', 'r', 'o', 'j', 'e', 'c', 't'])
}

/// Index of the guard whose key is `k`.
fn find_guard(gs: &Vec<GuardEntry>, k: &[char]) -> (r: Option<usize>)
    ensures
        r matches Some(j) ==> j < gs@.len() && gs@[j as int].key@ == k@,
        r is None ==> forall|j: int| 0 <= j < gs@.len() ==> (#[trigger] gs@[j]).key@ != k@,
{
    let mut j: usize = 0;
    while j < gs.len()
        invariant
            j <= gs@.len(),
            forall|x: int| 0 <= x < j ==> (#[trigger] gs@[x]).key@ != k@,
        decreases gs@.len() - j,
    {
        let kc = chars_of(gs[j].key.as_str());
        if chars_eq(kc.as_slice(), k) {
            return Some(j);
        }
        j = j + 1;
    }
    None
}

/// Indices of the guards in `gs` whose keys gate `dsl` (the project
/// guard excluded), in strictly increasing key length.
fn sorted_matches(gs: &Vec<GuardEntry>, dsl: &[char]) -> (out: Vec<usize>)
    requires
        distinct_keys(gs@),
    ensures
        forall|i: int| 0 <= i < out@.len() ==> (#[trigger] out@[i]) < gs@.len()
            && scoped_match(gs@[out@[i] as int].key@, dsl@),
        forall|j: int| 0 <= j < gs@.len() && scoped_match(#[trigger] gs@[j].key@, dsl@) ==> out@.contains(j as usize),
        forall|a: int, b: int| 0 <= a < b < out@.len()
            ==> gs@[out@[a] as int].key@.len() < gs@[out@[b] as int].key@.len(),
{
    let n = dsl.len();
    let mut out: Vec<usize> = Vec::new();
    let mut l: usize = 0;
    loop
        invariant_except_break
            forall|i: int| 0 <= i < out@.len() ==> gs@[(#[trigger] out@[i]) as int].key@.len() < l,
            forall|j: int| 0 <= j < gs@.len() && scoped_match(#[trigger] gs@[j].key@, dsl@)
                && gs@[j].key@.len() < l ==> out@.contains(j as usize),
        invariant
            n == dsl@.len(),
            l <= n,
            distinct_keys(gs@),
            forall|i: int| 0 <= i < out@.len() ==> (#[trigger] out@[i]) < gs@.len()
                && scoped_match(gs@[out@[i] as int].key@, dsl@),
            forall|a: int, b: int| 0 <= a < b < out@.len()
                ==> gs@[out@[a] as int].key@.len() < gs@[out@[b] as int].key@.len(),
        ensures
            forall|j: int| 0 <= j < gs@.len() && scoped_match(#[trigger] gs@[j].key@, dsl@) ==> out@.contains(j as usize),
        decreases n - l,
    {
        let ghost old_out = out@;
        if l == n || dsl[l] == '/' {
            let cand = slice_vec(dsl, 0, l);
            if !is_project_key(cand.as_slice()) {
                match find_guard(gs, cand.as_slice()) {
                    Some(j) => {
                        proof { lemma_gates_shape(gs@[j as int].key@, dsl@); }
                        out.push(j);
                    },
                    None => {},
                }
            }
        }
        proof {
            assert forall|j: int| 0 <= j < gs@.len() && scoped_match(#[trigger] gs@[j].key@, dsl@)
                && gs@[j].key@.len() < l + 1 implies out@.contains(j as usize) by {
                lemma_gates_shape(gs@[j].key@, dsl@);
                if gs@[j].key@.len() < l {
                    let x = choose|x: int| 0 <= x < old_out.len() && old_out[x] == j as usize;
                    assert(out@[x] == old_out[x]);
                } else {
                    assert(gs@[j].key@ == dsl@.subrange(0, l as int));
                    assert(out@.len() == old_out.len() + 1);
                    let jj = out@.last();
                    assert(gs@[jj as int].key@ == gs@[j].key@);
                    assert(out@[out@.len() - 1] == j as usize);
                }
            }
        }
        if l == n {
            proof {
                assert forall|j: int| 0 <= j < gs@.len() && scoped_match(#[trigger] gs@[j].key@, dsl@)
                    implies out@.contains(j as usize) by {
                    lemma_gates_shape(gs@[j].key@, dsl@);
                    assert(gs@[j].key@.len() < l + 1);
                }
            }
            break;
        }
        l = l + 1;
    }
    out
}

pub open spec fn keys_at(gs: Seq<GuardEntry>, idx: Seq<usize>) -> Seq<Seq<char>> {
    idx.map_values(|j: usize| gs[j as int].key@)
}

/// Index of the project named `project` in the table.
pub fn find_project(guards: &Vec<ProjectGuards>, project: &[char]) -> (r: Option<usize>)
    ensures
        r matches Some(i) ==> i < guards@.len() && guards@[i as int].project@ == project@,
        r is None ==> forall|i: int| 0 <= i < guards@.len() ==> (#[trigger] guards@[i]).project@ != project@,
{
    let mut i: usize = 0;
    while i < guards.len()
        invariant
            i <= guards@.len(),
            forall|x: int| 0 <= x < i ==> (#[trigger] guards@[x]).project@ != project@,
        decreases guards@.len() - i,
    {
        let pc = chars_of(guards[i].project.as_str());
        if chars_eq(pc.as_slice(), project) {
            return Some(i);
        }
        i = i + 1;
    }
    None
}

/// The guard keys of one project's guard list `gs` that gate `dsl_key`,
/// in execution order (outermost first).
pub fn guard_keys_in(gs: &Vec<GuardEntry>, dsl_key: &[char], mode: GuardMode) -> (out: Vec<String>)
    requires
        distinct_keys(gs@),
    ensures
        spec_guard_keys(view_keys(out@), gs@, dsl_key@, mode),
{
    let gl = gs.len();
    let m = sorted_matches(gs, dsl_key);
    let ghost all = keys_at(gs@, m@);
    proof {
        assert(is_ordered_match_list(all, gs@, dsl_key@)) by {
            assert forall|i: int| 0 <= i < all.len() implies key_in(gs@, #[trigger] all[i]) by {
                let j = m@[i] as int;
                assert(0 <= j < gs@.len());
                assert(gs@[j].key@ == all[i]);
            }
            assert forall|j: int| 0 <= j < gs@.len() && scoped_match(#[trigger] gs@[j].key@, dsl_key@) implies all.contains(gs@[j].key@) by {
                let x = choose|x: int| 0 <= x < m@.len() && m@[x] == j as usize;
                assert(all.len() == m@.len());
                assert(m@[x] as int == j);
                assert(all[x] == gs@[m@[x] as int].key@);
                assert(all[x] == gs@[j].key@);
            }
            assert forall|i: int| 0 <= i < all.len() implies scoped_match(#[trigger] all[i], dsl_key@) by {
                assert(all[i] == gs@[m@[i] as int].key@);
            }
            assert forall|a: int, b: int| 0 <= a < b < all.len() implies all[a].len() < all[b].len() by {
                assert(all[a] == gs@[m@[a] as int].key@);
                assert(all[b] == gs@[m@[b] as int].key@);
            }
        }
    }
    // The longest matching guard that overrides its ancestors.
    let mut ov: Option<usize> = None;
    let mut p: usize = 0;
    while p < m.len()
        invariant
            p <= m@.len(),
            forall|i: int| 0 <= i < m@.len() ==> (#[trigger] m@[i]) < gs@.len()
                && scoped_match(gs@[m@[i] as int].key@, dsl_key@),
            forall|a: int, b: int| 0 <= a < b < m@.len()
                ==> gs@[m@[a] as int].key@.len() < gs@[m@[b] as int].key@.len(),
            match ov {
                Some(x) => x < p && gs@[m@[x as int] as int].override_ancestors
                    && forall|y: int| x < y < p ==> !(#[trigger] gs@[m@[y] as int]).override_ancestors,
                None => forall|y: int| 0 <= y < p ==> !(#[trigger] gs@[m@[y] as int]).override_ancestors,
            },
        decreases m@.len() - p,
    {
        if gs[m[p]].override_ancestors {
            ov = Some(p);
        }
        p = p + 1;
    }
    match ov {
        Some(x) => {
            let k = gs[m[x]].key.clone();
            let mut out: Vec<String> = Vec::new();
            out.push(k);
            proof {
                let kk = gs@[m@[x as int] as int].key@;
                assert(view_keys(out@)[0] == kk);
                assert(has_override(gs@, dsl_key@)) by {
                    assert(scoped_match(gs@[m@[x as int] as int].key@, dsl_key@));
                }
                assert forall|j: int| 0 <= j < gs@.len() && gs@[j].override_ancestors && scoped_match(#[trigger] gs@[j].key@, dsl_key@)
                    implies gs@[j].key@.len() <= kk.len() by {
                    let y = choose|y: int| 0 <= y < m@.len() && m@[y] == j as usize;
                    if y > x as int { assert(!gs@[m@[y] as int].override_ancestors); }
                    else if y < x as int { }
                }
            }
            out
        },
        None => {
            proof {
                assert(!has_override(gs@, dsl_key@)) by {
                    assert forall|j: int| 0 <= j < gs@.len() && scoped_match(#[trigger] gs@[j].key@, dsl_key@)
                        implies !gs@[j].override_ancestors by {
                        let y = choose|y: int| 0 <= y < m@.len() && m@[y] == j as usize;
                        assert(!gs@[m@[y] as int].override_ancestors);
                    }
                }
            }
            let mut out: Vec<String> = Vec::new();
            let proj = chars_of(PROJECT_GUARD_KEY);
            proof { reveal_strlit("_project"); assert(proj@ =~= project_guard_key()); }
            let has_proj = match find_guard(gs, proj.as_slice()) {
                Some(j) => {
                    out.push(gs[j].key.clone());
                    true
                },
                None => false,
            };
            let ghost start = out@.len();
            proof {
                assert(has_proj == has_project_guard(gs@));
            }
            match mode {
                GuardMode::Stack => {
                    let mut q: usize = 0;
                    while q < m.len()
                        invariant
                            q <= m@.len(),
                            out@.len() == start + q,
                            start == (if has_proj { 1int } else { 0int }),
                            has_proj ==> view_keys(out@)[0] == project_guard_key(),
                            forall|i: int| 0 <= i < m@.len() ==> (#[trigger] m@[i]) < gs@.len(),
                            forall|i: int| 0 <= i < q ==> view_keys(out@)[start + i] == #[trigger] all[i],
                            all == keys_at(gs@, m@),
                        decreases m@.len() - q,
                    {
                        out.push(gs[m[q]].key.clone());
                        q = q + 1;
                    }
                    proof {
                        let scoped = if has_project_guard(gs@) { view_keys(out@).drop_first() } else { view_keys(out@) };
                        assert(scoped =~= all);
                    }
                },
                GuardMode::ClosestOnly => {
                    if m.len() > 0 {
                        out.push(gs[m[m.len() - 1]].key.clone());
                    }
                    proof {
                        let scoped = if has_project_guard(gs@) { view_keys(out@).drop_first() } else { view_keys(out@) };
                        if all.len() == 0 {
                            assert(scoped =~= Seq::<Seq<char>>::empty());
                        } else {
                            assert(scoped =~= seq![all.last()]);
                        }
                    }
                },
            }
            out
        },
    }
}

/// The guard keys that gate the DSL `dsl_key` of `project`, in the
/// order they run (outermost first). Empty when the project has no
/// guards.
pub fn guard_keys_for_dsl(project: &str, dsl_key: &str, guards: &Vec<ProjectGuards>, mode: GuardMode) -> (out: Vec<String>)
    requires
        well_formed_table(guards@),
    ensures
        (forall|i: int| 0 <= i < guards@.len() ==> (#[trigger] guards@[i]).project@ != project@) ==> out@.len() == 0,
        forall|i: int| 0 <= i < guards@.len() && (#[trigger] guards@[i]).project@ == project@
            ==> spec_guard_keys(view_keys(out@), guards@[i].guards@, dsl_key@, mode),
{
    let pc = chars_of(project);
    let dc = chars_of(dsl_key);
    match find_project(guards, pc.as_slice()) {
        Some(i) => {
            proof { assert(distinct_keys(guards@[i as int].guards@)); }
            guard_keys_in(&guards[i].guards, dc.as_slice(), mode)
        },
        None => Vec::new(),
    }
}

/// Hard cap on nested guard invocations within one request.
pub const MAX_GUARD_DEPTH: usize = 32;

/// Why a guard could not be pushed onto the execution stack.
#[derive(Debug, Clone, Copy, PartialEq, Eq, Structural)]
pub enum GuardStackError {
    /// The stack already holds `MAX_GUARD_DEPTH` guards.
    DepthExceeded,
    /// The guard is already executing further up the stack.
    Cycle,
}

/// The keys of the guards currently executing for one request,
/// outermost first. Never holds the same key twice and never more than
/// `MAX_GUARD_DEPTH` keys.
#[derive(Debug)]
pub struct GuardStack {
    keys: Vec<String>,
}

/// Receipt of a successful push; handing it back pops the guard.
#[derive(Debug)]
pub struct GuardStackGuard {
    depth: usize,
}

impl GuardStackGuard {
    /// Stack depth right after the push that produced this receipt.
    pub fn depth(&self) -> (r: usize)
        ensures
            r == self.spec_depth(),
    {
        self.depth
    }

    pub closed spec fn spec_depth(&self) -> usize {
        self.depth
    }
}

pub open spec fn no_duplicates(s: Seq<Seq<char>>) -> bool {
    forall|i: int, j: int| 0 <= i < s.len() && 0 <= j < s.len() && i != j ==> s[i] != s[j]
}

/// Does some entry of `list` equal `key`?
pub fn list_contains(list: &Vec<String>, key: &[char]) -> (r: bool)
    ensures
        r == view_keys(list@).contains(key@),
{
    let mut i: usize = 0;
    while i < list.len()
        invariant
            i <= list@.len(),
            forall|j: int| 0 <= j < i ==> (#[trigger] list@[j])@ != key@,
        decreases list@.len() - i,
    {
        let c = chars_of(list[i].as_str());
        if chars_eq(c.as_slice(), key) {
            assert(view_keys(list@)[i as int] == key@);
            return true;
        }
        i = i + 1;
    }
    proof {
        assert forall|j: int| 0 <= j < view_keys(list@).len() implies view_keys(list@)[j] != key@ by {
            assert(view_keys(list@)[j] == list@[j]@);
        }
    }
    false
}

impl GuardStack {
    pub closed spec fn view_seq(&self) -> Seq<Seq<char>> {
        view_keys(self.keys@)
    }

    /// Well-formedness: bounded depth, no key twice.
    pub open spec fn wf(&self) -> bool {
        &&& self.view_seq().len() <= MAX_GUARD_DEPTH
        &&& no_duplicates(self.view_seq())
    }

    /// An empty stack.
    pub fn new() -> (r: Self)
        ensures
            r.wf(),
            r.view_seq() == Seq::<Seq<char>>::empty(),
    {
        let r = GuardStack { keys: Vec::new() };
        assert(r.view_seq() =~= Seq::<Seq<char>>::empty());
        r
    }

    /// Is `key` currently executing?
    pub fn is_guard_on_stack(&self, key: &str) -> (r: bool)
        ensures
            r == self.view_seq().contains(key@),
    {
        let kc = chars_of(key);
        list_contains(&self.keys, kc.as_slice())
    }

    /// Number of guards currently executing.
    pub fn guard_stack_depth(&self) -> (r: usize)
        ensures
            r == self.view_seq().len(),
    {
        self.keys.len()
    }

    /// Push `key`: refused when the stack is full, or when `key` is
    /// already on it (a guard chain re-entering itself).
    pub fn push_guard(&mut self, key: String) -> (r: Result<GuardStackGuard, GuardStackError>)
        requires
            old(self).wf(),
        ensures
            final(self).wf(),
            old(self).view_seq().len() >= MAX_GUARD_DEPTH ==> r == Err::<GuardStackGuard, GuardStackError>(GuardStackError::DepthExceeded)
                && final(self).view_seq() == old(self).view_seq(),
            old(self).view_seq().len() < MAX_GUARD_DEPTH && old(self).view_seq().contains(key@)
                ==> r == Err::<GuardStackGuard, GuardStackError>(GuardStackError::Cycle) && final(self).view_seq() == old(self).view_seq(),
            old(self).view_seq().len() < MAX_GUARD_DEPTH && !old(self).view_seq().contains(key@)
                ==> r is Ok && r->Ok_0.spec_depth() == final(self).view_seq().len()
                    && final(self).view_seq() == old(self).view_seq().push(key@),
    {
        if self.keys.len() >= MAX_GUARD_DEPTH {
            return Err(GuardStackError::DepthExceeded);
        }
        if self.is_guard_on_stack(key.as_str()) {
            return Err(GuardStackError::Cycle);
        }
        let ghost before = self.view_seq();
        self.keys.push(key);
        proof {
            assert(self.view_seq() =~= before.push(key@));
        }
        Ok(GuardStackGuard { depth: self.keys.len() })
    }

    /// Pop the innermost guard (the one the receipt was issued for).
    pub fn pop_guard(&mut self, receipt: GuardStackGuard)
        requires
            old(self).wf(),
        ensures
            final(self).wf(),
            old(self).view_seq().len() > 0 ==> final(self).view_seq() == old(self).view_seq().drop_last(),
            old(self).view_seq().len() == 0 ==> final(self).view_seq() == old(self).view_seq(),
    {
        let ghost before = self.view_seq();
        if self.keys.len() > 0 {
            self.keys.pop();
            proof {
                assert(self.view_seq() =~= before.drop_last());
            }
        }
    }
}


} // verus!
