//! Static checks over a DSL tree (the `dsl-lint` tool): step kinds,
//! `next:` targets, reachability from the entry step, constants left
//! unresolved, template targets, and the shape of source and
//! CronManager job files.
use vstd::prelude::*;
use crate::text::{chars_of, string_of, chars_eq, extend_chars, ends_with, is_suffix, slice_vec};
use crate::interpolate::{refs_from, iter_refs, substitute, spec_substitute};

verus! {

/// One step as the linter sees it.
#[derive(Debug)]
pub struct ParsedStep {
    pub name: String,
    /// The first known step key the body holds, or `unknown`.
    pub kind: String,
    /// The static `next:` target, when it is a string.
    pub next: Option<String>,
    /// The `next:` targets of a `switch` step's branches.
    pub switch_targets: Vec<String>,
}

pub open spec fn views(v: Seq<String>) -> Seq<Seq<char>> {
    v.map_values(|s: String| s@)
}

/// Index of the first step named `a`.
pub open spec fn first_step(steps: Seq<ParsedStep>, a: Seq<char>) -> Option<int> {
    if exists|i: int| 0 <= i < steps.len() && (#[trigger] steps[i]).name@ == a {
        Some(choose|i: int| 0 <= i < steps.len() && (#[trigger] steps[i]).name@ == a
            && forall|j: int| 0 <= j < i ==> (#[trigger] steps[j]).name@ != a)
    } else {
        None
    }
}

/// Control can pass from the step named `a` to the name `b`: through
/// its `next:` or a switch branch (`end` excepted), or, when it has no
/// `next:` and is not a `return`, to the step after it in source order.
/// The first step of a name is the one that counts.
pub open spec fn edge(steps: Seq<ParsedStep>, a: Seq<char>, b: Seq<char>) -> bool {
    match first_step(steps, a) {
        Some(i) => {
            ||| (steps[i].next matches Some(n) && n@ != "end"@ && n@ == b)
            ||| (exists|t: int| 0 <= t < steps[i].switch_targets@.len()
                    && (#[trigger] steps[i].switch_targets@[t])@ != "end"@ && steps[i].switch_targets@[t]@ == b)
            ||| (i + 1 < steps.len() && steps[i].next is None && steps[i].kind@ != "return"@ && steps[i + 1].name@ == b)
        },
        None => false,
    }
}

/// `s` is closed under `edge`.
pub open spec fn closed(s: Set<Seq<char>>, steps: Seq<ParsedStep>) -> bool {
    forall|a: Seq<char>, b: Seq<char>| s.contains(a) && #[trigger] edge(steps, a, b) ==> s.contains(b)
}

pub open spec fn within(vs: Seq<Seq<char>>, s: Set<Seq<char>>) -> bool {
    forall|k: int| 0 <= k < vs.len() ==> s.contains(#[trigger] vs[k])
}

pub open spec fn opt_cand(o: Option<String>) -> Seq<Seq<char>> {
    match o {
        Some(n) => seq![n@],
        None => Seq::empty(),
    }
}

/// Every name and target the steps mention.
pub open spec fn step_cands(steps: Seq<ParsedStep>) -> Seq<Seq<char>>
    decreases steps.len(),
{
    if steps.len() == 0 {
        Seq::empty()
    } else {
        step_cands(steps.drop_last()) + seq![steps.last().name@] + opt_cand(steps.last().next)
            + views(steps.last().switch_targets@)
    }
}

proof fn lemma_cands(steps: Seq<ParsedStep>, i: int)
    requires
        0 <= i < steps.len(),
    ensures
        step_cands(steps).contains(steps[i].name@),
        steps[i].next matches Some(n) ==> step_cands(steps).contains(n@),
        forall|t: int| 0 <= t < steps[i].switch_targets@.len()
            ==> step_cands(steps).contains(#[trigger] steps[i].switch_targets@[t]@),
    decreases steps.len(),
{
    let p = step_cands(steps.drop_last());
    let l = steps.last();
    let c = step_cands(steps);
    assert(c == p + seq![l.name@] + opt_cand(l.next) + views(l.switch_targets@));
    if i < steps.len() - 1 {
        lemma_cands(steps.drop_last(), i);
        assert(steps.drop_last()[i] == steps[i]);
        assert forall|x: Seq<char>| p.contains(x) implies c.contains(x) by {
            let k = choose|k: int| 0 <= k < p.len() && p[k] == x;
            assert(c[k] == x);
        }
    } else {
        assert(c[p.len() as int] == l.name@);
        if l.next is Some {
            assert(c[p.len() as int + 1] == l.next->Some_0@);
        }
        let off = p.len() as int + 1 + opt_cand(l.next).len() as int;
        assert forall|t: int| 0 <= t < l.switch_targets@.len() implies c.contains(#[trigger] l.switch_targets@[t]@) by {
            assert(c[off + t] == l.switch_targets@[t]@);
        }
    }
}

fn first_step_index(steps: &Vec<ParsedStep>, a: &[char]) -> (r: Option<usize>)
    ensures
        match r {
            Some(i) => first_step(steps@, a@) == Some(i as int) && i < steps@.len(),
            None => first_step(steps@, a@) is None,
        },
{
    let mut i: usize = 0;
    while i < steps.len()
        invariant
            i <= steps@.len(),
            forall|j: int| 0 <= j < i ==> (#[trigger] steps@[j]).name@ != a@,
        decreases steps@.len() - i,
    {
        let c = chars_of(steps[i].name.as_str());
        if chars_eq(c.as_slice(), a) {
            proof {
                let w = choose|w: int| 0 <= w < steps@.len() && (#[trigger] steps@[w]).name@ == a@
                    && forall|j: int| 0 <= j < w ==> (#[trigger] steps@[j]).name@ != a@;
                assert(w == i as int) by {
                    if w < i { } else if w > i { assert(steps@[i as int].name@ == a@); }
                }
            }
            return Some(i);
        }
        i = i + 1;
    }
    None
}

fn is_end(s: &str) -> (r: bool)
    ensures
        r == (s@ == "end"@),
{
    chars_eq(chars_of(s).as_slice(), chars_of("end").as_slice())
}

pub(crate) fn name_listed(list: &Vec<String>, b: &[char]) -> (r: bool)
    ensures
        r == views(list@).contains(b@),
{
    let mut i: usize = 0;
    while i < list.len()
        invariant
            i <= list@.len(),
            forall|j: int| 0 <= j < i ==> (#[trigger] list@[j])@ != b@,
        decreases list@.len() - i,
    {
        let vc = chars_of(list[i].as_str());
        if chars_eq(vc.as_slice(), b) {
            proof { assert(views(list@)[i as int] == b@); }
            return true;
        }
        i = i + 1;
    }
    proof {
        assert forall|j: int| 0 <= j < views(list@).len() implies views(list@)[j] != b@ by {
            assert(list@[j]@ != b@);
        }
    }
    false
}

/// Add `b` to the visited list unless it is there.
fn visit(visited: &mut Vec<String>, b: &String)
    ensures
        views(final(visited)@) == (if views(old(visited)@).contains(b@) { views(old(visited)@) } else { views(old(visited)@).push(b@) }),
{
    let bc = chars_of(b.as_str());
    if name_listed(visited, bc.as_slice()) {
        return;
    }
    let ghost before = visited@;
    visited.push(b.clone());
    proof { assert(views(visited@) =~= views(before).push(b@)); }
}

/// What the walk keeps: no name twice, every name a candidate, the
/// entry first, and every name in every closed set holding the entry.
pub open spec fn walk_inv(vv: Seq<Seq<char>>, cands: Seq<Seq<char>>, steps: Seq<ParsedStep>, entry: Seq<char>) -> bool {
    &&& vv.no_duplicates()
    &&& forall|k: int| 0 <= k < vv.len() ==> cands.contains(#[trigger] vv[k])
    &&& vv.len() <= cands.len()
    &&& vv.len() >= 1
    &&& vv[0] == entry
    &&& forall|s: Set<Seq<char>>| #[trigger] closed(s, steps) && s.contains(entry) ==> within(vv, s)
}

proof fn lemma_visit(old_v: Seq<Seq<char>>, new_v: Seq<Seq<char>>, cands: Seq<Seq<char>>, steps: Seq<ParsedStep>,
    entry: Seq<char>, a: Seq<char>, b: Seq<char>)
    requires
        walk_inv(old_v, cands, steps, entry),
        new_v == (if old_v.contains(b) { old_v } else { old_v.push(b) }),
        cands.contains(b),
        old_v.contains(a),
        edge(steps, a, b),
    ensures
        walk_inv(new_v, cands, steps, entry),
        new_v.contains(b),
        old_v.len() <= new_v.len(),
        forall|k: int| 0 <= k < old_v.len() ==> new_v[k] == old_v[k],
{
    if !old_v.contains(b) {
        assert(new_v[old_v.len() as int] == b);
        assert(new_v.no_duplicates()) by {
            assert forall|i: int, j: int| 0 <= i < new_v.len() && 0 <= j < new_v.len() && i != j implies new_v[i] != new_v[j] by {
                if i < old_v.len() && j < old_v.len() {
                } else if i == old_v.len() {
                    assert(new_v[j] == old_v[j]);
                } else {
                    assert(new_v[i] == old_v[i]);
                }
            }
        }
        assert forall|k: int| 0 <= k < new_v.len() implies cands.contains(#[trigger] new_v[k]) by {
            if k < old_v.len() { assert(new_v[k] == old_v[k]); }
        }
        assert(new_v.to_set().subset_of(cands.to_set())) by {
            assert forall|x: Seq<char>| new_v.to_set().contains(x) implies cands.to_set().contains(x) by {
                let k = choose|k: int| 0 <= k < new_v.len() && new_v[k] == x;
                assert(cands.contains(new_v[k]));
            }
        }
        new_v.unique_seq_to_set();
        cands.lemma_cardinality_of_set();
        vstd::set_lib::lemma_len_subset(new_v.to_set(), cands.to_set());
        assert forall|s: Set<Seq<char>>| #[trigger] closed(s, steps) && s.contains(entry) implies within(new_v, s) by {
            assert(within(old_v, s));
            let ka = choose|k: int| 0 <= k < old_v.len() && old_v[k] == a;
            assert(s.contains(old_v[ka]));
            assert(s.contains(b));
            assert forall|k: int| 0 <= k < new_v.len() implies s.contains(#[trigger] new_v[k]) by {
                if k < old_v.len() { assert(new_v[k] == old_v[k]); }
            }
        }
    }
}

fn is_return(s: &str) -> (r: bool)
    ensures
        r == (s@ == "return"@),
{
    chars_eq(chars_of(s).as_slice(), chars_of("return").as_slice())
}

/// The names reachable from `entry`: the least set that holds `entry`
/// and is closed under `edge`.
pub fn reachable_steps(entry: &String, steps: &Vec<ParsedStep>) -> (r: Vec<String>)
    ensures
        views(r@).contains(entry@),
        views(r@).no_duplicates(),
        closed(views(r@).to_set(), steps@),
        forall|s: Set<Seq<char>>| #[trigger] closed(s, steps@) && s.contains(entry@) ==> within(views(r@), s),
{
    let ghost cands = seq![entry@] + step_cands(steps@);
    let mut visited: Vec<String> = Vec::new();
    visited.push(entry.clone());
    proof {
        let vv = views(visited@);
        assert(vv =~= seq![entry@]);
        assert(cands[0] == entry@);
        assert(cands.contains(vv[0]));
        assert forall|s: Set<Seq<char>>| #[trigger] closed(s, steps@) && s.contains(entry@) implies within(vv, s) by {}
    }
    let mut i: usize = 0;
    while i < visited.len()
        invariant
            walk_inv(views(visited@), cands, steps@, entry@),
            cands == seq![entry@] + step_cands(steps@),
            i <= visited@.len(),
            forall|k: int, b: Seq<char>| 0 <= k < i && #[trigger] edge(steps@, views(visited@)[k], b) ==> views(visited@).contains(b),
        decreases cands.len() - i,
    {
        let a = visited[i].clone();
        let ac = chars_of(a.as_str());
        let ghost v0 = views(visited@);
        proof { assert(v0[i as int] == a@); assert(v0.contains(a@)); }
        match first_step_index(steps, ac.as_slice()) {
            Some(j) => {
                let st = &steps[j];
                proof { lemma_cands(steps@, j as int); }
                proof {
                    assert forall|x: Seq<char>| step_cands(steps@).contains(x) implies cands.contains(x) by {
                        let k = choose|k: int| 0 <= k < step_cands(steps@).len() && step_cands(steps@)[k] == x;
                        assert(cands[k + 1] == x);
                    }
                }
                match &st.next {
                    Some(n) => {
                        if !is_end(n.as_str()) {
                            let ghost pv = views(visited@);
                            visit(&mut visited, n);
                            proof { lemma_visit(pv, views(visited@), cands, steps@, entry@, a@, n@); }
                        }
                    },
                    None => {},
                }
                let ghost v1 = views(visited@);
                let mut t: usize = 0;
                while t < st.switch_targets.len()
                    invariant
                        walk_inv(views(visited@), cands, steps@, entry@),
                        cands == seq![entry@] + step_cands(steps@),
                        *st == steps@[j as int],
                        first_step(steps@, a@) == Some(j as int),
                        j < steps@.len(),
                        t <= st.switch_targets@.len(),
                        v1.len() <= views(visited@).len(),
                        forall|k: int| 0 <= k < v1.len() ==> views(visited@)[k] == v1[k],
                        v0.contains(a@),
                        (i as int) < v0.len(),
                        v0[i as int] == a@,
                        forall|x: Seq<char>| step_cands(steps@).contains(x) ==> cands.contains(x),
                        forall|q: int| 0 <= q < st.switch_targets@.len() ==> step_cands(steps@).contains(#[trigger] st.switch_targets@[q]@),
                        forall|q: int| 0 <= q < t && (#[trigger] st.switch_targets@[q])@ != "end"@ ==> views(visited@).contains(st.switch_targets@[q]@),
                        v0.len() <= v1.len(),
                        forall|k: int| 0 <= k < v0.len() ==> v1[k] == v0[k],
                    decreases st.switch_targets@.len() - t,
                {
                    let tg = &st.switch_targets[t];
                    if !is_end(tg.as_str()) {
                        let ghost pv = views(visited@);
                        proof {
                            assert(pv[i as int] == a@);
                            assert(edge(steps@, a@, tg@));
                        }
                        visit(&mut visited, tg);
                        proof {
                            lemma_visit(pv, views(visited@), cands, steps@, entry@, a@, tg@);
                            assert forall|q: int| 0 <= q < t + 1 && (#[trigger] st.switch_targets@[q])@ != "end"@
                                implies views(visited@).contains(st.switch_targets@[q]@) by {
                                if q < t {
                                    let w = choose|w: int| 0 <= w < pv.len() && pv[w] == st.switch_targets@[q]@;
                                    assert(views(visited@)[w] == pv[w]);
                                }
                            }
                        }
                    }
                    t = t + 1;
                }
                if j < steps.len() - 1 && st.next.is_none() && !is_return(st.kind.as_str()) {
                    let ghost pv = views(visited@);
                    proof {
                        lemma_cands(steps@, j + 1);
                        assert(edge(steps@, a@, steps@[j + 1].name@));
                    }
                    visit(&mut visited, &steps[j + 1].name);
                    proof { lemma_visit(pv, views(visited@), cands, steps@, entry@, a@, steps@[j + 1].name@); }
                }
                proof {
                    let vn = views(visited@);
                    assert(vn[i as int] == a@);
                    assert forall|k: int, b: Seq<char>| 0 <= k < i + 1 && #[trigger] edge(steps@, vn[k], b) implies vn.contains(b) by {
                        if k < i {
                            assert(vn[k] == v0[k]);
                            assert(v0.contains(b));
                            let w = choose|w: int| 0 <= w < v0.len() && v0[w] == b;
                            assert(vn[w] == v0[w]);
                        } else {
                            if st.next is Some && st.next->Some_0@ != "end"@ && st.next->Some_0@ == b {
                                assert(v1.contains(b));
                                let w = choose|w: int| 0 <= w < v1.len() && v1[w] == b;
                                assert(vn[w] == v1[w]);
                            } else if exists|q: int| 0 <= q < st.switch_targets@.len()
                                && (#[trigger] st.switch_targets@[q])@ != "end"@ && st.switch_targets@[q]@ == b {
                                let q = choose|q: int| 0 <= q < st.switch_targets@.len()
                                    && (#[trigger] st.switch_targets@[q])@ != "end"@ && st.switch_targets@[q]@ == b;
                                assert(views(visited@).contains(st.switch_targets@[q]@));
                            } else {
                            }
                        }
                    }
                }
            },
            None => {
                proof {
                    let vn = views(visited@);
                    assert forall|k: int, b: Seq<char>| 0 <= k < i + 1 && #[trigger] edge(steps@, vn[k], b) implies vn.contains(b) by {
                        if k == i { assert(vn[k] == a@); }
                    }
                }
            },
        }
        i = i + 1;
    }
    proof {
        let vv = views(visited@);
        assert(vv.contains(vv[0]));
        assert forall|x: Seq<char>, b: Seq<char>| vv.to_set().contains(x) && #[trigger] edge(steps@, x, b) implies vv.to_set().contains(b) by {
            let k = choose|k: int| 0 <= k < vv.len() && vv[k] == x;
            assert(edge(steps@, vv[k], b));
        }
    }
    visited
}

/// A DSL file as the linter parsed it.
#[derive(Debug)]
pub struct ParsedFile {
    /// The name of the first top-level entry.
    pub entry_step: Option<String>,
    pub steps: Vec<ParsedStep>,
    /// The file's text, before constant substitution.
    pub raw: String,
    /// `template:` targets named by template steps.
    pub template_targets: Vec<String>,
}

/// One line of the report.
#[derive(Debug, Clone)]
pub struct Finding {
    /// An error (else a warning).
    pub error: bool,
    pub message: String,
}

pub open spec fn findings_view(f: Seq<Finding>) -> Seq<(bool, Seq<char>)> {
    f.map_values(|x: Finding| (x.error, x.message@))
}

pub open spec fn unrecognised_msg(name: Seq<char>) -> Seq<char> {
    "step '"@ + name + "': unrecognised step (expected one of: assign, return, call, switch, log, template, state, iterate, ws_send, single_flight, declaration)"@
}

pub open spec fn next_msg(name: Seq<char>, n: Seq<char>) -> Seq<char> {
    "step '"@ + name + "': next target '"@ + n + "' does not resolve to any step in this DSL"@
}

pub open spec fn switch_msg(name: Seq<char>, t: Seq<char>) -> Seq<char> {
    "step '"@ + name + "': switch branch next '"@ + t + "' does not resolve"@
}

pub open spec fn unreachable_msg(name: Seq<char>, entry: Seq<char>) -> Seq<char> {
    "step '"@ + name + "' is not reachable from entry '"@ + entry + "'"@
}

pub open spec fn unresolved_msg(literal: Seq<char>) -> Seq<char> {
    "unresolved constant reference '"@ + literal + "' — add to constants.ini or the runner will forward the literal to reqwest"@
}

pub open spec fn template_msg(t: Seq<char>) -> Seq<char> {
    "template step references '"@ + t + "' but no DSL with that key was found"@
}

fn msg3(a: &str, b: &[char], c: &str) -> (r: String)
    ensures
        r@ == a@ + b@ + c@,
{
    let mut m = chars_of(a);
    extend_chars(&mut m, b);
    extend_chars(&mut m, chars_of(c).as_slice());
    string_of(m.as_slice())
}

fn msg5(a: &str, b: &[char], c: &str, d: &[char], e: &str) -> (r: String)
    ensures
        r@ == a@ + b@ + c@ + d@ + e@,
{
    let mut m = chars_of(a);
    extend_chars(&mut m, b);
    extend_chars(&mut m, chars_of(c).as_slice());
    extend_chars(&mut m, d);
    extend_chars(&mut m, chars_of(e).as_slice());
    string_of(m.as_slice())
}

/// Some step has this name.
pub open spec fn has_step(steps: Seq<ParsedStep>, n: Seq<char>) -> bool {
    exists|i: int| 0 <= i < steps.len() && (#[trigger] steps[i]).name@ == n
}

/// `x` is in every closed set that holds `entry`.
pub open spec fn reachable(steps: Seq<ParsedStep>, entry: Seq<char>, x: Seq<char>) -> bool {
    forall|s: Set<Seq<char>>| #[trigger] closed(s, steps) && s.contains(entry) ==> s.contains(x)
}

pub open spec fn unknown_section(steps: Seq<ParsedStep>) -> Seq<(bool, Seq<char>)>
    decreases steps.len(),
{
    if steps.len() == 0 {
        Seq::empty()
    } else {
        let l = steps.last();
        unknown_section(steps.drop_last())
            + if l.kind@ == "unknown"@ && l.name@ != "declaration"@ { seq![(true, unrecognised_msg(l.name@))] } else { Seq::empty() }
    }
}

pub open spec fn switch_part(name: Seq<char>, ts: Seq<String>, all: Seq<ParsedStep>) -> Seq<(bool, Seq<char>)>
    decreases ts.len(),
{
    if ts.len() == 0 {
        Seq::empty()
    } else {
        let t = ts.last()@;
        switch_part(name, ts.drop_last(), all)
            + if t != "end"@ && !has_step(all, t) { seq![(true, switch_msg(name, t))] } else { Seq::empty() }
    }
}

pub open spec fn next_part(s: ParsedStep, all: Seq<ParsedStep>) -> Seq<(bool, Seq<char>)> {
    match s.next {
        Some(n) => if n@ != "end"@ && !has_step(all, n@) { seq![(true, next_msg(s.name@, n@))] } else { Seq::empty() },
        None => Seq::empty(),
    }
}

pub open spec fn next_section(steps: Seq<ParsedStep>, all: Seq<ParsedStep>) -> Seq<(bool, Seq<char>)>
    decreases steps.len(),
{
    if steps.len() == 0 {
        Seq::empty()
    } else {
        let l = steps.last();
        next_section(steps.drop_last(), all) + next_part(l, all) + switch_part(l.name@, l.switch_targets@, all)
    }
}

pub open spec fn reach_section(steps: Seq<ParsedStep>, all: Seq<ParsedStep>, entry: Seq<char>) -> Seq<(bool, Seq<char>)>
    decreases steps.len(),
{
    if steps.len() == 0 {
        Seq::empty()
    } else {
        let l = steps.last();
        reach_section(steps.drop_last(), all, entry)
            + if !reachable(all, entry, l.name@) && l.kind@ != "declaration"@ { seq![(false, unreachable_msg(l.name@, entry))] } else { Seq::empty() }
    }
}

pub open spec fn const_section(after: Seq<char>, g: Seq<(int, int)>) -> Seq<(bool, Seq<char>)>
    decreases g.len(),
{
    if g.len() == 0 {
        Seq::empty()
    } else {
        const_section(after, g.drop_last()) + seq![(false, unresolved_msg(after.subrange(g.last().0, g.last().1)))]
    }
}

/// `t` without its leading `/` characters.
pub open spec fn strip_slashes(t: Seq<char>) -> Seq<char>
    decreases t.len(),
{
    if t.len() > 0 && t[0] == '/' { strip_slashes(t.skip(1)) } else { t }
}

/// A DSL key answers the template target `t`: equal to it, ending with
/// it, or equal to it without leading slashes.
pub open spec fn key_answers(k: Seq<char>, t: Seq<char>) -> bool {
    k == t || is_suffix(t, k) || k == strip_slashes(t)
}

pub open spec fn template_section(ts: Seq<String>, keys: Seq<String>) -> Seq<(bool, Seq<char>)>
    decreases ts.len(),
{
    if ts.len() == 0 {
        Seq::empty()
    } else {
        let t = ts.last()@;
        template_section(ts.drop_last(), keys)
            + if exists|i: int| 0 <= i < keys.len() && key_answers((#[trigger] keys[i])@, t) { Seq::empty() } else { seq![(true, template_msg(t))] }
    }
}

/// Only `declaration` entries.
pub open spec fn no_real_steps(steps: Seq<ParsedStep>) -> bool {
    forall|i: int| 0 <= i < steps.len() ==> (#[trigger] steps[i]).kind@ == "declaration"@
}

/// The findings for one DSL file, and whether it counts as checked.
pub open spec fn spec_check_dsl(pf: ParsedFile, constants: Seq<(String, String)>, keys: Seq<String>) -> (Seq<(bool, Seq<char>)>, bool) {
    if no_real_steps(pf.steps@) && pf.template_targets@.len() == 0 {
        (seq![(true, "DSL has no executable steps"@)], false)
    } else {
        let after = spec_substitute(pf.raw@, constants);
        (unknown_section(pf.steps@) + next_section(pf.steps@, pf.steps@)
            + (match pf.entry_step { Some(e) => reach_section(pf.steps@, pf.steps@, e@), None => Seq::empty() })
            + const_section(after, refs_from(after, 0))
            + template_section(pf.template_targets@, keys), true)
    }
}

fn push_finding(out: &mut Vec<Finding>, error: bool, message: String)
    ensures
        findings_view(final(out)@) == findings_view(old(out)@).push((error, message@)),
{
    let ghost before = out@;
    out.push(Finding { error, message });
    proof { assert(findings_view(out@) =~= findings_view(before).push((error, message@))); }
}

fn has_step_named(steps: &Vec<ParsedStep>, n: &[char]) -> (r: bool)
    ensures
        r == has_step(steps@, n@),
{
    match first_step_index(steps, n) {
        Some(_) => true,
        None => false,
    }
}

fn unknown_findings(out: &mut Vec<Finding>, steps: &Vec<ParsedStep>)
    ensures
        findings_view(final(out)@) == findings_view(old(out)@) + unknown_section(steps@),
{
    let ghost base = findings_view(out@);
    let mut i: usize = 0;
    while i < steps.len()
        invariant
            i <= steps@.len(),
            findings_view(out@) == base + unknown_section(steps@.take(i as int)),
        decreases steps@.len() - i,
    {
        let ghost t1 = steps@.take(i + 1);
        proof { assert(t1.drop_last() =~= steps@.take(i as int)); assert(t1.last() == steps@[i as int]); }
        let s = &steps[i];
        let kc = chars_of(s.kind.as_str());
        let nc = chars_of(s.name.as_str());
        if chars_eq(kc.as_slice(), chars_of("unknown").as_slice()) && !chars_eq(nc.as_slice(), chars_of("declaration").as_slice()) {
            let m = msg3("step '", nc.as_slice(), "': unrecognised step (expected one of: assign, return, call, switch, log, template, state, iterate, ws_send, single_flight, declaration)");
            push_finding(out, true, m);
        }
        proof { assert(findings_view(out@) =~= base + unknown_section(t1)); }
        i = i + 1;
    }
    proof { assert(steps@.take(i as int) =~= steps@); }
}

fn next_findings(out: &mut Vec<Finding>, steps: &Vec<ParsedStep>)
    ensures
        findings_view(final(out)@) == findings_view(old(out)@) + next_section(steps@, steps@),
{
    let ghost base = findings_view(out@);
    let mut i: usize = 0;
    while i < steps.len()
        invariant
            i <= steps@.len(),
            findings_view(out@) == base + next_section(steps@.take(i as int), steps@),
        decreases steps@.len() - i,
    {
        let ghost t1 = steps@.take(i + 1);
        proof { assert(t1.drop_last() =~= steps@.take(i as int)); assert(t1.last() == steps@[i as int]); }
        let s = &steps[i];
        let nc = chars_of(s.name.as_str());
        let ghost mid = findings_view(out@);
        match &s.next {
            Some(n) => {
                let c = chars_of(n.as_str());
                if !is_end(n.as_str()) && !has_step_named(steps, c.as_slice()) {
                    let m = msg5("step '", nc.as_slice(), "': next target '", c.as_slice(), "' does not resolve to any step in this DSL");
                    push_finding(out, true, m);
                }
            },
            None => {},
        }
        proof { assert(findings_view(out@) =~= mid + next_part(*s, steps@)); }
        let ghost mid2 = findings_view(out@);
        let mut t: usize = 0;
        while t < s.switch_targets.len()
            invariant
                t <= s.switch_targets@.len(),
                *s == steps@[i as int],
                nc@ == s.name@,
                findings_view(out@) == mid2 + switch_part(s.name@, s.switch_targets@.take(t as int), steps@),
            decreases s.switch_targets@.len() - t,
        {
            let ghost u1 = s.switch_targets@.take(t + 1);
            proof { assert(u1.drop_last() =~= s.switch_targets@.take(t as int)); assert(u1.last() == s.switch_targets@[t as int]); }
            let tg = &s.switch_targets[t];
            let c = chars_of(tg.as_str());
            if !is_end(tg.as_str()) && !has_step_named(steps, c.as_slice()) {
                let m = msg5("step '", nc.as_slice(), "': switch branch next '", c.as_slice(), "' does not resolve");
                push_finding(out, true, m);
            }
            proof { assert(findings_view(out@) =~= mid2 + switch_part(s.name@, u1, steps@)); }
            t = t + 1;
        }
        proof {
            assert(s.switch_targets@.take(t as int) =~= s.switch_targets@);
            assert(findings_view(out@) =~= base + next_section(t1, steps@));
        }
        i = i + 1;
    }
    proof { assert(steps@.take(i as int) =~= steps@); }
}

fn reach_findings(out: &mut Vec<Finding>, steps: &Vec<ParsedStep>, entry: &String)
    ensures
        findings_view(final(out)@) == findings_view(old(out)@) + reach_section(steps@, steps@, entry@),
{
    let reach = reachable_steps(entry, steps);
    let ghost base = findings_view(out@);
    let ec = chars_of(entry.as_str());
    let mut i: usize = 0;
    while i < steps.len()
        invariant
            i <= steps@.len(),
            ec@ == entry@,
            views(reach@).contains(entry@),
            closed(views(reach@).to_set(), steps@),
            forall|s: Set<Seq<char>>| #[trigger] closed(s, steps@) && s.contains(entry@) ==> within(views(reach@), s),
            findings_view(out@) == base + reach_section(steps@.take(i as int), steps@, entry@),
        decreases steps@.len() - i,
    {
        let ghost t1 = steps@.take(i + 1);
        proof { assert(t1.drop_last() =~= steps@.take(i as int)); assert(t1.last() == steps@[i as int]); }
        let s = &steps[i];
        let nc = chars_of(s.name.as_str());
        let kc = chars_of(s.kind.as_str());
        let seen = name_listed(&reach, nc.as_slice());
        proof {
            let rs = views(reach@).to_set();
            assert(rs.contains(entry@));
            if seen {
                assert forall|st: Set<Seq<char>>| #[trigger] closed(st, steps@) && st.contains(entry@) implies st.contains(s.name@) by {
                    assert(within(views(reach@), st));
                    let k = choose|k: int| 0 <= k < views(reach@).len() && views(reach@)[k] == s.name@;
                }
            } else {
                assert(closed(rs, steps@));
                assert(!rs.contains(s.name@));
            }
            assert(seen == reachable(steps@, entry@, s.name@));
        }
        if !seen && !chars_eq(kc.as_slice(), chars_of("declaration").as_slice()) {
            let m = msg5("step '", nc.as_slice(), "' is not reachable from entry '", ec.as_slice(), "'");
            push_finding(out, false, m);
        }
        proof { assert(findings_view(out@) =~= base + reach_section(t1, steps@, entry@)); }
        i = i + 1;
    }
    proof { assert(steps@.take(i as int) =~= steps@); }
}

fn const_findings(out: &mut Vec<Finding>, after: &str)
    ensures
        findings_view(final(out)@) == findings_view(old(out)@) + const_section(after@, refs_from(after@, 0)),
{
    let refs = iter_refs(after);
    let ghost g = refs_from(after@, 0);
    let ghost base = findings_view(out@);
    let mut i: usize = 0;
    while i < refs.len()
        invariant
            i <= refs@.len(),
            refs@.len() == g.len(),
            g == refs_from(after@, 0),
            forall|k: int| 0 <= k < refs@.len() ==> (#[trigger] refs@[k]).literal@ == after@.subrange(g[k].0, g[k].1),
            findings_view(out@) == base + const_section(after@, g.take(i as int)),
        decreases refs@.len() - i,
    {
        let ghost t1 = g.take(i + 1);
        proof { assert(t1.drop_last() =~= g.take(i as int)); assert(t1.last() == g[i as int]); }
        let lit = chars_of(refs[i].literal.as_str());
        let m = msg3("unresolved constant reference '", lit.as_slice(), "' — add to constants.ini or the runner will forward the literal to reqwest");
        push_finding(out, false, m);
        proof { assert(findings_view(out@) =~= base + const_section(after@, t1)); }
        i = i + 1;
    }
    proof { assert(g.take(i as int) =~= g); }
}

fn strip_leading_slashes(t: &[char]) -> (r: Vec<char>)
    ensures
        r@ == strip_slashes(t@),
{
    let mut i: usize = 0;
    proof { assert(t@.skip(0) =~= t@); }
    while i < t.len() && t[i] == '/'
        invariant
            i <= t@.len(),
            strip_slashes(t@.skip(i as int)) == strip_slashes(t@),
        decreases t@.len() - i,
    {
        proof { assert(t@.skip(i as int).skip(1) =~= t@.skip(i + 1)); }
        i = i + 1;
    }
    let r = slice_vec(t, i, t.len());
    proof { assert(r@ =~= t@.skip(i as int)); }
    r
}

fn template_findings(out: &mut Vec<Finding>, targets: &Vec<String>, keys: &Vec<String>)
    ensures
        findings_view(final(out)@) == findings_view(old(out)@) + template_section(targets@, keys@),
{
    let ghost base = findings_view(out@);
    let mut i: usize = 0;
    while i < targets.len()
        invariant
            i <= targets@.len(),
            findings_view(out@) == base + template_section(targets@.take(i as int), keys@),
        decreases targets@.len() - i,
    {
        let ghost t1 = targets@.take(i + 1);
        proof { assert(t1.drop_last() =~= targets@.take(i as int)); assert(t1.last() == targets@[i as int]); }
        let t = chars_of(targets[i].as_str());
        let st = strip_leading_slashes(t.as_slice());
        let mut found = false;
        let mut k: usize = 0;
        while k < keys.len() && !found
            invariant
                k <= keys@.len(),
                t@ == targets@[i as int]@,
                st@ == strip_slashes(t@),
                found ==> exists|q: int| 0 <= q < keys@.len() && key_answers((#[trigger] keys@[q])@, t@),
                !found ==> forall|q: int| 0 <= q < k ==> !key_answers((#[trigger] keys@[q])@, t@),
            decreases keys@.len() - k,
        {
            let kc = chars_of(keys[k].as_str());
            if chars_eq(kc.as_slice(), t.as_slice()) || ends_with(kc.as_slice(), t.as_slice()) || chars_eq(kc.as_slice(), st.as_slice()) {
                proof { assert(key_answers(keys@[k as int]@, t@)); }
                found = true;
            }
            k = k + 1;
        }
        if !found {
            let m = msg3("template step references '", t.as_slice(), "' but no DSL with that key was found");
            push_finding(out, true, m);
        }
        proof { assert(findings_view(out@) =~= base + template_section(t1, keys@)); }
        i = i + 1;
    }
    proof { assert(targets@.take(i as int) =~= targets@); }
}

/// The outcome of checking one DSL file.
#[derive(Debug)]
pub struct DslCheck {
    pub findings: Vec<Finding>,
    /// The file counts as checked (`files_ok`).
    pub ok: bool,
}

/// Check one DSL file: an error when it has no executable step;
/// otherwise unknown step kinds, `next:` and switch targets that name
/// no step, steps unreachable from the entry, constant references that
/// survive substitution, and template targets that no DSL key answers.
pub fn check_dsl(pf: &ParsedFile, constants: &Vec<(String, String)>, dsl_keys: &Vec<String>) -> (r: DslCheck)
    ensures
        (findings_view(r.findings@), r.ok) == spec_check_dsl(*pf, constants@, dsl_keys@),
{
    let mut out: Vec<Finding> = Vec::new();
    let mut has_real = false;
    let mut i: usize = 0;
    while i < pf.steps.len()
        invariant
            i <= pf.steps@.len(),
            !has_real ==> forall|j: int| 0 <= j < i ==> (#[trigger] pf.steps@[j]).kind@ == "declaration"@,
            has_real ==> !no_real_steps(pf.steps@),
        decreases pf.steps@.len() - i,
    {
        let kc = chars_of(pf.steps[i].kind.as_str());
        if !chars_eq(kc.as_slice(), chars_of("declaration").as_slice()) {
            has_real = true;
        }
        i = i + 1;
    }
    if !has_real && pf.template_targets.len() == 0 {
        push_finding(&mut out, true, "DSL has no executable steps".to_string());
        proof { assert(findings_view(out@) =~= seq![(true, "DSL has no executable steps"@)]); }
        return DslCheck { findings: out, ok: false };
    }
    proof { assert(findings_view(out@) =~= Seq::<(bool, Seq<char>)>::empty()); }
    unknown_findings(&mut out, &pf.steps);
    next_findings(&mut out, &pf.steps);
    match &pf.entry_step {
        Some(e) => reach_findings(&mut out, &pf.steps, e),
        None => {},
    }
    let after = substitute(pf.raw.as_str(), constants);
    const_findings(&mut out, after.as_str());
    template_findings(&mut out, &pf.template_targets, dsl_keys);
    proof {
        let after_v = spec_substitute(pf.raw@, constants@);
        assert(findings_view(out@) =~= spec_check_dsl(*pf, constants@, dsl_keys@).0);
    }
    DslCheck { findings: out, ok: true }
}

} // verus!
