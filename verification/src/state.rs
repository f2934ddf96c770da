//! The project-scoped key/value store DSLs read and write
//! (`state.get` / `state.set` / `state.delete`). Keys of one project
//! never reach another. An optional per-project cap bounds the number
//! of keys: a new key past the cap is refused, updates always pass,
//! and reaching 80% of the cap is reported once per project.
use vstd::prelude::*;
use crate::text::{chars_of, chars_eq, string_of};
use crate::json::JsonValue;

verus! {

/// A key of the store: project and key name.
#[derive(Debug, Clone)]
pub struct StateKey {
    pub project: String,
    pub key: String,
}

impl StateKey {
    pub fn new(project: &str, key: &str) -> (r: Self)
        ensures
            r.project@ == project@,
            r.key@ == key@,
    {
        StateKey { project: project.to_owned(), key: key.to_owned() }
    }
}

/// A project's footprint in the store.
#[derive(Debug, Clone)]
pub struct ProjectStats {
    pub project: String,
    pub entries: usize,
    /// The cap in effect; `None` when unbounded.
    pub cap: Option<usize>,
}

/// Why a write was refused.
#[derive(Debug, Clone, Copy, PartialEq, Eq, Structural)]
pub enum StateError {
    /// The project already holds `cap` keys.
    CapReached { entries: usize, cap: usize },
}

/// The store.
#[derive(Debug)]
pub struct StateStore {
    entries: Vec<(StateKey, JsonValue)>,
    max_entries_per_project: Option<usize>,
    warned: Vec<String>,
}

/// Entry `e` belongs to `project` under `key`.
pub open spec fn is_entry(e: (StateKey, JsonValue), project: Seq<char>, key: Seq<char>) -> bool {
    e.0.project@ == project && e.0.key@ == key
}

/// Number of entries of `project`.
pub open spec fn count_project(es: Seq<(StateKey, JsonValue)>, project: Seq<char>) -> nat
    decreases es.len(),
{
    if es.len() == 0 {
        0
    } else {
        count_project(es.drop_last(), project) + (if es.last().0.project@ == project { 1nat } else { 0nat })
    }
}

/// 80% of the cap (rounded down, saturating).
pub open spec fn warn_threshold(cap: usize) -> int {
    (if cap as int * 80 > usize::MAX { usize::MAX as int } else { cap as int * 80 }) / 100
}

proof fn lemma_count_bounded(es: Seq<(StateKey, JsonValue)>, project: Seq<char>)
    ensures
        count_project(es, project) <= es.len(),
    decreases es.len(),
{
    if es.len() > 0 {
        lemma_count_bounded(es.drop_last(), project);
    }
}

proof fn lemma_count_push(es: Seq<(StateKey, JsonValue)>, e: (StateKey, JsonValue), project: Seq<char>)
    ensures
        count_project(es.push(e), project) == count_project(es, project) + (if e.0.project@ == project { 1nat } else { 0nat }),
{
    assert(es.push(e).drop_last() =~= es);
}

proof fn lemma_count_update(es: Seq<(StateKey, JsonValue)>, i: int, e: (StateKey, JsonValue), project: Seq<char>)
    requires
        0 <= i < es.len(),
        e.0.project@ == es[i].0.project@,
    ensures
        count_project(es.update(i, e), project) == count_project(es, project),
    decreases es.len(),
{
    if i == es.len() - 1 {
        assert(es.update(i, e).drop_last() =~= es.drop_last());
    } else {
        lemma_count_update(es.drop_last(), i, e, project);
        assert(es.update(i, e).drop_last() =~= es.drop_last().update(i, e));
    }
}

proof fn lemma_count_remove(es: Seq<(StateKey, JsonValue)>, i: int, project: Seq<char>)
    requires
        0 <= i < es.len(),
    ensures
        count_project(es.remove(i), project) + (if es[i].0.project@ == project { 1nat } else { 0nat })
            == count_project(es, project),
    decreases es.len(),
{
    if i == es.len() - 1 {
        assert(es.remove(i) =~= es.drop_last());
    } else {
        lemma_count_remove(es.drop_last(), i, project);
        assert(es.remove(i).drop_last() =~= es.drop_last().remove(i));
        assert(es.remove(i).last() == es.last());
    }
}

impl StateStore {
    /// Value stored under `(project, key)`.
    pub closed spec fn value_of(&self, project: Seq<char>, key: Seq<char>) -> Option<JsonValue> {
        lookup(self.entries@, project, key)
    }

    /// Number of keys of `project`.
    pub closed spec fn count(&self, project: Seq<char>) -> nat {
        count_project(self.entries@, project)
    }

    /// Number of keys over all projects.
    pub closed spec fn size(&self) -> nat {
        self.entries@.len()
    }

    pub closed spec fn cap(&self) -> Option<usize> {
        self.max_entries_per_project
    }

    /// Keys are unique, and no project holds more keys than the cap.
    pub closed spec fn wf(&self) -> bool {
        &&& unique_keys(self.entries@)
        &&& forall|p: Seq<char>| #![trigger self.count(p)] self.cap() is Some ==> self.count(p) <= self.cap().unwrap()
    }

    /// An unbounded, empty store.
    pub fn new() -> (r: Self)
        ensures
            r.wf(),
            r.cap() is None,
            forall|p: Seq<char>, k: Seq<char>| r.value_of(p, k) is None,
    {
        StateStore { entries: Vec::new(), max_entries_per_project: None, warned: Vec::new() }
    }

    /// An empty store holding at most `max` keys per project.
    pub fn with_max_entries_per_project(max: usize) -> (r: Self)
        ensures
            r.wf(),
            r.cap() == Some(max),
            forall|p: Seq<char>, k: Seq<char>| r.value_of(p, k) is None,
    {
        let r = StateStore { entries: Vec::new(), max_entries_per_project: Some(max), warned: Vec::new() };
        proof {
            assert forall|p: Seq<char>| #![trigger r.count(p)] r.cap() is Some implies r.count(p) <= r.cap().unwrap() by {}
        }
        r
    }

    /// An empty store with the cap from the configuration.
    pub fn with_config(max: Option<usize>) -> (r: Self)
        ensures
            r.wf(),
            r.cap() == max,
            forall|p: Seq<char>, k: Seq<char>| r.value_of(p, k) is None,
    {
        match max {
            Some(m) => StateStore::with_max_entries_per_project(m),
            None => StateStore::new(),
        }
    }

    fn find(&self, project: &str, key: &str) -> (r: Option<usize>)
        ensures
            match r {
                Some(i) => i < self.entries@.len() && is_entry(self.entries@[i as int], project@, key@),
                None => forall|i: int| 0 <= i < self.entries@.len() ==> !is_entry(#[trigger] self.entries@[i], project@, key@),
            },
    {
        let pc = chars_of(project);
        let kc = chars_of(key);
        let mut i: usize = 0;
        while i < self.entries.len()
            invariant
                i <= self.entries@.len(),
                pc@ == project@,
                kc@ == key@,
                forall|j: int| 0 <= j < i ==> !is_entry(#[trigger] self.entries@[j], project@, key@),
            decreases self.entries@.len() - i,
        {
            let ep = chars_of(self.entries[i].0.project.as_str());
            let ek = chars_of(self.entries[i].0.key.as_str());
            if chars_eq(ep.as_slice(), pc.as_slice()) && chars_eq(ek.as_slice(), kc.as_slice()) {
                return Some(i);
            }
            i = i + 1;
        }
        None
    }

    /// The value under `(project, key)`.
    pub fn get(&self, project: &str, key: &str) -> (r: Option<&JsonValue>)
        requires
            self.wf(),
        ensures
            match r {
                Some(v) => self.value_of(project@, key@) == Some(*v),
                None => self.value_of(project@, key@) is None,
            },
    {
        match self.find(project, key) {
            Some(i) => {
                proof { lemma_lookup_at(self.entries@, i as int); }
                Some(&self.entries[i].1)
            },
            None => None,
        }
    }

    /// Number of keys of `project`.
    pub fn project_entry_count(&self, project: &str) -> (r: usize)
        ensures
            r == self.count(project@),
    {
        let pc = chars_of(project);
        let mut n: usize = 0;
        let mut i: usize = 0;
        while i < self.entries.len()
            invariant
                i <= self.entries@.len(),
                pc@ == project@,
                n == count_project(self.entries@.subrange(0, i as int), project@),
                n <= i,
            decreases self.entries@.len() - i,
        {
            let ep = chars_of(self.entries[i].0.project.as_str());
            proof { assert(self.entries@.subrange(0, i + 1).drop_last() =~= self.entries@.subrange(0, i as int)); }
            if chars_eq(ep.as_slice(), pc.as_slice()) {
                n = n + 1;
            }
            i = i + 1;
        }
        proof { assert(self.entries@.subrange(0, self.entries@.len() as int) =~= self.entries@); }
        n
    }

    /// Write `value` under `(project, key)`. An existing key is
    /// updated; a new key is refused when the project already holds
    /// `cap` keys. `Ok(true)` reports that this insert brought the
    /// project to 80% of the cap for the first time.
    pub fn set(&mut self, project: &str, key: &str, value: JsonValue) -> (r: Result<bool, StateError>)
        requires
            old(self).wf(),
        ensures
            final(self).wf(),
            final(self).cap() == old(self).cap(),
            match r {
                Ok(_) => final(self).value_of(project@, key@) == Some(value)
                    && forall|p: Seq<char>, k: Seq<char>| !(p == project@ && k == key@)
                        ==> final(self).value_of(p, k) == old(self).value_of(p, k),
                Err(StateError::CapReached { entries, cap }) => old(self).value_of(project@, key@) is None
                    && old(self).cap() == Some(cap) && entries == cap
                    && old(self).count(project@) == cap
                    && forall|p: Seq<char>, k: Seq<char>| final(self).value_of(p, k) == old(self).value_of(p, k),
            },
            r matches Ok(true) ==> old(self).value_of(project@, key@) is None && old(self).cap() is Some
                && old(self).count(project@) + 1 == warn_threshold(old(self).cap().unwrap()),
            old(self).value_of(project@, key@) is Some ==> r == Ok::<bool, StateError>(false)
                && final(self).size() == old(self).size()
                && forall|p: Seq<char>| #[trigger] final(self).count(p) == old(self).count(p),
            old(self).value_of(project@, key@) is None && old(self).cap() is Some
                && old(self).count(project@) >= old(self).cap().unwrap() ==> r is Err,
            r is Err ==> final(self).size() == old(self).size()
                && forall|p: Seq<char>| #[trigger] final(self).count(p) == old(self).count(p),
            r is Ok && old(self).value_of(project@, key@) is None ==> final(self).size() == old(self).size() + 1
                && final(self).count(project@) == old(self).count(project@) + 1
                && forall|p: Seq<char>| p != project@ ==> #[trigger] final(self).count(p) == old(self).count(p),
    {
        let ghost before = self.entries@;
        match self.find(project, key) {
            Some(i) => {
                let k = StateKey { project: self.entries[i].0.project.clone(), key: self.entries[i].0.key.clone() };
                self.entries.set(i, (k, value));
                proof {
                    let now = self.entries@;
                    assert forall|p: Seq<char>| #![trigger self.count(p)] self.cap() is Some implies self.count(p) <= self.cap().unwrap() by {
                        assert(old(self).count(p) <= old(self).cap().unwrap());
                        lemma_count_update(before, i as int, now[i as int], p);
                        assert(now =~= before.update(i as int, now[i as int]));
                    }
                    assert forall|a: int, b: int| 0 <= a < b < now.len() implies
                        !is_entry(#[trigger] now[a], (#[trigger] now[b]).0.project@, now[b].0.key@) by {
                        if a != i && b != i { assert(now[a] == before[a] && now[b] == before[b]); }
                        else if a == i { assert(now[b] == before[b]); } else { assert(now[a] == before[a]); }
                    }
                    lemma_value_of_update(before, i as int, now[i as int], now);
                    assert forall|p: Seq<char>| #[trigger] self.count(p) == old(self).count(p) by {
                        lemma_count_update(before, i as int, now[i as int], p);
                        assert(now =~= before.update(i as int, now[i as int]));
                    }
                }
                return Ok(false);
            },
            None => {
                proof {
                    assert(!(exists|i: int| 0 <= i < before.len() && is_entry(#[trigger] before[i], project@, key@)));
                }
            },
        }
        let mut warn = false;
        match self.max_entries_per_project {
            Some(cap) => {
                let current = self.project_entry_count(project);
                if current >= cap {
                    return Err(StateError::CapReached { entries: current, cap });
                }
                let threshold = (if cap > usize::MAX / 80 { usize::MAX } else { cap * 80 }) / 100;
                if current + 1 == threshold && !self.was_warned(project) {
                    self.warned.push(project.to_owned());
                    warn = true;
                }
            },
            None => {},
        }
        let e = (StateKey::new(project, key), value);
        let ghost ev = e;
        self.entries.push(e);
        proof {
            let now = self.entries@;
            assert(now =~= before.push(ev));
            assert forall|p: Seq<char>| #![trigger self.count(p)] self.cap() is Some implies self.count(p) <= self.cap().unwrap() by {
                assert(old(self).count(p) <= old(self).cap().unwrap());
                lemma_count_push(before, ev, p);
            }
            assert forall|a: int, b: int| 0 <= a < b < now.len() implies
                !is_entry(#[trigger] now[a], (#[trigger] now[b]).0.project@, now[b].0.key@) by {
                if b == before.len() { assert(now[a] == before[a]); } else { assert(now[a] == before[a] && now[b] == before[b]); }
            }
            lemma_value_of_push(before, ev, now);
            assert forall|p: Seq<char>| #[trigger] self.count(p) == old(self).count(p) + (if p == project@ { 1nat } else { 0nat }) by {
                lemma_count_push(before, ev, p);
            }
        }
        Ok(warn)
    }

    /// The 80% warning was already given for `project`.
    fn was_warned(&self, project: &str) -> (r: bool)
        ensures
            r == (exists|i: int| 0 <= i < self.warned@.len() && (#[trigger] self.warned@[i])@ == project@),
    {
        let pc = chars_of(project);
        let mut i: usize = 0;
        while i < self.warned.len()
            invariant
                i <= self.warned@.len(),
                pc@ == project@,
                forall|j: int| 0 <= j < i ==> (#[trigger] self.warned@[j])@ != project@,
            decreases self.warned@.len() - i,
        {
            let wc = chars_of(self.warned[i].as_str());
            if chars_eq(wc.as_slice(), pc.as_slice()) {
                return true;
            }
            i = i + 1;
        }
        false
    }

    /// Remove `(project, key)`, handing back its value.
    pub fn delete(&mut self, project: &str, key: &str) -> (r: Option<JsonValue>)
        requires
            old(self).wf(),
        ensures
            final(self).wf(),
            final(self).cap() == old(self).cap(),
            r == old(self).value_of(project@, key@),
            final(self).value_of(project@, key@) is None,
            forall|p: Seq<char>, k: Seq<char>| !(p == project@ && k == key@)
                ==> final(self).value_of(p, k) == old(self).value_of(p, k),
    {
        let ghost before = self.entries@;
        match self.find(project, key) {
            Some(i) => {
                let (_, v) = self.entries.remove(i);
                proof {
                    let now = self.entries@;
                    assert(now =~= before.remove(i as int));
                    assert forall|p: Seq<char>| #![trigger self.count(p)] self.cap() is Some implies self.count(p) <= self.cap().unwrap() by {
                        assert(old(self).count(p) <= old(self).cap().unwrap());
                        lemma_count_remove(before, i as int, p);
                    }
                    assert forall|a: int, b: int| 0 <= a < b < now.len() implies
                        !is_entry(#[trigger] now[a], (#[trigger] now[b]).0.project@, now[b].0.key@) by {
                        let a0 = if a < i { a } else { a + 1 };
                        let b0 = if b < i { b } else { b + 1 };
                        assert(now[a] == before[a0] && now[b] == before[b0]);
                    }
                    lemma_value_of_remove(before, i as int, now);
                }
                Some(v)
            },
            None => None,
        }
    }

    /// Number of keys over all projects.
    pub fn len(&self) -> (r: usize)
        ensures
            r == self.size(),
    {
        self.entries.len()
    }

    pub fn is_empty(&self) -> (r: bool)
        ensures
            r == (self.size() == 0),
    {
        self.entries.len() == 0
    }

    pub fn max_entries_per_project(&self) -> (r: Option<usize>)
        ensures
            r == self.cap(),
    {
        self.max_entries_per_project
    }
}

/// Value lookup in an entry list.
pub open spec fn lookup(es: Seq<(StateKey, JsonValue)>, p: Seq<char>, k: Seq<char>) -> Option<JsonValue> {
    if exists|i: int| 0 <= i < es.len() && is_entry(#[trigger] es[i], p, k) {
        let i = choose|i: int| 0 <= i < es.len() && is_entry(#[trigger] es[i], p, k);
        Some(es[i].1)
    } else {
        None
    }
}

pub open spec fn unique_keys(es: Seq<(StateKey, JsonValue)>) -> bool {
    forall|i: int, j: int| 0 <= i < j < es.len() ==> !is_entry(#[trigger] es[i], (#[trigger] es[j]).0.project@, es[j].0.key@)
}

proof fn lemma_lookup_at(es: Seq<(StateKey, JsonValue)>, i: int)
    requires
        unique_keys(es),
        0 <= i < es.len(),
    ensures
        lookup(es, es[i].0.project@, es[i].0.key@) == Some(es[i].1),
{
    let p = es[i].0.project@;
    let k = es[i].0.key@;
    assert(is_entry(es[i], p, k));
    let w = choose|w: int| 0 <= w < es.len() && is_entry(#[trigger] es[w], p, k);
    if w < i { assert(!is_entry(es[w], es[i].0.project@, es[i].0.key@)); }
    else if w > i { assert(!is_entry(es[i], es[w].0.project@, es[w].0.key@)); }
}

proof fn lemma_value_of_update(before: Seq<(StateKey, JsonValue)>, i: int, e: (StateKey, JsonValue), now: Seq<(StateKey, JsonValue)>)
    requires
        unique_keys(before),
        unique_keys(now),
        0 <= i < before.len(),
        now == before.update(i, e),
        e.0.project@ == before[i].0.project@ && e.0.key@ == before[i].0.key@,
    ensures
        lookup(now, e.0.project@, e.0.key@) == Some(e.1),
        forall|p: Seq<char>, k: Seq<char>| !(p == e.0.project@ && k == e.0.key@) ==> lookup(now, p, k) == lookup(before, p, k),
{
    lemma_lookup_at(now, i);
    assert forall|p: Seq<char>, k: Seq<char>| !(p == e.0.project@ && k == e.0.key@) implies lookup(now, p, k) == lookup(before, p, k) by {
        assert forall|j: int| 0 <= j < now.len() implies (is_entry(#[trigger] now[j], p, k) <==> is_entry(before[j], p, k))
            && (is_entry(now[j], p, k) ==> now[j] == before[j]) by {
            if j == i {} else { assert(now[j] == before[j]); }
        }
        if exists|j: int| 0 <= j < now.len() && is_entry(#[trigger] now[j], p, k) {
            let w = choose|w: int| 0 <= w < now.len() && is_entry(#[trigger] now[w], p, k);
            assert(is_entry(before[w], p, k));
            lemma_lookup_at(now, w);
            lemma_lookup_at(before, w);
        } else {
            assert forall|j: int| 0 <= j < before.len() implies !is_entry(#[trigger] before[j], p, k) by {
                assert(!is_entry(now[j], p, k));
            }
        }
    }
}

proof fn lemma_value_of_push(before: Seq<(StateKey, JsonValue)>, e: (StateKey, JsonValue), now: Seq<(StateKey, JsonValue)>)
    requires
        unique_keys(before),
        unique_keys(now),
        now == before.push(e),
        forall|i: int| 0 <= i < before.len() ==> !is_entry(#[trigger] before[i], e.0.project@, e.0.key@),
    ensures
        lookup(now, e.0.project@, e.0.key@) == Some(e.1),
        forall|p: Seq<char>, k: Seq<char>| !(p == e.0.project@ && k == e.0.key@) ==> lookup(now, p, k) == lookup(before, p, k),
{
    lemma_lookup_at(now, before.len() as int);
    assert forall|p: Seq<char>, k: Seq<char>| !(p == e.0.project@ && k == e.0.key@) implies lookup(now, p, k) == lookup(before, p, k) by {
        if exists|j: int| 0 <= j < before.len() && is_entry(#[trigger] before[j], p, k) {
            let w = choose|w: int| 0 <= w < before.len() && is_entry(#[trigger] before[w], p, k);
            assert(now[w] == before[w]);
            lemma_lookup_at(now, w);
            lemma_lookup_at(before, w);
        } else {
            assert forall|j: int| 0 <= j < now.len() implies !is_entry(#[trigger] now[j], p, k) by {
                if j < before.len() { assert(now[j] == before[j]); }
            }
        }
    }
}

proof fn lemma_value_of_remove(before: Seq<(StateKey, JsonValue)>, i: int, now: Seq<(StateKey, JsonValue)>)
    requires
        unique_keys(before),
        unique_keys(now),
        0 <= i < before.len(),
        now == before.remove(i),
    ensures
        lookup(now, before[i].0.project@, before[i].0.key@) is None,
        lookup(before, before[i].0.project@, before[i].0.key@) == Some(before[i].1),
        forall|p: Seq<char>, k: Seq<char>| !(p == before[i].0.project@ && k == before[i].0.key@) ==> lookup(now, p, k) == lookup(before, p, k),
{
    lemma_lookup_at(before, i);
    let p0 = before[i].0.project@;
    let k0 = before[i].0.key@;
    assert forall|j: int| 0 <= j < now.len() implies !is_entry(#[trigger] now[j], p0, k0) by {
        let j0 = if j < i { j } else { j + 1 };
        assert(now[j] == before[j0]);
        if j0 < i { assert(!is_entry(before[j0], before[i].0.project@, before[i].0.key@)); }
        else { assert(!is_entry(before[i], before[j0].0.project@, before[j0].0.key@)); }
    }
    assert forall|p: Seq<char>, k: Seq<char>| !(p == p0 && k == k0) implies lookup(now, p, k) == lookup(before, p, k) by {
        if exists|j: int| 0 <= j < before.len() && is_entry(#[trigger] before[j], p, k) {
            let w = choose|w: int| 0 <= w < before.len() && is_entry(#[trigger] before[w], p, k);
            assert(w != i);
            let w1 = if w < i { w } else { w - 1 };
            assert(now[w1] == before[w]);
            lemma_lookup_at(now, w1);
            lemma_lookup_at(before, w);
        } else {
            assert forall|j: int| 0 <= j < now.len() implies !is_entry(#[trigger] now[j], p, k) by {
                let j0 = if j < i { j } else { j + 1 };
                assert(now[j] == before[j0]);
            }
        }
    }
}

impl StateStore {
    /// The first half of an update (`state.update`): the current value
    /// (`None` when absent, which the update function sees as `null`),
    /// or the refusal when the key is new and the project is at its
    /// cap. The second half is `set` with the computed value.
    pub fn update_check(&self, project: &str, key: &str) -> (r: Result<Option<&JsonValue>, StateError>)
        requires
            self.wf(),
        ensures
            match r {
                Ok(Some(v)) => self.value_of(project@, key@) == Some(*v),
                Ok(None) => self.value_of(project@, key@) is None
                    && (self.cap() matches Some(c) ==> self.count(project@) < c),
                Err(StateError::CapReached { entries, cap }) => self.value_of(project@, key@) is None
                    && self.cap() == Some(cap) && entries == cap && self.count(project@) == cap,
            },
    {
        match self.get(project, key) {
            Some(v) => Ok(Some(v)),
            None => match self.max_entries_per_project {
                Some(cap) => {
                    let n = self.project_entry_count(project);
                    proof { assert(self.count(project@) <= cap); }
                    if n >= cap {
                        Err(StateError::CapReached { entries: n, cap })
                    } else {
                        Ok(None)
                    }
                },
                None => Ok(None),
            },
        }
    }

    /// Key counts per project (projects with at least one key), each
    /// project once, with the configured cap.
    pub fn project_stats(&self) -> (r: Vec<ProjectStats>)
        requires
            self.wf(),
        ensures
            forall|i: int| 0 <= i < r@.len() ==> (#[trigger] r@[i]).entries == self.count(r@[i].project@)
                && r@[i].entries > 0 && r@[i].cap == self.cap(),
            forall|i: int, j: int| 0 <= i < j < r@.len() ==> (#[trigger] r@[i]).project@ != (#[trigger] r@[j]).project@,
            forall|p: Seq<char>| self.count(p) > 0 ==> exists|i: int| 0 <= i < r@.len() && (#[trigger] r@[i]).project@ == p,
    {
        let mut out: Vec<ProjectStats> = Vec::new();
        let mut i: usize = 0;
        while i < self.entries.len()
            invariant
                i <= self.entries@.len(),
                self.wf(),
                forall|q: int| 0 <= q < out@.len() ==> (#[trigger] out@[q]).entries == count_project(self.entries@.take(i as int), out@[q].project@)
                    && out@[q].entries > 0 && out@[q].cap == self.cap(),
                forall|a: int, b: int| 0 <= a < b < out@.len() ==> (#[trigger] out@[a]).project@ != (#[trigger] out@[b]).project@,
                forall|p: Seq<char>| count_project(self.entries@.take(i as int), p) > 0
                    ==> exists|q: int| 0 <= q < out@.len() && (#[trigger] out@[q]).project@ == p,
            decreases self.entries@.len() - i,
        {
            let ghost t0 = self.entries@.take(i as int);
            let ghost t1 = self.entries@.take(i + 1);
            proof {
                assert(t1.drop_last() =~= t0);
                assert(t1.last() == self.entries@[i as int]);
                lemma_count_bounded(t0, self.entries@[i as int].0.project@);
            }
            let pc = chars_of(self.entries[i].0.project.as_str());
            let mut q: usize = 0;
            let mut found = false;
            while q < out.len() && !found
                invariant
                    q <= out@.len(),
                    found ==> q < out@.len() && out@[q as int].project@ == pc@,
                    forall|z: int| 0 <= z < q ==> (#[trigger] out@[z]).project@ != pc@,
                decreases out@.len() - q + (if found { 0int } else { 1int }),
            {
                if chars_eq(chars_of(out[q].project.as_str()).as_slice(), pc.as_slice()) {
                    found = true;
                } else {
                    q = q + 1;
                }
            }
            let ghost before = out@;
            if found {
                let e = out[q].entries;
                proof { assert(e == count_project(t0, pc@)); assert(count_project(t0, pc@) <= t0.len()); }
                let st = ProjectStats { project: out[q].project.clone(), entries: e + 1, cap: self.max_entries_per_project };
                out.set(q, st);
            } else {
                out.push(ProjectStats { project: string_of(pc.as_slice()), entries: 1, cap: self.max_entries_per_project });
                proof {
                    if count_project(t0, pc@) > 0 {
                        let z = choose|z: int| 0 <= z < before.len() && (#[trigger] before[z]).project@ == pc@;
                    }
                }
            }
            proof {
                let now = out@;
                assert forall|z: int| 0 <= z < now.len() implies (#[trigger] now[z]).entries == count_project(t1, now[z].project@)
                    && now[z].entries > 0 && now[z].cap == self.cap() by {
                    if z < before.len() && z != q { assert(now[z] == before[z]); }
                }
                assert forall|a: int, b: int| 0 <= a < b < now.len() implies (#[trigger] now[a]).project@ != (#[trigger] now[b]).project@ by {
                    if a < before.len() && b < before.len() {
                        if a != q && b != q { assert(now[a] == before[a] && now[b] == before[b]); }
                        else if a == q { assert(now[b] == before[b]); } else { assert(now[a] == before[a]); }
                    } else {
                        assert(now[a] == before[a]);
                    }
                }
                assert forall|p: Seq<char>| count_project(t1, p) > 0 implies exists|z: int| 0 <= z < now.len() && (#[trigger] now[z]).project@ == p by {
                    if p == pc@ {
                        if q < before.len() { assert(now[q as int].project@ == p); } else { assert(now[before.len() as int].project@ == p); }
                    } else {
                        assert(count_project(t0, p) > 0);
                        let z = choose|z: int| 0 <= z < before.len() && (#[trigger] before[z]).project@ == p;
                        if z == q { } else { assert(now[z] == before[z]); }
                    }
                }
            }
            i = i + 1;
        }
        proof { assert(self.entries@.take(i as int) =~= self.entries@); }
        out
    }
}

} // verus!
