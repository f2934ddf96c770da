//! `single_flight`: concurrent runs that compute the same key share one
//! execution. The first to claim a key leads and runs the body; later
//! claimants of the key follow and receive the leader's outcome.
//!
//! This module holds the registry of in-flight keys and the decisions
//! around it; the channel that carries the outcome from leader to
//! followers is the caller's.
use vstd::prelude::*;
use crate::text::{chars_of, chars_eq};
use crate::json::JsonValue;

verus! {

/// In-flight keys, each with whether its leader slot was taken.
#[derive(Debug)]
pub struct Registry {
    slots: Vec<(String, bool)>,
    max_entries: usize,
}

pub open spec fn slot_view(s: (String, bool)) -> (Seq<char>, bool) {
    (s.0@, s.1)
}

impl Registry {
    /// The slots in storage order: key and whether its leader was
    /// claimed.
    pub closed spec fn view_slots(&self) -> Seq<(Seq<char>, bool)> {
        self.slots@.map_values(|s: (String, bool)| slot_view(s))
    }

    pub closed spec fn cap(&self) -> usize {
        self.max_entries
    }

    /// Keys are distinct.
    pub open spec fn wf(&self) -> bool {
        forall|i: int, j: int| 0 <= i < j < self.view_slots().len() ==> (#[trigger] self.view_slots()[i]).0 != (#[trigger] self.view_slots()[j]).0
    }

    pub open spec fn has_key(&self, k: Seq<char>) -> bool {
        exists|i: int| 0 <= i < self.view_slots().len() && (#[trigger] self.view_slots()[i]).0 == k
    }

    /// A registry holding at most 10 000 keys before it evicts.
    pub fn new() -> (r: Self)
        ensures
            r.wf(),
            r.view_slots().len() == 0,
            r.cap() == 10_000,
    {
        Self::with_capacity(10_000)
    }

    pub fn with_capacity(max_entries: usize) -> (r: Self)
        ensures
            r.wf(),
            r.view_slots().len() == 0,
            r.cap() == max_entries,
    {
        let r = Registry { slots: Vec::new(), max_entries };
        proof { assert(r.view_slots() =~= Seq::<(Seq<char>, bool)>::empty()); }
        r
    }

    fn position(&self, key: &[char]) -> (r: Option<usize>)
        ensures
            match r {
                Some(i) => i < self.view_slots().len() && self.view_slots()[i as int].0 == key@,
                None => !self.has_key(key@),
            },
    {
        let mut i: usize = 0;
        while i < self.slots.len()
            invariant
                i <= self.slots@.len(),
                forall|j: int| 0 <= j < i ==> (#[trigger] self.view_slots()[j]).0 != key@,
            decreases self.slots@.len() - i,
        {
            let c = chars_of(self.slots[i].0.as_str());
            if chars_eq(c.as_slice(), key) {
                proof { assert(self.view_slots()[i as int] == slot_view(self.slots@[i as int])); }
                return Some(i);
            }
            proof { assert(self.view_slots()[i as int] == slot_view(self.slots@[i as int])); }
            i = i + 1;
        }
        None
    }

    /// Claim `key`: the first claimant of a key leads (`true`), later
    /// ones follow. A new key when the registry is full first drops
    /// every slot after the first `cap` (in storage order).
    pub fn claim(&mut self, key: &str) -> (is_leader: bool)
        requires
            old(self).wf(),
        ensures
            final(self).wf(),
            final(self).cap() == old(self).cap(),
            old(self).has_key(key@) ==> exists|i: int| 0 <= i < old(self).view_slots().len()
                && old(self).view_slots()[i].0 == key@
                && is_leader == !old(self).view_slots()[i].1
                && final(self).view_slots() == old(self).view_slots().update(i, (key@, true)),
            !old(self).has_key(key@) ==> is_leader && final(self).view_slots() == (
                if old(self).view_slots().len() >= old(self).cap() { old(self).view_slots().take(old(self).cap() as int) }
                else { old(self).view_slots() }).push((key@, true)),
    {
        let kc = chars_of(key);
        let ghost before = self.view_slots();
        match self.position(kc.as_slice()) {
            Some(i) => {
                let leader = !self.slots[i].1;
                let k = self.slots[i].0.clone();
                self.slots.set(i, (k, true));
                proof {
                    assert(self.view_slots() =~= before.update(i as int, (key@, true)));
                    assert forall|a: int, b: int| 0 <= a < b < self.view_slots().len() implies
                        (#[trigger] self.view_slots()[a]).0 != (#[trigger] self.view_slots()[b]).0 by {
                        assert(before[a].0 != before[b].0);
                    }
                }
                leader
            },
            None => {
                if self.slots.len() >= self.max_entries {
                    self.slots.truncate(self.max_entries);
                    proof { assert(self.view_slots() =~= before.take(old(self).cap() as int)); }
                }
                let ghost mid = self.view_slots();
                self.slots.push((key.to_string(), true));
                proof {
                    assert(self.view_slots() =~= mid.push((key@, true)));
                    assert forall|j: int| 0 <= j < mid.len() implies (#[trigger] mid[j]).0 != key@ by {
                        assert(mid[j] == before[j]);
                    }
                    assert forall|a: int, b: int| 0 <= a < b < self.view_slots().len() implies
                        (#[trigger] self.view_slots()[a]).0 != (#[trigger] self.view_slots()[b]).0 by {
                        if b < mid.len() { assert(before[a].0 != before[b].0); }
                    }
                }
                true
            },
        }
    }

    /// Forget `key` (its leader finished, or a follower gave up on it).
    pub fn remove(&mut self, key: &str)
        requires
            old(self).wf(),
        ensures
            final(self).wf(),
            final(self).cap() == old(self).cap(),
            !final(self).has_key(key@),
            forall|k: Seq<char>| k != key@ ==> (final(self).has_key(k) == old(self).has_key(k)),
            final(self).view_slots().len() == old(self).view_slots().len() - (if old(self).has_key(key@) { 1int } else { 0 }),
    {
        let kc = chars_of(key);
        let ghost before = self.view_slots();
        match self.position(kc.as_slice()) {
            Some(i) => {
                self.slots.remove(i);
                proof {
                    let now = self.view_slots();
                    assert(now =~= before.remove(i as int));
                    assert forall|a: int, b: int| 0 <= a < b < now.len() implies (#[trigger] now[a]).0 != (#[trigger] now[b]).0 by {
                        let a0 = if a < i { a } else { a + 1 };
                        let b0 = if b < i { b } else { b + 1 };
                        assert(before[a0].0 != before[b0].0);
                    }
                    assert forall|j: int| 0 <= j < now.len() implies (#[trigger] now[j]).0 != key@ by {
                        let j0 = if j < i { j } else { j + 1 };
                        assert(now[j] == before[j0]);
                        if j0 < i { assert(before[j0].0 != before[i as int].0); } else { assert(before[i as int].0 != before[j0].0); }
                    }
                    assert forall|k: Seq<char>| k != key@ implies (self.has_key(k) == old(self).has_key(k)) by {
                        if old(self).has_key(k) {
                            let w = choose|w: int| 0 <= w < before.len() && (#[trigger] before[w]).0 == k;
                            let w1 = if w < i { w } else { w - 1 };
                            assert(w != i);
                            assert(now[w1] == before[w]);
                        }
                        if self.has_key(k) {
                            let w = choose|w: int| 0 <= w < now.len() && (#[trigger] now[w]).0 == k;
                            let w0 = if w < i { w } else { w + 1 };
                            assert(now[w] == before[w0]);
                        }
                    }
                }
            },
            None => {},
        }
    }

    pub fn len(&self) -> (r: usize)
        ensures
            r == self.view_slots().len(),
    {
        self.slots.len()
    }

    pub fn is_empty(&self) -> (r: bool)
        ensures
            r == (self.view_slots().len() == 0),
    {
        self.slots.len() == 0
    }
}

/// What a leader publishes: the value of the result variable (`null`
/// when unset), nothing when no result variable is configured, or the
/// failure's text.
#[derive(Debug)]
pub enum Outcome {
    Value(Option<JsonValue>),
    Failed(String),
}

/// What the leader publishes after running the body.
pub fn leader_outcome(error: Option<String>, result_name: &Option<String>, result_value: Option<JsonValue>) -> (r: Outcome)
    ensures
        match error {
            Some(e) => r matches Outcome::Failed(m) && m@ == e@,
            None => match result_name {
                Some(_) => r matches Outcome::Value(Some(v)) && match result_value {
                    Some(x) => v == x,
                    None => v is Null,
                },
                None => r matches Outcome::Value(None),
            },
        },
{
    match error {
        Some(e) => Outcome::Failed(e),
        None => match result_name {
            Some(_) => Outcome::Value(Some(match result_value {
                Some(x) => x,
                None => JsonValue::Null,
            })),
            None => Outcome::Value(None),
        },
    }
}

/// What a follower heard from its leader.
#[derive(Debug)]
pub enum FollowerWait {
    Received(Outcome),
    /// The leader dropped its channel without publishing.
    Closed,
    /// The wait exceeded the step's ttl.
    TimedOut,
}

/// What the follower does.
#[derive(Debug)]
pub enum FollowerAction {
    /// Bind this value to the result variable (when given) and go on
    /// to the step's `next`.
    Continue(Option<JsonValue>),
    /// Fail: the leader failed with this text.
    LeaderFailed(String),
    /// Fail: the leader vanished.
    LeaderDropped,
    /// Fail with a timeout, after removing the key from the registry.
    TimedOut,
}

pub fn follower_action(wait: FollowerWait, result_name: &Option<String>) -> (r: FollowerAction)
    ensures
        match wait {
            FollowerWait::Received(Outcome::Value(v)) => r matches FollowerAction::Continue(b)
                && b == (if result_name is Some { v } else { None }),
            FollowerWait::Received(Outcome::Failed(m)) => r matches FollowerAction::LeaderFailed(x) && x@ == m@,
            FollowerWait::Closed => r is LeaderDropped,
            FollowerWait::TimedOut => r is TimedOut,
        },
{
    match wait {
        FollowerWait::Received(Outcome::Value(v)) => FollowerAction::Continue(if result_name.is_some() { v } else { None }),
        FollowerWait::Received(Outcome::Failed(m)) => FollowerAction::LeaderFailed(m),
        FollowerWait::Closed => FollowerAction::LeaderDropped,
        FollowerWait::TimedOut => FollowerAction::TimedOut,
    }
}

} // verus!
