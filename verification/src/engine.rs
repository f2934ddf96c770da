//! The step scheduler of a DSL run. Steps run in source order unless a
//! step names its successor (`next:`); `end` or an unknown name stops
//! the run. A global budget bounds the number of transitions, and each
//! step has its own recursion cap (`max_recursions`, at most the
//! global one): a step whose cap is used up is passed over in source
//! order. The caller executes the dispatched step and reports back.
use vstd::prelude::*;
use crate::text::{chars_of, chars_eq, string_views};
use crate::json::JsonValue;

verus! {

/// What the scheduler needs to know of one step.
#[derive(Debug, Clone)]
pub struct StepInfo {
    pub name: String,
    /// The step's own recursion cap, if it sets one.
    pub max_recursions: Option<u32>,
    /// `skip: true`: the action is bypassed.
    pub skip: bool,
    /// `reload_dsl: true`: the DSL tree is reloaded after the step.
    pub reload_dsl: bool,
}

/// Effective recursion cap of a step: its own cap, at most `global`.
pub open spec fn spec_step_cap(s: StepInfo, global: u32) -> u32 {
    match s.max_recursions {
        Some(c) => if c < global { c } else { global },
        None => global,
    }
}

pub fn per_step_cap(s: &StepInfo, global: u32) -> (r: u32)
    ensures
        r == spec_step_cap(*s, global),
{
    match s.max_recursions {
        Some(c) => if c < global { c } else { global },
        None => global,
    }
}

/// Position of the first step named `name`.
pub open spec fn step_index(steps: Seq<StepInfo>, name: Seq<char>) -> Option<int> {
    if exists|i: int| 0 <= i < steps.len() && (#[trigger] steps[i]).name@ == name {
        Some(choose|i: int| 0 <= i < steps.len() && (#[trigger] steps[i]).name@ == name
            && forall|j: int| 0 <= j < i ==> (#[trigger] steps[j]).name@ != name)
    } else {
        None
    }
}

/// Scheduler state: the step to look at, the remaining transition
/// budget, how often each step has been dispatched, and whether the
/// run has been stopped.
#[derive(Debug, Clone)]
pub struct RunState {
    pub current: usize,
    pub budget: u32,
    pub max_iterations: u32,
    pub recursions: Vec<u32>,
    pub stopped: bool,
}

/// What the caller does next.
#[derive(Debug, Clone, Copy, PartialEq, Eq, Structural)]
pub enum RunAction {
    /// Run step `index` (bypassing its action when `skipped`), then
    /// report its outcome with [`RunState::after_step`].
    Dispatch { index: usize, skipped: bool },
    /// The run is over without a `return:`: respond with no value and
    /// status 200.
    Finished,
}

/// The scheduler from a state: the state it reaches and the step it
/// dispatches, passing over steps whose cap is used up (each pass-over
/// spends one unit of budget).
pub open spec fn spec_advance(steps: Seq<StepInfo>, max: u32, cur: int, budget: int, rec: Seq<u32>, stopped: bool)
    -> (int, int, Seq<u32>, Option<int>)
    decreases budget,
{
    if stopped || cur < 0 || cur >= steps.len() || budget <= 0 || rec.len() != steps.len() {
        (cur, budget, rec, None)
    } else if rec[cur] >= spec_step_cap(steps[cur], max) {
        spec_advance(steps, max, cur + 1, budget - 1, rec, stopped)
    } else {
        (cur, budget - 1, rec.update(cur, (rec[cur] + 1) as u32), Some(cur))
    }
}

impl RunState {
    /// A fresh run over `n` steps with the global cap `max_iterations`.
    pub fn new(n: usize, max_iterations: u32) -> (r: Self)
        ensures
            r.current == 0,
            r.budget == max_iterations,
            r.max_iterations == max_iterations,
            r.recursions@.len() == n,
            forall|i: int| 0 <= i < n ==> r.recursions@[i] == 0,
            !r.stopped,
    {
        let mut rec: Vec<u32> = Vec::new();
        let mut i: usize = 0;
        while i < n
            invariant
                i <= n,
                rec@.len() == i,
                forall|k: int| 0 <= k < i ==> rec@[k] == 0,
            decreases n - i,
        {
            rec.push(0);
            i = i + 1;
        }
        RunState { current: 0, budget: max_iterations, max_iterations, recursions: rec, stopped: false }
    }

    /// The next step to run, or `Finished`.
    pub fn next_action(&mut self, steps: &Vec<StepInfo>) -> (r: RunAction)
        ensures
            ({
                let o = *old(self);
                let adv = spec_advance(steps@, o.max_iterations, o.current as int, o.budget as int, o.recursions@, o.stopped);
                &&& final(self).current as int == adv.0
                &&& final(self).budget as int == adv.1
                &&& final(self).recursions@ == adv.2
                &&& final(self).max_iterations == o.max_iterations
                &&& final(self).stopped == o.stopped
                &&& match adv.3 {
                    Some(i) => r == RunAction::Dispatch { index: i as usize, skipped: steps@[i].skip },
                    None => r == RunAction::Finished,
                }
            }),
    {
        if self.stopped || self.recursions.len() != steps.len() {
            return RunAction::Finished;
        }
        while self.current < steps.len() && self.budget > 0
            invariant
                self.recursions@.len() == steps@.len(),
                !self.stopped,
                self.max_iterations == old(self).max_iterations,
                !old(self).stopped,
                old(self).recursions@.len() == steps@.len(),
                spec_advance(steps@, self.max_iterations, self.current as int, self.budget as int, self.recursions@, false)
                    == spec_advance(steps@, old(self).max_iterations, old(self).current as int, old(self).budget as int, old(self).recursions@, old(self).stopped),
            decreases self.budget,
        {
            let idx = self.current;
            let cap = per_step_cap(&steps[idx], self.max_iterations);
            let count = self.recursions[idx];
            self.budget = self.budget - 1;
            if count >= cap {
                self.current = self.current + 1;
            } else {
                self.recursions.set(idx, count + 1);
                return RunAction::Dispatch { index: idx, skipped: steps[idx].skip };
            }
        }
        RunAction::Finished
    }

    /// Record the outcome of the step at `index`: its `next:` target
    /// (`None` continues in source order; `end` or a name no step has
    /// stops the run).
    pub fn after_step(&mut self, steps: &Vec<StepInfo>, index: usize, next: &Option<String>)
        requires
            index < steps@.len(),
        ensures
            final(self).budget == old(self).budget,
            final(self).recursions@ == old(self).recursions@,
            final(self).max_iterations == old(self).max_iterations,
            match *next {
                None => final(self).current == index + 1 && final(self).stopped == old(self).stopped,
                Some(n) => if n@ == "end"@ {
                    final(self).stopped && final(self).current == old(self).current
                } else {
                    match step_index(steps@, n@) {
                        Some(i) => final(self).current == i && final(self).stopped == old(self).stopped,
                        None => final(self).stopped && final(self).current == old(self).current,
                    }
                },
            },
    {
        let n_steps = steps.len();
        match next {
            None => { self.current = index + 1; },
            Some(n) => {
                let nc = chars_of(n.as_str());
                let e = chars_of("end");
                if chars_eq(nc.as_slice(), e.as_slice()) {
                    self.stopped = true;
                    return;
                }
                let mut i: usize = 0;
                while i < steps.len()
                    invariant
                        i <= steps@.len(),
                        nc@ == n@,
                        n@ != "end"@,
                        *next == Some(*n),
                        *self == *old(self),
                        forall|j: int| 0 <= j < i ==> (#[trigger] steps@[j]).name@ != n@,
                    decreases steps@.len() - i,
                {
                    let sc = chars_of(steps[i].name.as_str());
                    if chars_eq(sc.as_slice(), nc.as_slice()) {
                        proof {
                            let w = choose|w: int| 0 <= w < steps@.len() && (#[trigger] steps@[w]).name@ == n@
                                && forall|j: int| 0 <= j < w ==> (#[trigger] steps@[j]).name@ != n@;
                            assert(w == i as int) by {
                                if w < i { } else if w > i { assert(steps@[i as int].name@ == n@); }
                            }
                        }
                        self.current = i;
                        return;
                    }
                    i = i + 1;
                }
                self.stopped = true;
            },
        }
    }

    /// The run ended because the transition budget ran out.
    pub fn budget_exhausted(&self) -> (r: bool)
        ensures
            r == (self.budget == 0),
    {
        self.budget == 0
    }
}

/// Outcome of a DSL run.
#[derive(Debug)]
pub struct DslExecutionResult {
    pub value: Option<JsonValue>,
    pub status: u16,
    pub headers: Vec<(String, String)>,
    /// Whether the terminating `return:` step's value is wrapped (its
    /// own flag or the configured default, see
    /// `router::return_wrapper`); `None` when the run ended without a
    /// `return:` step.
    pub wrapper: Option<bool>,
}

impl DslExecutionResult {
    /// A run that ended without `return:`.
    pub fn empty() -> (r: Self)
        ensures
            r.value is None,
            r.status == 200,
            r.headers@.len() == 0,
            r.wrapper is None,
    {
        DslExecutionResult { value: None, status: 200, headers: Vec::new(), wrapper: None }
    }

    /// A run ended by a `return:` step (status 200 when it gave none);
    /// `wrapper` is the step's effective flag (`router::return_wrapper`).
    pub fn from_return(value: Option<JsonValue>, status: Option<u16>, headers: Option<Vec<(String, String)>>, wrapper: bool)
        -> (r: Self)
        ensures
            r.value == value,
            r.status == (match status { Some(s) => s, None => 200 }),
            match headers { Some(h) => r.headers@ == h@, None => r.headers@.len() == 0 },
            r.wrapper == Some(wrapper),
    {
        DslExecutionResult {
            value,
            status: match status { Some(s) => s, None => 200 },
            headers: match headers { Some(h) => h, None => Vec::new() },
            wrapper: Some(wrapper),
        }
    }
}

} // verus!
