//! The step executors whose work, once the script engine has evaluated
//! their arguments, is a pure decision: `log`, `switch` and the
//! test-only `http_mock`; and the hook that reloads the DSL tree.
use vstd::prelude::*;
use crate::json::{JsonValue, spec_truthy};
use crate::logging::spec_cap;
use crate::steps::{LogStep, SwitchStep, SwitchAction, log_message, log_text, opt_str_eq};
use crate::flow::{mock_binding, mock_bound};

verus! {

/// Runs a `log` step.
#[derive(Debug)]
pub struct LogStepExecutor {
    pub step: LogStep,
}

impl LogStepExecutor {
    pub fn new(step: LogStep) -> (r: Self)
        ensures
            r.step == step,
    {
        LogStepExecutor { step }
    }

    /// The `msg` the step line carries for the evaluated message: its
    /// text with CR/LF replaced, cut to 256 bytes.
    pub fn message(&self, evaluated: &JsonValue) -> (r: String)
        ensures
            r@ == spec_cap(log_text(*evaluated), 256),
    {
        log_message(evaluated).1
    }
}

/// Runs a `switch` step.
#[derive(Debug)]
pub struct SwitchStepExecutor {
    pub step: SwitchStep,
}

impl SwitchStepExecutor {
    pub fn new(step: SwitchStep) -> (r: Self)
        ensures
            r.step == step,
    {
        SwitchStepExecutor { step }
    }

    /// What to do first.
    pub fn start(&self) -> (r: SwitchAction)
        ensures
            self.step.switch@.len() > 0 ==> (r matches SwitchAction::Evaluate(i) && i == 0),
            self.step.switch@.len() == 0 ==> (r matches SwitchAction::Fallthrough(n) && opt_str_eq(n, self.step.next)),
    {
        self.step.start()
    }

    /// What to do once condition `index` evaluated to `value`.
    pub fn after_condition(&self, index: usize, value: &JsonValue) -> (r: SwitchAction)
        requires
            index < self.step.switch@.len(),
        ensures
            spec_truthy(*value) ==> (r matches SwitchAction::Jump(n) && n@ == self.step.switch@[index as int].next@),
            !spec_truthy(*value) && index + 1 < self.step.switch@.len() ==> (r matches SwitchAction::Evaluate(i) && i == index + 1),
            !spec_truthy(*value) && index + 1 >= self.step.switch@.len() ==> (r matches SwitchAction::Fallthrough(n)
                && opt_str_eq(n, self.step.next)),
    {
        self.step.after_condition(index, value)
    }
}

/// An `http_mock` step: a canned response bound like an HTTP step's.
#[derive(Debug)]
pub struct HttpMockStep {
    /// Status to report (default 200).
    pub status: Option<u16>,
    /// Variable the result is bound to, if any.
    pub result: Option<String>,
    pub next: Option<String>,
}

/// Runs an `http_mock` step.
#[derive(Debug)]
pub struct HttpMockStepExecutor {
    pub step: HttpMockStep,
}

impl HttpMockStepExecutor {
    pub fn new(step: HttpMockStep) -> (r: Self)
        ensures
            r.step == step,
    {
        HttpMockStepExecutor { step }
    }

    /// The status the step reports.
    pub fn status(&self) -> (r: u16)
        ensures
            r == (match self.step.status { Some(s) => s, None => 200 }),
    {
        match self.step.status { Some(s) => s, None => 200 }
    }

    /// The value bound to the result variable for the evaluated
    /// response body and request (none without a result variable).
    pub fn binding(&self, body: JsonValue, request: Option<JsonValue>) -> (r: Option<JsonValue>)
        ensures
            self.step.result is None ==> r is None,
            self.step.result is Some ==> (r matches Some(v) && mock_bound(v, match self.step.status { Some(s) => s, None => 200 }, body, request)),
    {
        match self.step.result {
            Some(_) => Some(mock_binding(self.status(), body, request)),
            None => None,
        }
    }
}

/// Re-loads the DSL tree on request of a `reloadDsl` step.
pub trait ReloadHandler {
    fn trigger_reload(&self);
}

/// The guard system of the first releases: every path passes.
#[derive(Debug)]
pub struct GuardSystem {}

impl GuardSystem {
    pub fn new() -> (r: Self) {
        GuardSystem {}
    }

    /// Every path passes.
    pub fn check_guards(&self, path: &str) -> (r: bool)
        ensures
            r,
    {
        true
    }
}

} // verus!
