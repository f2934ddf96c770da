//! The per-run execution context: the request as the DSL sees it, the
//! variables steps assign, the project, the WebSocket connection and
//! trace that drive the run, and the guard stack.
use vstd::prelude::*;
use crate::json::JsonValue;
use crate::steps::{first_key, map_set, set_member};
use crate::sources::member_index;
use crate::router::{header_value, find_header};
use crate::logging::{spec_trace_id, trace_id_from_traceparent};
use crate::guards::GuardStack;
use crate::urls::opt_view;

verus! {

/// The value of variable `k`.
pub open spec fn var_value(vars: Seq<(String, JsonValue)>, k: Seq<char>) -> Option<JsonValue> {
    match first_key(vars, k) {
        Some(i) => Some(vars[i].1),
        None => None,
    }
}

#[derive(Debug)]
pub struct ExecutionContext {
    /// Variables assigned by steps, as a member list (a map).
    pub variables: Vec<(String, JsonValue)>,
    pub request_body: Vec<(String, JsonValue)>,
    pub request_query: Vec<(String, JsonValue)>,
    /// Header names in lower case.
    pub request_headers: Vec<(String, String)>,
    pub request_origin: String,
    pub project: String,
    pub connection_id: Option<String>,
    pub traceparent: Option<String>,
    pub guard_stack: GuardStack,
}

impl ExecutionContext {
    /// A context for a request: no variables, no project, the
    /// `traceparent` header adopted when present.
    pub fn new(body: Vec<(String, JsonValue)>, query: Vec<(String, JsonValue)>, headers: Vec<(String, String)>,
        origin: String) -> (r: Self)
        ensures
            r.variables@.len() == 0,
            r.request_body@ == body@,
            r.request_query@ == query@,
            r.request_headers@ == headers@,
            r.request_origin@ == origin@,
            r.project@ == Seq::<char>::empty(),
            r.connection_id is None,
            opt_view(r.traceparent) == header_value(headers@, "traceparent"@),
            r.guard_stack.wf(),
            r.guard_stack.view_seq().len() == 0,
    {
        Self::with_project(body, query, headers, origin, String::new())
    }

    /// A context bound to `project`.
    pub fn with_project(body: Vec<(String, JsonValue)>, query: Vec<(String, JsonValue)>, headers: Vec<(String, String)>,
        origin: String, project: String) -> (r: Self)
        ensures
            r.variables@.len() == 0,
            r.request_body@ == body@,
            r.request_query@ == query@,
            r.request_headers@ == headers@,
            r.request_origin@ == origin@,
            r.project@ == project@,
            r.connection_id is None,
            opt_view(r.traceparent) == header_value(headers@, "traceparent"@),
            r.guard_stack.wf(),
            r.guard_stack.view_seq().len() == 0,
    {
        let traceparent = find_header(&headers, "traceparent");
        ExecutionContext {
            variables: Vec::new(),
            request_body: body,
            request_query: query,
            request_headers: headers,
            request_origin: origin,
            project,
            connection_id: None,
            traceparent,
            guard_stack: GuardStack::new(),
        }
    }

    /// The trace id of the adopted `traceparent`, when well formed.
    pub fn trace_id(&self) -> (r: Option<String>)
        ensures
            opt_view(r) == (match self.traceparent { Some(tp) => spec_trace_id(tp@), None => None }),
    {
        match &self.traceparent {
            Some(tp) => trace_id_from_traceparent(tp.as_str()),
            None => None,
        }
    }

    pub fn set_variable(&mut self, key: String, value: JsonValue)
        ensures
            map_set(old(self).variables@, key@, value, final(self).variables@),
            final(self).project == old(self).project,
            final(self).connection_id == old(self).connection_id,
            final(self).traceparent == old(self).traceparent,
    {
        set_member(&mut self.variables, key, value);
    }

    pub fn get_variable(&self, key: &str) -> (r: Option<&JsonValue>)
        ensures
            match r {
                Some(v) => var_value(self.variables@, key@) == Some(*v),
                None => var_value(self.variables@, key@) is None,
            },
    {
        let kc = crate::text::chars_of(key);
        match member_index(&self.variables, kc.as_slice()) {
            Some(i) => Some(&self.variables[i].1),
            None => None,
        }
    }

}

} // verus!
