//! Pieces of the DSL test runner: the scenario modes, the mock
//! upstream's choice of canned response, its call-count assertion and
//! the type wildcard of the JSON matcher.
use vstd::prelude::*;
use crate::text::{chars_of, chars_eq, eq_ignore_ascii_case, eq_ignore_case, contains, contains_seq};
use crate::json::JsonValue;

verus! {

/// How a test file drives its DSL.
#[derive(Debug, Clone, Copy, PartialEq, Eq)]
pub enum Mode {
    /// An HTTP request through the router (the default).
    Inprocess,
    /// The same, with a mock upstream for outbound calls.
    MockHttp,
    /// A WebSocket client against an in-process server.
    WsClient,
    /// A synthetic event through the trigger dispatcher.
    TriggerInject,
}

impl Mode {
    /// The default mode of a test file.
    pub fn default() -> (r: Mode)
        ensures
            r == Mode::Inprocess,
    {
        Mode::Inprocess
    }

    /// The mode named in a test file (`inprocess`, `mock-http`,
    /// `ws-client`, `trigger-inject`).
    pub fn from_name(name: &str) -> (r: Option<Mode>)
        ensures
            r == (if name@ == "inprocess"@ { Some(Mode::Inprocess) }
                else if name@ == "mock-http"@ { Some(Mode::MockHttp) }
                else if name@ == "ws-client"@ { Some(Mode::WsClient) }
                else if name@ == "trigger-inject"@ { Some(Mode::TriggerInject) }
                else { None }),
    {
        let c = chars_of(name);
        if chars_eq(c.as_slice(), chars_of("inprocess").as_slice()) { Some(Mode::Inprocess) }
        else if chars_eq(c.as_slice(), chars_of("mock-http").as_slice()) { Some(Mode::MockHttp) }
        else if chars_eq(c.as_slice(), chars_of("ws-client").as_slice()) { Some(Mode::WsClient) }
        else if chars_eq(c.as_slice(), chars_of("trigger-inject").as_slice()) { Some(Mode::TriggerInject) }
        else { None }
    }
}

/// The `$type:<t>` wildcard: the value has JSON type `t` (`bool` and
/// `boolean` both name booleans; `any` matches everything).
pub open spec fn spec_type_matches(t: Seq<char>, v: JsonValue) -> bool {
    if t == "string"@ { v is String }
    else if t == "number"@ { v is Number }
    else if t == "bool"@ || t == "boolean"@ { v is Bool }
    else if t == "object"@ { v is Object }
    else if t == "array"@ { v is Array }
    else if t == "null"@ { v is Null }
    else { t == "any"@ }
}

pub fn type_matches(t: &str, v: &JsonValue) -> (r: bool)
    ensures
        r == spec_type_matches(t@, *v),
{
    let c = chars_of(t);
    let cs = c.as_slice();
    if chars_eq(cs, chars_of("string").as_slice()) { v.is_string_value() }
    else if chars_eq(cs, chars_of("number").as_slice()) { match v { JsonValue::Number(_) => true, _ => false } }
    else if chars_eq(cs, chars_of("bool").as_slice()) || chars_eq(cs, chars_of("boolean").as_slice()) { match v { JsonValue::Bool(_) => true, _ => false } }
    else if chars_eq(cs, chars_of("object").as_slice()) { match v { JsonValue::Object(_) => true, _ => false } }
    else if chars_eq(cs, chars_of("array").as_slice()) { match v { JsonValue::Array(_) => true, _ => false } }
    else if chars_eq(cs, chars_of("null").as_slice()) { match v { JsonValue::Null => true, _ => false } }
    else { chars_eq(cs, chars_of("any").as_slice()) }
}

impl JsonValue {
    pub fn is_string_value(&self) -> (r: bool)
        ensures
            r == (*self is String),
    {
        match self { JsonValue::String(_) => true, _ => false }
    }
}

/// A canned upstream response: requests whose URL contains
/// `url_matches` with this method get `status`, `body` and `headers`.
#[derive(Debug)]
pub struct MockUpstream {
    pub url_matches: String,
    pub method: String,
    pub status: u16,
    pub body: Option<JsonValue>,
    pub headers: Vec<(String, String)>,
}

/// The mock answers the request: its URL fragment occurs in the URL
/// and its method equals the request's, ASCII case ignored.
pub open spec fn mock_answers(m: MockUpstream, method: Seq<char>, url: Seq<char>) -> bool {
    contains_seq(url, m.url_matches@) && eq_ignore_case(m.method@, method)
}

/// The first registered mock that answers the request.
pub fn find_mock(mocks: &Vec<MockUpstream>, method: &str, url: &str) -> (r: Option<usize>)
    ensures
        match r {
            Some(i) => i < mocks@.len() && mock_answers(mocks@[i as int], method@, url@)
                && forall|j: int| 0 <= j < i ==> !mock_answers(#[trigger] mocks@[j], method@, url@),
            None => forall|j: int| 0 <= j < mocks@.len() ==> !mock_answers(#[trigger] mocks@[j], method@, url@),
        },
{
    let uc = chars_of(url);
    let mc = chars_of(method);
    let mut i: usize = 0;
    while i < mocks.len()
        invariant
            i <= mocks@.len(),
            uc@ == url@,
            mc@ == method@,
            forall|j: int| 0 <= j < i ==> !mock_answers(#[trigger] mocks@[j], method@, url@),
        decreases mocks@.len() - i,
    {
        let m = &mocks[i];
        if contains(uc.as_slice(), chars_of(m.url_matches.as_str()).as_slice())
            && eq_ignore_ascii_case(chars_of(m.method.as_str()).as_slice(), mc.as_slice()) {
            return Some(i);
        }
        i = i + 1;
    }
    None
}

/// One request the mock upstream received.
#[derive(Debug)]
pub struct CallRecord {
    pub method: String,
    pub url: String,
    pub body: JsonValue,
}

/// Indices of the calls whose URL contains `fragment`, in order.
pub open spec fn matching_calls(calls: Seq<CallRecord>, fragment: Seq<char>) -> Seq<int>
    decreases calls.len(),
{
    if calls.len() == 0 {
        Seq::empty()
    } else {
        matching_calls(calls.drop_last(), fragment)
            + if contains_seq(calls.last().url@, fragment) { seq![calls.len() - 1] } else { Seq::empty() }
    }
}

proof fn lemma_matching_prefix(calls: Seq<CallRecord>, fragment: Seq<char>, n: int)
    requires
        0 <= n < calls.len(),
    ensures
        matching_calls(calls.take(n + 1), fragment) == matching_calls(calls.take(n), fragment)
            + if contains_seq(calls[n].url@, fragment) { seq![n] } else { Seq::<int>::empty() },
{
    assert(calls.take(n + 1).drop_last() =~= calls.take(n));
}

/// The calls whose URL contains `fragment`, by index.
pub fn calls_matching(calls: &Vec<CallRecord>, fragment: &str) -> (r: Vec<usize>)
    ensures
        r@.len() == matching_calls(calls@, fragment@).len(),
        forall|k: int| 0 <= k < r@.len() ==> r@[k] as int == #[trigger] matching_calls(calls@, fragment@)[k],
{
    let fc = chars_of(fragment);
    let mut out: Vec<usize> = Vec::new();
    let mut i: usize = 0;
    while i < calls.len()
        invariant
            i <= calls@.len(),
            fc@ == fragment@,
            out@.len() == matching_calls(calls@.take(i as int), fragment@).len(),
            forall|k: int| 0 <= k < out@.len() ==> out@[k] as int == #[trigger] matching_calls(calls@.take(i as int), fragment@)[k],
        decreases calls@.len() - i,
    {
        proof { lemma_matching_prefix(calls@, fragment@, i as int); }
        if contains(chars_of(calls[i].url.as_str()).as_slice(), fc.as_slice()) {
            out.push(i);
        }
        i = i + 1;
    }
    proof { assert(calls@.take(i as int) =~= calls@); }
    out
}

} // verus!
