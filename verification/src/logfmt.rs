//! The compact one-line rendering of log events (text and pretty
//! formats): `HH:MM:SS.mmm LEVEL [t=<trace> <project>] <body>`, with a
//! fixed layout for executed steps and for the access log, and
//! `message k=v ...` for everything else. Durations arrive already
//! rendered (`51µs`, `4.7ms`, `1.23s`).
use vstd::prelude::*;
use crate::text::{chars_of, string_of, slice_vec, extend_chars, chars_eq, push_decimal, decimal, string_views};

verus! {

/// Severity of an event.
#[derive(Debug, Clone, Copy, PartialEq, Eq, Structural)]
pub enum LogLevel {
    Error,
    Warn,
    Info,
    Debug,
    Trace,
}

pub open spec fn spec_level_label(level: LogLevel, ansi: bool) -> Seq<char> {
    if !ansi {
        match level {
            LogLevel::Error => "ERROR"@,
            LogLevel::Warn => "WARN "@,
            LogLevel::Info => "INFO "@,
            LogLevel::Debug => "DEBUG"@,
            LogLevel::Trace => "TRACE"@,
        }
    } else {
        match level {
            LogLevel::Error => "\x1b[31mERROR\x1b[0m"@,
            LogLevel::Warn => "\x1b[33mWARN \x1b[0m"@,
            LogLevel::Info => "\x1b[32mINFO \x1b[0m"@,
            LogLevel::Debug => "\x1b[36mDEBUG\x1b[0m"@,
            LogLevel::Trace => "\x1b[35mTRACE\x1b[0m"@,
        }
    }
}

/// Five-character level label; coloured when `ansi`.
pub fn level_label(level: LogLevel, ansi: bool) -> (r: &'static str)
    ensures
        r@ == spec_level_label(level, ansi),
{
    if !ansi {
        match level {
            LogLevel::Error => "ERROR",
            LogLevel::Warn => "WARN ",
            LogLevel::Info => "INFO ",
            LogLevel::Debug => "DEBUG",
            LogLevel::Trace => "TRACE",
        }
    } else {
        match level {
            LogLevel::Error => "\x1b[31mERROR\x1b[0m",
            LogLevel::Warn => "\x1b[33mWARN \x1b[0m",
            LogLevel::Info => "\x1b[32mINFO \x1b[0m",
            LogLevel::Debug => "\x1b[36mDEBUG\x1b[0m",
            LogLevel::Trace => "\x1b[35mTRACE\x1b[0m",
        }
    }
}

/// `s` wrapped in the ANSI SGR `code` when `ansi`.
pub open spec fn sgr(code: Seq<char>, s: Seq<char>, ansi: bool) -> Seq<char> {
    if ansi { "\x1b["@ + code + "m"@ + s + "\x1b[0m"@ } else { s }
}

fn push_sgr(out: &mut Vec<char>, code: &str, s: &[char], ansi: bool)
    ensures
        final(out)@ == old(out)@ + sgr(code@, s@, ansi),
{
    let ghost before = out@;
    if ansi {
        let a = chars_of("\x1b[");
        let c = chars_of(code);
        let m = chars_of("m");
        let z = chars_of("\x1b[0m");
        extend_chars(out, a.as_slice());
        extend_chars(out, c.as_slice());
        extend_chars(out, m.as_slice());
        extend_chars(out, s);
        extend_chars(out, z.as_slice());
    } else {
        extend_chars(out, s);
    }
    assert(out@ =~= before + sgr(code@, s@, ansi));
}

/// Dimmed text.
pub fn dim(s: &str, ansi: bool) -> (r: String)
    ensures
        r@ == sgr("2"@, s@, ansi),
{
    let mut out: Vec<char> = Vec::new();
    let c = chars_of(s);
    push_sgr(&mut out, "2", c.as_slice(), ansi);
    string_of(out.as_slice())
}

/// Bold text.
pub fn bold(s: &str, ansi: bool) -> (r: String)
    ensures
        r@ == sgr("1"@, s@, ansi),
{
    let mut out: Vec<char> = Vec::new();
    let c = chars_of(s);
    push_sgr(&mut out, "1", c.as_slice(), ansi);
    string_of(out.as_slice())
}

/// Cyan text.
pub fn cyan(s: &str, ansi: bool) -> (r: String)
    ensures
        r@ == sgr("36"@, s@, ansi),
{
    let mut out: Vec<char> = Vec::new();
    let c = chars_of(s);
    push_sgr(&mut out, "36", c.as_slice(), ansi);
    string_of(out.as_slice())
}

/// `n` as at least two digits.
pub open spec fn two_digits(n: nat) -> Seq<char> {
    if n < 10 { seq!['0'] + decimal(n) } else { decimal(n) }
}

/// `n` as at least three digits.
pub open spec fn three_digits(n: nat) -> Seq<char> {
    if n < 10 { seq!['0', '0'] + decimal(n) } else if n < 100 { seq!['0'] + decimal(n) } else { decimal(n) }
}

/// `HH:MM:SS.mmm` (UTC) of an instant `secs` seconds and `millis`
/// milliseconds after the Unix epoch.
pub open spec fn clock_text(secs: nat, millis: nat) -> Seq<char> {
    let d = secs % 86400;
    two_digits(d / 3600) + seq![':'] + two_digits((d % 3600) / 60) + seq![':'] + two_digits(d % 60)
        + seq!['.'] + three_digits(millis)
}

proof fn lemma_decimal_len(n: nat)
    ensures
        n < 10 ==> decimal(n).len() == 1,
        10 <= n < 100 ==> decimal(n).len() == 2,
        100 <= n < 1000 ==> decimal(n).len() == 3,
{
    if n >= 10 {
        assert(decimal(n) == decimal(n / 10).push(crate::text::digit_char(n % 10)));
        if n >= 100 {
            assert(decimal(n / 10) == decimal(n / 100).push(crate::text::digit_char((n / 10) % 10)));
        }
    }
}

fn push_padded(out: &mut Vec<char>, n: u64, width: usize)
    requires
        width == 2 || width == 3,
        n < 1000,
        width == 2 ==> n < 100,
    ensures
        final(out)@ == old(out)@ + (if width == 2 { two_digits(n as nat) } else { three_digits(n as nat) }),
{
    let ghost before = out@;
    if width == 3 && n < 10 {
        out.push('0');
        out.push('0');
    } else if n < 10 || (width == 3 && n < 100) {
        out.push('0');
    }
    push_decimal(out, n as u128);
    assert(out@ =~= before + (if width == 2 { two_digits(n as nat) } else { three_digits(n as nat) }));
}

/// Render an instant as `HH:MM:SS.mmm`.
pub fn render_clock(secs: u64, millis: u32) -> (r: String)
    requires
        millis < 1000,
    ensures
        r@ == clock_text(secs as nat, millis as nat),
        r@.len() == 12,
        r@[2] == ':' && r@[5] == ':' && r@[8] == '.',
{
    let d = secs % 86400;
    let mut out: Vec<char> = Vec::new();
    push_padded(&mut out, d / 3600, 2);
    out.push(':');
    push_padded(&mut out, (d % 3600) / 60, 2);
    out.push(':');
    push_padded(&mut out, d % 60, 2);
    out.push('.');
    push_padded(&mut out, millis as u64, 3);
    proof {
        lemma_decimal_len((d / 3600) as nat);
        lemma_decimal_len(((d % 3600) / 60) as nat);
        lemma_decimal_len((d % 60) as nat);
        lemma_decimal_len(millis as nat);
        assert(out@ =~= clock_text(secs as nat, millis as nat));
    }
    string_of(out.as_slice())
}

/// The wall clock as seconds and milliseconds since the Unix epoch
/// (`SystemTime::now().duration_since(UNIX_EPOCH)`, zero if the clock
/// is before the epoch). Claimed: the milliseconds are below 1000.
#[verifier::external_body]
fn now_since_epoch() -> (r: (u64, u32))
    ensures
        r.1 < 1000,
{
    let now = std::time::SystemTime::now().duration_since(std::time::UNIX_EPOCH).unwrap_or_default();
    (now.as_secs(), now.subsec_millis())
}

/// The current UTC time of day as `HH:MM:SS.mmm`.
pub fn render_timestamp() -> (r: String)
    ensures
        exists|secs: nat, ms: nat| ms < 1000 && r@ == clock_text(secs, ms),
        r@.len() == 12,
        r@[2] == ':' && r@[5] == ':' && r@[8] == '.',
{
    let (secs, ms) = now_since_epoch();
    render_clock(secs, ms)
}

/// The fields of one event that the formatter reads. Durations are
/// already rendered; `extras` are the unrecognised fields in
/// recording order.
#[derive(Debug, Clone)]
pub struct LogEvent {
    pub level: LogLevel,
    pub message: Option<String>,
    pub step: Option<String>,
    pub step_type: Option<String>,
    pub duration: Option<String>,
    pub next_step: Option<String>,
    pub attrs: Option<String>,
    pub http_method: Option<String>,
    pub http_route: Option<String>,
    pub http_status: Option<u64>,
    pub client_address: Option<String>,
    pub project: Option<String>,
    pub extras: Vec<(String, String)>,
}

/// Named event field slots.
#[derive(Debug, Clone, Copy, PartialEq, Eq, Structural)]
pub enum FieldSlot {
    Message,
    Step,
    StepType,
    NextStep,
    Attrs,
    HttpMethod,
    HttpRoute,
    Project,
    ClientAddress,
    Other,
}

pub open spec fn spec_slot(name: Seq<char>) -> FieldSlot {
    if name == "message"@ { FieldSlot::Message }
    else if name == "dsl.step"@ { FieldSlot::Step }
    else if name == "dsl.step.type"@ { FieldSlot::StepType }
    else if name == "dsl.next.step"@ { FieldSlot::NextStep }
    else if name == "attrs"@ { FieldSlot::Attrs }
    else if name == "http.request.method"@ { FieldSlot::HttpMethod }
    else if name == "http.route"@ { FieldSlot::HttpRoute }
    else if name == "dsl.project"@ { FieldSlot::Project }
    else if name == "client.address"@ { FieldSlot::ClientAddress }
    else { FieldSlot::Other }
}

fn is_name(n: &[char], lit: &str) -> (r: bool)
    ensures
        r == (n@ == lit@),
{
    let l = chars_of(lit);
    chars_eq(n, l.as_slice())
}

/// Slot of a text field by its name.
pub fn field_slot(name: &str) -> (r: FieldSlot)
    ensures
        r == spec_slot(name@),
{
    let n = chars_of(name);
    if is_name(n.as_slice(), "message") { FieldSlot::Message }
    else if is_name(n.as_slice(), "dsl.step") { FieldSlot::Step }
    else if is_name(n.as_slice(), "dsl.step.type") { FieldSlot::StepType }
    else if is_name(n.as_slice(), "dsl.next.step") { FieldSlot::NextStep }
    else if is_name(n.as_slice(), "attrs") { FieldSlot::Attrs }
    else if is_name(n.as_slice(), "http.request.method") { FieldSlot::HttpMethod }
    else if is_name(n.as_slice(), "http.route") { FieldSlot::HttpRoute }
    else if is_name(n.as_slice(), "dsl.project") { FieldSlot::Project }
    else if is_name(n.as_slice(), "client.address") { FieldSlot::ClientAddress }
    else { FieldSlot::Other }
}

impl LogEvent {
    /// An event with no fields recorded.
    pub fn new(level: LogLevel) -> (r: Self)
        ensures
            r.level == level,
            r.message is None && r.step is None && r.step_type is None && r.duration is None,
            r.next_step is None && r.attrs is None && r.http_method is None && r.http_route is None,
            r.http_status is None && r.client_address is None && r.project is None,
            r.extras@.len() == 0,
    {
        LogEvent {
            level,
            message: None,
            step: None,
            step_type: None,
            duration: None,
            next_step: None,
            attrs: None,
            http_method: None,
            http_route: None,
            http_status: None,
            client_address: None,
            project: None,
            extras: Vec::new(),
        }
    }

    /// Record a text field: a known name fills its slot (a later value
    /// replaces an earlier one); any other name is appended to `extras`.
    pub fn record_text(&mut self, name: &str, value: String)
        ensures
            ({
                let o = *old(self);
                let f = *final(self);
                let slot = spec_slot(name@);
                &&& f.level == o.level && f.duration == o.duration && f.http_status == o.http_status
                &&& f.message == (if slot == FieldSlot::Message { Some(value) } else { o.message })
                &&& f.step == (if slot == FieldSlot::Step { Some(value) } else { o.step })
                &&& f.step_type == (if slot == FieldSlot::StepType { Some(value) } else { o.step_type })
                &&& f.next_step == (if slot == FieldSlot::NextStep { Some(value) } else { o.next_step })
                &&& f.attrs == (if slot == FieldSlot::Attrs { Some(value) } else { o.attrs })
                &&& f.http_method == (if slot == FieldSlot::HttpMethod { Some(value) } else { o.http_method })
                &&& f.http_route == (if slot == FieldSlot::HttpRoute { Some(value) } else { o.http_route })
                &&& f.project == (if slot == FieldSlot::Project { Some(value) } else { o.project })
                &&& f.client_address == (if slot == FieldSlot::ClientAddress { Some(value) } else { o.client_address })
                &&& slot != FieldSlot::Other ==> f.extras@ == o.extras@
                &&& slot == FieldSlot::Other ==> f.extras@.len() == o.extras@.len() + 1
                    && f.extras@.drop_last() == o.extras@ && f.extras@.last().0@ == name@ && f.extras@.last().1 == value
            }),
    {
        match field_slot(name) {
            FieldSlot::Message => { self.message = Some(value); },
            FieldSlot::Step => { self.step = Some(value); },
            FieldSlot::StepType => { self.step_type = Some(value); },
            FieldSlot::NextStep => { self.next_step = Some(value); },
            FieldSlot::Attrs => { self.attrs = Some(value); },
            FieldSlot::HttpMethod => { self.http_method = Some(value); },
            FieldSlot::HttpRoute => { self.http_route = Some(value); },
            FieldSlot::Project => { self.project = Some(value); },
            FieldSlot::ClientAddress => { self.client_address = Some(value); },
            FieldSlot::Other => {
                let ghost before = self.extras@;
                self.extras.push((name.to_owned(), value));
                proof { assert(self.extras@.drop_last() =~= before); }
            },
        }
    }
}


/// Value of an optional field, or `d`.
pub open spec fn opt_or(o: Option<String>, d: Seq<char>) -> Seq<char> {
    match o { Some(s) => s@, None => d }
}

fn push_opt_or(out: &mut Vec<char>, o: &Option<String>, d: &str)
    ensures
        final(out)@ == old(out)@ + opt_or(*o, d@),
{
    match o {
        Some(s) => { let c = chars_of(s.as_str()); extend_chars(out, c.as_slice()); },
        None => { let c = chars_of(d); extend_chars(out, c.as_slice()); },
    }
}

fn push_str(out: &mut Vec<char>, s: &str)
    ensures
        final(out)@ == old(out)@ + s@,
{
    let c = chars_of(s);
    extend_chars(out, c.as_slice());
}

/// Fields already shown positionally; left out of the `k=v` tail.
pub open spec fn positional_fields() -> Seq<Seq<char>> {
    seq!["dsl.step"@, "dsl.step.type"@, "duration_ms"@, "dsl.next.step"@, "attrs"@, "message"@,
        "http.request.method"@, "http.route"@, "http.response.status_code"@, "dsl.project"@,
        "client.address"@, "trace_id"@]
}

fn is_positional(k: &[char]) -> (r: bool)
    ensures
        r == positional_fields().contains(k@),
{
    let r = is_name(k, "dsl.step") || is_name(k, "dsl.step.type") || is_name(k, "duration_ms")
        || is_name(k, "dsl.next.step") || is_name(k, "attrs") || is_name(k, "message")
        || is_name(k, "http.request.method") || is_name(k, "http.route")
        || is_name(k, "http.response.status_code") || is_name(k, "dsl.project")
        || is_name(k, "client.address") || is_name(k, "trace_id");
    proof {
        let p = positional_fields();
        if r {
            assert(p[0] == "dsl.step"@ && p[1] == "dsl.step.type"@ && p[2] == "duration_ms"@ && p[3] == "dsl.next.step"@);
            assert(p[4] == "attrs"@ && p[5] == "message"@ && p[6] == "http.request.method"@ && p[7] == "http.route"@);
            assert(p[8] == "http.response.status_code"@ && p[9] == "dsl.project"@ && p[10] == "client.address"@ && p[11] == "trace_id"@);
        } else {
            assert(!p.contains(k@)) by {
                if p.contains(k@) {
                    let i = choose|i: int| 0 <= i < p.len() && p[i] == k@;
                }
            }
        }
    }
    r
}

/// The `k=v` pairs of the fallback layout: step, type and duration
/// when present, then every unrecognised field that is not positional.
pub open spec fn tail_fields(ev: LogEvent) -> Seq<(Seq<char>, Seq<char>)> {
    (match ev.step { Some(s) => seq![("step"@, s@)], None => Seq::empty() })
        + (match ev.step_type { Some(t) => seq![("type"@, t@)], None => Seq::empty() })
        + (match ev.duration { Some(d) => seq![("took"@, d@)], None => Seq::empty() })
        + non_positional(ev.extras@)
}

pub open spec fn non_positional(extras: Seq<(String, String)>) -> Seq<(Seq<char>, Seq<char>)>
    decreases extras.len(),
{
    if extras.len() == 0 {
        Seq::empty()
    } else {
        let rest = non_positional(extras.drop_last());
        let e = extras.last();
        if positional_fields().contains(e.0@) { rest } else { rest.push((e.0@, e.1@)) }
    }
}

/// `  k1=v1 k2=v2 ...` with the keys dimmed; empty without pairs.
pub open spec fn render_kvs(kvs: Seq<(Seq<char>, Seq<char>)>, ansi: bool) -> Seq<char>
    decreases kvs.len(),
{
    if kvs.len() == 0 {
        Seq::empty()
    } else {
        render_kvs(kvs.drop_last(), ansi) + (if kvs.len() == 1 { "  "@ } else { " "@ })
            + sgr("2"@, kvs.last().0, ansi) + seq!['='] + kvs.last().1
    }
}

/// Project shown in the prefix: the event's own, else the span's when
/// not empty.
pub open spec fn shown_project(ev: LogEvent, span_project: Seq<char>) -> Option<Seq<char>> {
    match ev.project {
        Some(p) => Some(p@),
        None => if span_project.len() > 0 { Some(span_project) } else { None },
    }
}

/// `TS LEVEL [t=<trace> <project>] ` (the bracket only when a trace id
/// or a project is known).
pub open spec fn event_prefix(ts: Seq<char>, ev: LogEvent, ansi: bool, trace: Seq<char>, span_project: Seq<char>) -> Seq<char> {
    let proj = shown_project(ev, span_project);
    sgr("2"@, ts, ansi) + " "@ + spec_level_label(ev.level, ansi) + " "@
        + (if trace.len() > 0 || proj is Some {
            sgr("2"@, "[t="@ + (if trace.len() == 0 { "-"@ } else { trace }) + " "@
                + (match proj { Some(p) => p, None => "-"@ }) + "]"@, ansi) + " "@
        } else {
            Seq::empty()
        })
}

pub open spec fn status_text(ev: LogEvent) -> Seq<char> {
    match ev.http_status { Some(s) => decimal(s as nat), None => "?"@ }
}

/// The status coloured by class (2xx green, 3xx yellow, 4xx-5xx red).
pub open spec fn status_coloured(ev: LogEvent, ansi: bool) -> Seq<char> {
    let st = status_text(ev);
    let code = match ev.http_status { Some(s) => s, None => 0 };
    if !ansi {
        st
    } else if 200 <= code <= 299 {
        "\x1b[32m"@ + st + "\x1b[0m"@
    } else if 300 <= code <= 399 {
        "\x1b[33m"@ + st + "\x1b[0m"@
    } else if 400 <= code <= 599 {
        "\x1b[31m"@ + st + "\x1b[0m"@
    } else {
        st
    }
}

/// Body of an event line by its message.
pub open spec fn event_body(ev: LogEvent, ansi: bool) -> Seq<char> {
    let msg = opt_or(ev.message, Seq::empty());
    if msg == "Executed"@ {
        executed_body(ev, ansi)
    } else if msg == "http request completed"@ {
        completed_body(ev, ansi)
    } else {
        msg + render_kvs(tail_fields(ev), ansi)
    }
}

/// The whole line, newline included.
pub open spec fn event_line(ts: Seq<char>, ev: LogEvent, ansi: bool, trace: Seq<char>, span_project: Seq<char>) -> Seq<char> {
    event_prefix(ts, ev, ansi, trace, span_project) + event_body(ev, ansi) + "\n"@
}

fn push_prefix(out: &mut Vec<char>, ts: &str, ev: &LogEvent, ansi: bool, trace: &str, span_project: &str)
    ensures
        final(out)@ == old(out)@ + event_prefix(ts@, *ev, ansi, trace@, span_project@),
{
    let ghost before = out@;
    let tc = chars_of(ts);
    push_sgr(out, "2", tc.as_slice(), ansi);
    push_str(out, " ");
    push_str(out, level_label(ev.level, ansi));
    push_str(out, " ");
    let trc = chars_of(trace);
    let spc = chars_of(span_project);
    let proj: Option<Vec<char>> = match &ev.project {
        Some(p) => Some(chars_of(p.as_str())),
        None => if spc.len() > 0 { Some(spc) } else { None },
    };
    let ghost mid = out@;
    if trc.len() > 0 || proj.is_some() {
        let mut inner: Vec<char> = Vec::new();
        push_str(&mut inner, "[t=");
        if trc.len() == 0 { push_str(&mut inner, "-"); } else { extend_chars(&mut inner, trc.as_slice()); }
        push_str(&mut inner, " ");
        match &proj {
            Some(p) => { extend_chars(&mut inner, p.as_slice()); },
            None => { push_str(&mut inner, "-"); },
        }
        push_str(&mut inner, "]");
        push_sgr(out, "2", inner.as_slice(), ansi);
        push_str(out, " ");
    }
    proof {
        let pv = shown_project(*ev, span_project@);
        assert(proj is Some <==> pv is Some);
        assert(proj is Some ==> proj.unwrap()@ == pv.unwrap());
        assert(out@ =~= before + event_prefix(ts@, *ev, ansi, trace@, span_project@));
    }
}

fn push_kvs(out: &mut Vec<char>, kvs: &Vec<(Vec<char>, Vec<char>)>, ansi: bool)
    ensures
        final(out)@ == old(out)@ + render_kvs(kvs@.map_values(|p: (Vec<char>, Vec<char>)| (p.0@, p.1@)), ansi),
{
    let ghost before = out@;
    let ghost kv = kvs@.map_values(|p: (Vec<char>, Vec<char>)| (p.0@, p.1@));
    let mut i: usize = 0;
    while i < kvs.len()
        invariant
            i <= kvs@.len(),
            kv == kvs@.map_values(|p: (Vec<char>, Vec<char>)| (p.0@, p.1@)),
            out@ == before + render_kvs(kv.subrange(0, i as int), ansi),
        decreases kvs@.len() - i,
    {
        if i == 0 { push_str(out, "  "); } else { push_str(out, " "); }
        push_sgr(out, "2", kvs[i].0.as_slice(), ansi);
        out.push('=');
        extend_chars(out, kvs[i].1.as_slice());
        i = i + 1;
        proof {
            let sub = kv.subrange(0, i as int);
            assert(sub.drop_last() =~= kv.subrange(0, i - 1));
            assert(sub.last() == kv[i - 1]);
            assert(out@ =~= before + render_kvs(sub, ansi));
        }
    }
    proof { assert(kv.subrange(0, kvs@.len() as int) =~= kv); }
}

fn tail_field_list(ev: &LogEvent) -> (r: Vec<(Vec<char>, Vec<char>)>)
    ensures
        r@.map_values(|p: (Vec<char>, Vec<char>)| (p.0@, p.1@)) == tail_fields(*ev),
{
    let mut r: Vec<(Vec<char>, Vec<char>)> = Vec::new();
    let ghost mut expect: Seq<(Seq<char>, Seq<char>)> = Seq::empty();
    match &ev.step {
        Some(s) => { r.push((chars_of("step"), chars_of(s.as_str()))); },
        None => {},
    }
    match &ev.step_type {
        Some(t) => { r.push((chars_of("type"), chars_of(t.as_str()))); },
        None => {},
    }
    match &ev.duration {
        Some(d) => { r.push((chars_of("took"), chars_of(d.as_str()))); },
        None => {},
    }
    let ghost head = r@.map_values(|p: (Vec<char>, Vec<char>)| (p.0@, p.1@));
    proof {
        assert(head =~= (match ev.step { Some(s) => seq![("step"@, s@)], None => Seq::empty() })
            + (match ev.step_type { Some(t) => seq![("type"@, t@)], None => Seq::empty() })
            + (match ev.duration { Some(d) => seq![("took"@, d@)], None => Seq::empty() }));
    }
    let mut i: usize = 0;
    while i < ev.extras.len()
        invariant
            i <= ev.extras@.len(),
            r@.map_values(|p: (Vec<char>, Vec<char>)| (p.0@, p.1@)) == head + non_positional(ev.extras@.subrange(0, i as int)),
        decreases ev.extras@.len() - i,
    {
        let ghost bm = r@.map_values(|p: (Vec<char>, Vec<char>)| (p.0@, p.1@));
        let k = chars_of(ev.extras[i].0.as_str());
        let pos = is_positional(k.as_slice());
        let ghost kv = k@;
        let v = chars_of(ev.extras[i].1.as_str());
        let ghost vv = v@;
        if !pos {
            r.push((k, v));
            proof { assert(r@.map_values(|p: (Vec<char>, Vec<char>)| (p.0@, p.1@)) =~= bm.push((kv, vv))); }
        }
        i = i + 1;
        proof {
            let sub = ev.extras@.subrange(0, i as int);
            assert(sub.drop_last() =~= ev.extras@.subrange(0, i - 1));
            assert(sub.last() == ev.extras@[i - 1]);
            assert(r@.map_values(|p: (Vec<char>, Vec<char>)| (p.0@, p.1@)) =~= head + non_positional(sub));
        }
    }
    proof { assert(ev.extras@.subrange(0, ev.extras@.len() as int) =~= ev.extras@); }
    r
}

fn push_status(out: &mut Vec<char>, ev: &LogEvent, ansi: bool)
    ensures
        final(out)@ == old(out)@ + status_coloured(*ev, ansi),
{
    let ghost before = out@;
    let mut st: Vec<char> = Vec::new();
    match ev.http_status {
        Some(s) => { push_decimal(&mut st, s as u128); },
        None => { push_str(&mut st, "?"); },
    }
    proof { assert(st@ =~= status_text(*ev)); }
    let code: u64 = match ev.http_status { Some(s) => s, None => 0 };
    if ansi && 200 <= code && code <= 299 {
        push_str(out, "\x1b[32m"); extend_chars(out, st.as_slice()); push_str(out, "\x1b[0m");
    } else if ansi && 300 <= code && code <= 399 {
        push_str(out, "\x1b[33m"); extend_chars(out, st.as_slice()); push_str(out, "\x1b[0m");
    } else if ansi && 400 <= code && code <= 599 {
        push_str(out, "\x1b[31m"); extend_chars(out, st.as_slice()); push_str(out, "\x1b[0m");
    } else {
        extend_chars(out, st.as_slice());
    }
    proof { assert(out@ =~= before + status_coloured(*ev, ansi)); }
}

pub open spec fn executed_body(ev: LogEvent, ansi: bool) -> Seq<char> {
    (if ansi { "\x1b[36m▸\x1b[0m "@ } else { "▸ "@ })
        + sgr("1"@, opt_or(ev.step, "?"@), ansi) + " "@
        + sgr("2"@, "("@ + opt_or(ev.step_type, "?"@) + ")"@, ansi) + " "@
        + sgr("36"@, opt_or(ev.duration, "?"@), ansi) + " "@
        + sgr("2"@, "→"@, ansi) + " "@ + opt_or(ev.next_step, "-"@)
        + (match ev.attrs { Some(a) => if a@.len() > 0 { "  "@ + a@ } else { Seq::empty() }, None => Seq::empty() })
}

pub open spec fn completed_body(ev: LogEvent, ansi: bool) -> Seq<char> {
    (if ansi { "\x1b[35m⏹\x1b[0m "@ } else { "⏹ "@ })
        + sgr("1"@, opt_or(ev.http_method, "?"@), ansi) + " "@
        + opt_or(ev.http_route, "?"@) + " "@
        + status_coloured(ev, ansi) + " "@
        + sgr("36"@, opt_or(ev.duration, "?"@), ansi) + "  "@
        + sgr("2"@, "from "@ + opt_or(ev.client_address, "-"@), ansi)
}

#[verifier::rlimit(50)]
fn push_executed(out: &mut Vec<char>, ev: &LogEvent, ansi: bool)
    ensures
        final(out)@ == old(out)@ + executed_body(*ev, ansi),
{
    let ghost before = out@;
    if ansi { push_str(out, "\x1b[36m▸\x1b[0m "); } else { push_str(out, "▸ "); }
    let mut step: Vec<char> = Vec::new();
    push_opt_or(&mut step, &ev.step, "?");
    push_sgr(out, "1", step.as_slice(), ansi);
    push_str(out, " ");
    let mut ty: Vec<char> = Vec::new();
    push_str(&mut ty, "(");
    push_opt_or(&mut ty, &ev.step_type, "?");
    push_str(&mut ty, ")");
    push_sgr(out, "2", ty.as_slice(), ansi);
    push_str(out, " ");
    let mut dur: Vec<char> = Vec::new();
    push_opt_or(&mut dur, &ev.duration, "?");
    push_sgr(out, "36", dur.as_slice(), ansi);
    push_str(out, " ");
    let arrow = chars_of("→");
    push_sgr(out, "2", arrow.as_slice(), ansi);
    push_str(out, " ");
    push_opt_or(out, &ev.next_step, "-");
    let ghost mid = out@;
    match &ev.attrs {
        Some(a) => {
            let ac = chars_of(a.as_str());
            if ac.len() > 0 {
                push_str(out, "  ");
                extend_chars(out, ac.as_slice());
            }
        },
        None => {},
    }
    proof {
        assert(step@ =~= opt_or(ev.step, "?"@));
        assert(ty@ =~= "("@ + opt_or(ev.step_type, "?"@) + ")"@);
        assert(dur@ =~= opt_or(ev.duration, "?"@));
        assert(out@ =~= before + executed_body(*ev, ansi));
    }
}

fn push_completed(out: &mut Vec<char>, ev: &LogEvent, ansi: bool)
    ensures
        final(out)@ == old(out)@ + completed_body(*ev, ansi),
{
    let ghost before = out@;
    if ansi { push_str(out, "\x1b[35m⏹\x1b[0m "); } else { push_str(out, "⏹ "); }
    let mut m: Vec<char> = Vec::new();
    push_opt_or(&mut m, &ev.http_method, "?");
    push_sgr(out, "1", m.as_slice(), ansi);
    push_str(out, " ");
    push_opt_or(out, &ev.http_route, "?");
    push_str(out, " ");
    push_status(out, ev, ansi);
    push_str(out, " ");
    let mut dur: Vec<char> = Vec::new();
    push_opt_or(&mut dur, &ev.duration, "?");
    push_sgr(out, "36", dur.as_slice(), ansi);
    push_str(out, "  ");
    let mut from: Vec<char> = Vec::new();
    push_str(&mut from, "from ");
    push_opt_or(&mut from, &ev.client_address, "-");
    push_sgr(out, "2", from.as_slice(), ansi);
    proof {
        assert(m@ =~= opt_or(ev.http_method, "?"@));
        assert(dur@ =~= opt_or(ev.duration, "?"@));
        assert(from@ =~= "from "@ + opt_or(ev.client_address, "-"@));
        assert(out@ =~= before + completed_body(*ev, ansi));
    }
}

fn push_body(out: &mut Vec<char>, ev: &LogEvent, ansi: bool)
    ensures
        final(out)@ == old(out)@ + event_body(*ev, ansi),
{
    let ghost before = out@;
    let msg: Vec<char> = match &ev.message { Some(m) => chars_of(m.as_str()), None => Vec::new() };
    proof { assert(msg@ =~= opt_or(ev.message, Seq::empty())); }
    let executed = chars_of("Executed");
    let completed = chars_of("http request completed");
    if chars_eq(msg.as_slice(), executed.as_slice()) {
        push_executed(out, ev, ansi);
    } else if chars_eq(msg.as_slice(), completed.as_slice()) {
        push_completed(out, ev, ansi);
    } else {
        extend_chars(out, msg.as_slice());
        let kvs = tail_field_list(ev);
        push_kvs(out, &kvs, ansi);
        proof { assert(out@ =~= before + event_body(*ev, ansi)); }
    }
}

/// Render one event as a log line. `trace` is the shortened trace id
/// of the enclosing request span (empty when none) and `span_project`
/// its project (empty when none).
pub fn render_event(ts: &str, ev: &LogEvent, ansi: bool, trace: &str, span_project: &str) -> (r: String)
    ensures
        r@ == event_line(ts@, *ev, ansi, trace@, span_project@),
{
    let mut out: Vec<char> = Vec::new();
    push_prefix(&mut out, ts, ev, ansi, trace, span_project);
    push_body(&mut out, ev, ansi);
    push_str(&mut out, "\n");
    string_of(out.as_slice())
}

/// A value as rendered by `Debug`, without its surrounding double
/// quotes when the whole value is quoted.
pub open spec fn spec_strip_quotes(r: Seq<char>) -> Seq<char> {
    if r.len() >= 2 && r[0] == '"' && r[r.len() - 1] == '"' { r.subrange(1, r.len() - 1) } else { r }
}

pub fn strip_debug_quotes(rendered: &str) -> (r: String)
    ensures
        r@ == spec_strip_quotes(rendered@),
{
    let c = chars_of(rendered);
    let n = c.len();
    if n >= 2 && c[0] == '"' && c[n - 1] == '"' {
        string_of(slice_vec(c.as_slice(), 1, n - 1).as_slice())
    } else {
        string_of(c.as_slice())
    }
}

/// Shortened trace id (first 8 characters) and project of the span
/// stack, from the recorded span fields, root first: the last value of
/// each field wins; empty when absent.
pub open spec fn spec_span_summary(entries: Seq<(String, String)>) -> (Seq<char>, Seq<char>)
    decreases entries.len(),
{
    if entries.len() == 0 {
        (Seq::empty(), Seq::empty())
    } else {
        let prev = spec_span_summary(entries.drop_last());
        let e = entries.last();
        if e.0@ == "trace_id"@ {
            (e.1@.take(if e.1@.len() < 8 { e.1@.len() as int } else { 8 }), prev.1)
        } else if e.0@ == "dsl.project"@ {
            (prev.0, e.1@)
        } else {
            prev
        }
    }
}

pub fn span_summary(entries: &Vec<(String, String)>) -> (r: (String, String))
    ensures
        (r.0@, r.1@) == spec_span_summary(entries@),
{
    let mut trace: Vec<char> = Vec::new();
    let mut project: Vec<char> = Vec::new();
    let mut i: usize = 0;
    while i < entries.len()
        invariant
            i <= entries@.len(),
            (trace@, project@) == spec_span_summary(entries@.subrange(0, i as int)),
        decreases entries@.len() - i,
    {
        let k = chars_of(entries[i].0.as_str());
        if is_name(k.as_slice(), "trace_id") {
            let v = chars_of(entries[i].1.as_str());
            let take = if v.len() < 8 { v.len() } else { 8 };
            trace = slice_vec(v.as_slice(), 0, take);
        } else if is_name(k.as_slice(), "dsl.project") {
            project = chars_of(entries[i].1.as_str());
        }
        i = i + 1;
        proof {
            let sub = entries@.subrange(0, i as int);
            assert(sub.drop_last() =~= entries@.subrange(0, i - 1));
            assert(sub.last() == entries@[i - 1]);
        }
    }
    proof { assert(entries@.subrange(0, entries@.len() as int) =~= entries@); }
    (string_of(trace.as_slice()), string_of(project.as_slice()))
}

/// Span fields kept for rendering.
pub open spec fn allowed_span_field(name: Seq<char>) -> bool {
    name == "trace_id"@ || name == "dsl.project"@
}

/// Update the stashed span fields with newly recorded ones: an
/// allowed field already present is replaced in place, a new one is
/// appended; other fields are ignored.
pub fn stash_update(stash: &mut Vec<(String, String)>, name: &str, value: String)
    ensures
        !allowed_span_field(name@) ==> final(stash)@ == old(stash)@,
        allowed_span_field(name@) ==> (
            if exists|i: int| 0 <= i < old(stash)@.len() && (#[trigger] old(stash)@[i]).0@ == name@ {
                final(stash)@.len() == old(stash)@.len()
                && exists|i: int| 0 <= i < old(stash)@.len() && (#[trigger] old(stash)@[i]).0@ == name@
                    && (forall|j: int| 0 <= j < i ==> (#[trigger] old(stash)@[j]).0@ != name@)
                    && final(stash)@ == old(stash)@.update(i, (old(stash)@[i].0, value))
            } else {
                final(stash)@ == old(stash)@.push((final(stash)@.last().0, value))
                    && final(stash)@.last().0@ == name@
            }),
{
    let n = chars_of(name);
    if !(is_name(n.as_slice(), "trace_id") || is_name(n.as_slice(), "dsl.project")) {
        return;
    }
    let mut i: usize = 0;
    while i < stash.len()
        invariant
            i <= stash@.len(),
            stash@ == old(stash)@,
            n@ == name@,
            allowed_span_field(name@),
            forall|j: int| 0 <= j < i ==> (#[trigger] stash@[j]).0@ != name@,
        decreases stash@.len() - i,
    {
        let k = chars_of(stash[i].0.as_str());
        if chars_eq(k.as_slice(), n.as_slice()) {
            let key = stash[i].0.clone();
            stash.set(i, (key, value));
            proof {
                assert(stash@ =~= old(stash)@.update(i as int, (old(stash)@[i as int].0, value)));
            }
            return;
        }
        i = i + 1;
    }
    stash.push((name.to_owned(), value));
    proof {
        assert(!(exists|i: int| 0 <= i < old(stash)@.len() && (#[trigger] old(stash)@[i]).0@ == name@));
    }
}

} // verus!
