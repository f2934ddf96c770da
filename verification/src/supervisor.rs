//! Supervision of long-lived sources: the restart decision after a
//! source task ends, the per-source health table and its report.
use vstd::prelude::*;
use crate::text::{chars_of, string_of, chars_eq, extend_chars, to_lower_vec, lower_seq};

verus! {

/// A supervised source.
#[derive(Debug)]
pub struct SourceId {
    pub project: String,
    pub name: String,
    pub kind: String,
}

impl SourceId {
    pub open spec fn view_key(&self) -> (Seq<char>, Seq<char>, Seq<char>) {
        (self.project@, self.name@, self.kind@)
    }

    pub fn copy(&self) -> (r: SourceId)
        ensures
            r.view_key() == self.view_key(),
    {
        SourceId { project: self.project.clone(), name: self.name.clone(), kind: self.kind.clone() }
    }

    pub fn same(&self, other: &SourceId) -> (r: bool)
        ensures
            r == (self.view_key() == other.view_key()),
    {
        chars_eq(chars_of(self.project.as_str()).as_slice(), chars_of(other.project.as_str()).as_slice())
            && chars_eq(chars_of(self.name.as_str()).as_slice(), chars_of(other.name.as_str()).as_slice())
            && chars_eq(chars_of(self.kind.as_str()).as_slice(), chars_of(other.kind.as_str()).as_slice())
    }
}

/// Health of a source.
#[derive(Debug)]
pub enum SourceStatus {
    Starting,
    Running,
    Restarting { restart_count: u32, last_error: String, next_attempt_in_ms: u64 },
    /// Stopped on purpose: no further restarts.
    Dead { reason: String },
}

pub open spec fn status_same(a: SourceStatus, b: SourceStatus) -> bool {
    match (a, b) {
        (SourceStatus::Starting, SourceStatus::Starting) => true,
        (SourceStatus::Running, SourceStatus::Running) => true,
        (SourceStatus::Restarting { restart_count: c1, last_error: e1, next_attempt_in_ms: n1 },
         SourceStatus::Restarting { restart_count: c2, last_error: e2, next_attempt_in_ms: n2 }) => c1 == c2 && e1@ == e2@ && n1 == n2,
        (SourceStatus::Dead { reason: r1 }, SourceStatus::Dead { reason: r2 }) => r1@ == r2@,
        _ => false,
    }
}

proof fn lemma_status_same_refl(a: SourceStatus)
    ensures
        status_same(a, a),
{
}

impl SourceStatus {
    pub fn copy(&self) -> (r: SourceStatus)
        ensures
            status_same(r, *self),
    {
        match self {
            SourceStatus::Starting => SourceStatus::Starting,
            SourceStatus::Running => SourceStatus::Running,
            SourceStatus::Restarting { restart_count, last_error, next_attempt_in_ms } => SourceStatus::Restarting {
                restart_count: *restart_count,
                last_error: last_error.clone(),
                next_attempt_in_ms: *next_attempt_in_ms,
            },
            SourceStatus::Dead { reason } => SourceStatus::Dead { reason: reason.clone() },
        }
    }
}

/// One row of the health table.
#[derive(Debug)]
pub struct SourceState {
    pub id: SourceId,
    pub status: SourceStatus,
    pub last_status_change_unix_ms: u64,
    pub restart_count: u32,
}

pub open spec fn state_same(a: SourceState, b: SourceState) -> bool {
    a.id.view_key() == b.id.view_key() && status_same(a.status, b.status)
        && a.last_status_change_unix_ms == b.last_status_change_unix_ms && a.restart_count == b.restart_count
}

impl SourceState {
    pub fn copy(&self) -> (r: SourceState)
        ensures
            state_same(r, *self),
    {
        SourceState {
            id: self.id.copy(),
            status: self.status.copy(),
            last_status_change_unix_ms: self.last_status_change_unix_ms,
            restart_count: self.restart_count,
        }
    }
}

/// How a source task ended.
#[derive(Debug)]
pub enum TaskExit {
    /// The task returned: an intentional shutdown.
    Returned,
    /// The task was cancelled: also intentional.
    Cancelled,
    /// The task panicked; the payload as text.
    Panicked(String),
    /// The task was aborted otherwise.
    Aborted,
}

/// What the watchdog does next.
#[derive(Debug)]
pub enum Watch {
    /// Record the status and stop supervising.
    Stop(SourceStatus),
    /// Record the status, sleep `sleep_ms` (with jitter), restart with
    /// the new count and backoff.
    Restart { status: SourceStatus, restart_count: u32, sleep_ms: u64, next_backoff_ms: u64 },
}

pub open spec fn spec_watch(exit: TaskExit, restart_count: u32, backoff_ms: u64, max_backoff_ms: u64, w: Watch) -> bool {
    match exit {
        TaskExit::Returned => w matches Watch::Stop(SourceStatus::Dead { reason }) && reason@ == "clean exit"@,
        TaskExit::Cancelled => w matches Watch::Stop(SourceStatus::Dead { reason }) && reason@ == "task cancelled"@,
        _ => {
            let reason = match exit { TaskExit::Panicked(p) => "panic: "@ + p@, _ => "task aborted"@ };
            w matches Watch::Restart { status, restart_count: c, sleep_ms, next_backoff_ms }
                && c == restart_count + 1
                && sleep_ms == backoff_ms
                && next_backoff_ms == (if 2 * backoff_ms <= max_backoff_ms { 2 * backoff_ms } else { max_backoff_ms as int })
                && (status matches SourceStatus::Restarting { restart_count: sc, last_error, next_attempt_in_ms }
                    && sc == c && last_error@ == reason && next_attempt_in_ms == backoff_ms)
        },
    }
}

/// The watchdog's decision after the source task ends: a return or a
/// cancellation marks the source dead; a panic or an abort counts a
/// restart, sleeps the current backoff and doubles it up to the cap.
pub fn watch_step(exit: TaskExit, restart_count: u32, backoff_ms: u64, max_backoff_ms: u64) -> (w: Watch)
    requires
        restart_count < u32::MAX,
        backoff_ms <= u64::MAX / 2,
    ensures
        spec_watch(exit, restart_count, backoff_ms, max_backoff_ms, w),
{
    let reason = match exit {
        TaskExit::Returned => return Watch::Stop(SourceStatus::Dead { reason: "clean exit".to_string() }),
        TaskExit::Cancelled => return Watch::Stop(SourceStatus::Dead { reason: "task cancelled".to_string() }),
        TaskExit::Panicked(p) => {
            let mut m = chars_of("panic: ");
            extend_chars(&mut m, chars_of(p.as_str()).as_slice());
            string_of(m.as_slice())
        },
        TaskExit::Aborted => "task aborted".to_string(),
    };
    let c = restart_count + 1;
    let doubled = backoff_ms * 2;
    let next = if doubled <= max_backoff_ms { doubled } else { max_backoff_ms };
    Watch::Restart {
        status: SourceStatus::Restarting { restart_count: c, last_error: reason, next_attempt_in_ms: backoff_ms },
        restart_count: c,
        sleep_ms: backoff_ms,
        next_backoff_ms: next,
    }
}

/// Health of every supervised source, one row per id.
#[derive(Debug)]
pub struct SourceTable {
    rows: Vec<SourceState>,
}

/// Summary of the table for the admin endpoint.
#[derive(Debug)]
pub struct SupervisorReport {
    pub sources: Vec<SourceState>,
    pub total: usize,
    pub running: usize,
    pub restarting: usize,
    pub dead: usize,
}

pub open spec fn count_running(s: Seq<SourceState>) -> nat
    decreases s.len(),
{
    if s.len() == 0 { 0 } else { count_running(s.drop_last()) + if s.last().status is Running { 1nat } else { 0 } }
}

pub open spec fn count_restarting(s: Seq<SourceState>) -> nat
    decreases s.len(),
{
    if s.len() == 0 { 0 } else { count_restarting(s.drop_last()) + if s.last().status is Restarting { 1nat } else { 0 } }
}

pub open spec fn count_dead(s: Seq<SourceState>) -> nat
    decreases s.len(),
{
    if s.len() == 0 { 0 } else { count_dead(s.drop_last()) + if s.last().status is Dead { 1nat } else { 0 } }
}

proof fn lemma_counts_bounded(s: Seq<SourceState>)
    ensures
        count_running(s) <= s.len(),
        count_restarting(s) <= s.len(),
        count_dead(s) <= s.len(),
    decreases s.len(),
{
    if s.len() > 0 {
        lemma_counts_bounded(s.drop_last());
    }
}

impl SourceTable {
    /// The row of `id`, if any.
    pub closed spec fn row(&self, id: (Seq<char>, Seq<char>, Seq<char>)) -> Option<SourceState> {
        if exists|i: int| 0 <= i < self.rows@.len() && (#[trigger] self.rows@[i]).id.view_key() == id {
            Some(self.rows@[choose|i: int| 0 <= i < self.rows@.len() && (#[trigger] self.rows@[i]).id.view_key() == id])
        } else {
            None
        }
    }

    /// Number of rows.
    pub closed spec fn size(&self) -> nat {
        self.rows@.len()
    }

    /// No id has two rows.
    pub closed spec fn wf(&self) -> bool {
        forall|i: int, j: int| 0 <= i < j < self.rows@.len() ==> (#[trigger] self.rows@[i]).id.view_key() != (#[trigger] self.rows@[j]).id.view_key()
    }

    pub fn new() -> (r: Self)
        ensures
            r.wf(),
            r.size() == 0,
            forall|id: (Seq<char>, Seq<char>, Seq<char>)| r.row(id) is None,
    {
        SourceTable { rows: Vec::new() }
    }

    fn find(&self, id: &SourceId) -> (r: Option<usize>)
        requires
            self.wf(),
        ensures
            match r {
                Some(i) => i < self.rows@.len() && self.rows@[i as int].id.view_key() == id.view_key(),
                None => forall|j: int| 0 <= j < self.rows@.len() ==> (#[trigger] self.rows@[j]).id.view_key() != id.view_key(),
            },
    {
        let mut i: usize = 0;
        while i < self.rows.len()
            invariant
                i <= self.rows@.len(),
                forall|j: int| 0 <= j < i ==> (#[trigger] self.rows@[j]).id.view_key() != id.view_key(),
            decreases self.rows@.len() - i,
        {
            if self.rows[i].id.same(id) {
                return Some(i);
            }
            i = i + 1;
        }
        None
    }

    /// Set the status of `id` (adding its row if missing), stamped
    /// with `now_ms` and the restart count.
    pub fn set_status(&mut self, id: &SourceId, status: SourceStatus, restart_count: u32, now_ms: u64)
        requires
            old(self).wf(),
        ensures
            final(self).wf(),
            final(self).row(id.view_key()) matches Some(s) && s.id.view_key() == id.view_key()
                && status_same(s.status, status) && s.last_status_change_unix_ms == now_ms && s.restart_count == restart_count,
            forall|o: (Seq<char>, Seq<char>, Seq<char>)| o != id.view_key() ==> #[trigger] final(self).row(o) == old(self).row(o),
            final(self).size() == old(self).size() + (if old(self).row(id.view_key()) is Some { 0int } else { 1 }),
    {
        let ghost before = self.rows@;
        let ghost st = status;
        let row = SourceState { id: id.copy(), status, last_status_change_unix_ms: now_ms, restart_count };
        let ghost rv = row;
        proof { assert(status_same(rv.status, st)) by { lemma_status_same_refl(st); } }
        match self.find(id) {
            Some(i) => {
                self.rows.set(i, row);
                proof {
                    let now = self.rows@;
                    assert forall|a: int, b: int| 0 <= a < b < now.len() implies (#[trigger] now[a]).id.view_key() != (#[trigger] now[b]).id.view_key() by {
                        if a != i && b != i { assert(now[a] == before[a] && now[b] == before[b]); }
                        else if a == i { assert(now[b] == before[b]); assert(before[a].id.view_key() != before[b].id.view_key()); }
                        else { assert(now[a] == before[a]); assert(before[a].id.view_key() != before[b].id.view_key()); }
                    }
                    self.lemma_row_at(i as int);
                    assert forall|o: (Seq<char>, Seq<char>, Seq<char>)| o != id.view_key() implies #[trigger] self.row(o) == old(self).row(o) by {
                        assert forall|j: int| 0 <= j < now.len() implies ((#[trigger] now[j]).id.view_key() == o <==> before[j].id.view_key() == o)
                            && (now[j].id.view_key() == o ==> now[j] == before[j]) by {
                            if j != i { assert(now[j] == before[j]); }
                        }
                        if exists|j: int| 0 <= j < now.len() && (#[trigger] now[j]).id.view_key() == o {
                            let j = choose|j: int| 0 <= j < now.len() && (#[trigger] now[j]).id.view_key() == o;
                            self.lemma_row_at(j);
                            old(self).lemma_row_at(j);
                        } else {
                            assert forall|j: int| 0 <= j < before.len() implies (#[trigger] before[j]).id.view_key() != o by {
                                assert(now[j].id.view_key() != o);
                            }
                        }
                    }
                    assert(old(self).row(id.view_key()) is Some) by { old(self).lemma_row_at(i as int); }
                }
            },
            None => {
                self.rows.push(row);
                proof {
                    let now = self.rows@;
                    let n = before.len() as int;
                    assert forall|j: int| 0 <= j < n implies now[j] == before[j] by {}
                    assert forall|a: int, b: int| 0 <= a < b < now.len() implies (#[trigger] now[a]).id.view_key() != (#[trigger] now[b]).id.view_key() by {
                        if b < n { assert(before[a].id.view_key() != before[b].id.view_key()); }
                    }
                    self.lemma_row_at(n);
                    assert forall|o: (Seq<char>, Seq<char>, Seq<char>)| o != id.view_key() implies #[trigger] self.row(o) == old(self).row(o) by {
                        if exists|j: int| 0 <= j < now.len() && (#[trigger] now[j]).id.view_key() == o {
                            let j = choose|j: int| 0 <= j < now.len() && (#[trigger] now[j]).id.view_key() == o;
                            assert(now[n].id.view_key() == id.view_key());
                            assert(j < n);
                            assert(now[j] == before[j]);
                            self.lemma_row_at(j);
                            old(self).lemma_row_at(j);
                            assert(old(self).rows@ == before);
                            assert(self.row(o) == Some(now[j]));
                            assert(old(self).row(o) == Some(before[j]));
                        } else {
                            assert forall|j: int| 0 <= j < before.len() implies (#[trigger] before[j]).id.view_key() != o by {
                                assert(now[j] == before[j]);
                            }
                            assert(old(self).rows@ == before);
                            assert(!exists|j: int| 0 <= j < before.len() && (#[trigger] before[j]).id.view_key() == o);
                            assert(old(self).row(o) is None);
                            assert(self.row(o) is None);
                        }
                    }
                }
            },
        }
    }

    proof fn lemma_row_at(&self, i: int)
        requires
            self.wf(),
            0 <= i < self.rows@.len(),
        ensures
            self.row(self.rows@[i].id.view_key()) == Some(self.rows@[i]),
    {
        let k = self.rows@[i].id.view_key();
        let w = choose|w: int| 0 <= w < self.rows@.len() && (#[trigger] self.rows@[w]).id.view_key() == k;
        if w < i { assert(self.rows@[w].id.view_key() != self.rows@[i].id.view_key()); }
        else if w > i { assert(self.rows@[i].id.view_key() != self.rows@[w].id.view_key()); }
    }

    /// Every row, with the number running, restarting and dead.
    pub fn report(&self) -> (r: SupervisorReport)
        requires
            self.wf(),
        ensures
            r.sources@.len() == self.size(),
            r.total == self.size(),
            forall|i: int| 0 <= i < r.sources@.len() ==> (#[trigger] self.row(r.sources@[i].id.view_key()) matches Some(s)
                && state_same(r.sources@[i], s)),
            r.running == count_running(r.sources@),
            r.restarting == count_restarting(r.sources@),
            r.dead == count_dead(r.sources@),
    {
        let mut out: Vec<SourceState> = Vec::new();
        let mut running: usize = 0;
        let mut restarting: usize = 0;
        let mut dead: usize = 0;
        let mut i: usize = 0;
        while i < self.rows.len()
            invariant
                i <= self.rows@.len(),
                out@.len() == i,
                forall|j: int| 0 <= j < i ==> state_same(#[trigger] out@[j], self.rows@[j]),
                running == count_running(out@),
                restarting == count_restarting(out@),
                dead == count_dead(out@),
            decreases self.rows@.len() - i,
        {
            let ghost before = out@;
            let row = self.rows[i].copy();
            proof { lemma_counts_bounded(before); }
            match &row.status {
                SourceStatus::Running => { running = running + 1; },
                SourceStatus::Restarting { .. } => { restarting = restarting + 1; },
                SourceStatus::Dead { .. } => { dead = dead + 1; },
                SourceStatus::Starting => {},
            }
            out.push(row);
            proof { assert(out@.drop_last() =~= before); }
            i = i + 1;
        }
        proof {
            assert forall|j: int| 0 <= j < out@.len() implies (#[trigger] self.row(out@[j].id.view_key()) matches Some(s)
                && state_same(out@[j], s)) by {
                self.lemma_row_at(j);
            }
        }
        SupervisorReport { total: out.len(), sources: out, running, restarting, dead }
    }
}

/// The supervisor: the health table and the backoff bounds.
#[derive(Debug)]
pub struct SourceSupervisor {
    pub table: SourceTable,
    pub initial_backoff_ms: u64,
    pub max_backoff_ms: u64,
}

impl SourceSupervisor {
    /// An empty table; backoff from 500 ms up to 60 s.
    pub fn new() -> (r: Self)
        ensures
            r.table.wf(),
            r.table.size() == 0,
            r.initial_backoff_ms == 500,
            r.max_backoff_ms == 60_000,
    {
        SourceSupervisor { table: SourceTable::new(), initial_backoff_ms: 500, max_backoff_ms: 60_000 }
    }

    /// Start supervising `id`: its row is reset to `Starting` with no
    /// restarts.
    pub fn register(&mut self, id: &SourceId, now_ms: u64)
        requires
            old(self).table.wf(),
        ensures
            final(self).table.wf(),
            final(self).table.row(id.view_key()) matches Some(s)
                && s.status is Starting && s.restart_count == 0 && s.last_status_change_unix_ms == now_ms,
            forall|o: (Seq<char>, Seq<char>, Seq<char>)| o != id.view_key() ==> #[trigger] final(self).table.row(o) == old(self).table.row(o),
            final(self).initial_backoff_ms == old(self).initial_backoff_ms,
            final(self).max_backoff_ms == old(self).max_backoff_ms,
    {
        self.table.set_status(id, SourceStatus::Starting, 0, now_ms);
    }
}

/// The admin endpoint is on when the flag's value is `1`, `true` or
/// `yes`, in any case.
pub open spec fn spec_admin_enabled(v: Option<Seq<char>>) -> bool {
    match v {
        Some(s) => lower_seq(s) == "1"@ || lower_seq(s) == "true"@ || lower_seq(s) == "yes"@,
        None => false,
    }
}

pub fn admin_enabled(value: &Option<String>) -> (r: bool)
    ensures
        r == spec_admin_enabled(match value { Some(s) => Some(s@), None => None }),
{
    match value {
        Some(s) => {
            let l = to_lower_vec(chars_of(s.as_str()).as_slice());
            chars_eq(l.as_slice(), chars_of("1").as_slice()) || chars_eq(l.as_slice(), chars_of("true").as_slice())
                || chars_eq(l.as_slice(), chars_of("yes").as_slice())
        },
        None => false,
    }
}

} // verus!
