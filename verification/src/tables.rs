//! The mathematical model of the tracker's two tables and of every query and
//! update on them. The executable store in `db` is proved against these.
use vstd::prelude::*;
use crate::models::{Session, TaskView, TaskWithStatsView, TaskDetailView, ReportEntryView};
use crate::db::DbError;
use crate::order::is_stable_desc_order;

verus! {

/// The two tables, in storage order (ascending id), with the largest id
/// ever handed out for each (ids are never reused, even after a delete).
pub struct Tables {
    pub tasks: Seq<TaskView>,
    pub sessions: Seq<Session>,
    pub last_task_id: i64,
    pub last_session_id: i64,
}

/// `x` is a value of a 64-bit signed integer column.
pub open spec fn fits_i64(x: int) -> bool {
    i64::MIN <= x <= i64::MAX
}

/// The session's timer is still running.
pub open spec fn is_active(s: Session) -> bool {
    s.end_time is None
}

/// Where the session ends: its end time, or `now` while it runs.
pub open spec fn effective_end(s: Session, now: i64) -> i64 {
    match s.end_time {
        Some(e) => e,
        None => now,
    }
}

/// The session with its timer stopped at `now` (unchanged if already stopped).
pub open spec fn close_at(s: Session, now: i64) -> Session {
    if is_active(s) {
        Session { end_time: Some(now), ..s }
    } else {
        s
    }
}

/// The sessions with every running timer stopped at `now`, except the
/// session with id `keep`.
pub open spec fn close_all_but(s: Seq<Session>, keep: Option<i64>, now: i64) -> Seq<Session> {
    s.map_values(|x: Session| if keep == Some(x.id) { x } else { close_at(x, now) })
}

/// Which part of a session counts towards a sum: every session of the task
/// (`window` is `None`), or only its overlap with `[start, end)`; `None`
/// when the session does not take part at all.
pub open spec fn session_term(s: Session, task_id: i64, window: Option<(i64, i64)>, now: i64) -> Option<int> {
    if s.task_id != task_id {
        None
    } else {
        match window {
            None => Some(effective_end(s, now) - s.start_time),
            Some((lo, hi)) => {
                let e = effective_end(s, now);
                if s.start_time < hi && e > lo {
                    let clipped_end: int = if e < hi { e as int } else { hi as int };
                    let clipped_start: int = if s.start_time > lo { s.start_time as int } else { lo as int };
                    Some(clipped_end - clipped_start)
                } else {
                    None
                }
            }
        }
    }
}

/// Where a SQLite `SUM` of 64-bit integer terms stands. It is exact while
/// every term and every running sum is a 64-bit integer. A term outside that
/// range is a floating-point value (SQLite computes an overflowing integer
/// subtraction in floating point), and from the first such term, or the
/// first running sum that overflows, the sum is approximate: a
/// floating-point sum, taken here as the exact sum `sum` that it
/// approximates. `overflowed` records that an integer running sum overflowed
/// and no floating-point term came after it; SQLite then fails with
/// "integer overflow".
pub enum SumState {
    Exact(int),
    Approx { overflowed: bool, sum: int },
}

/// Adding one term to a sum.
pub open spec fn add_term(st: SumState, x: int) -> SumState {
    match st {
        SumState::Exact(a) => if fits_i64(x) {
            if fits_i64(a + x) {
                SumState::Exact(a + x)
            } else {
                SumState::Approx { overflowed: true, sum: a + x }
            }
        } else {
            SumState::Approx { overflowed: false, sum: a + x }
        },
        SumState::Approx { overflowed, sum } => if fits_i64(x) {
            SumState::Approx { overflowed, sum: sum + x }
        } else {
            SumState::Approx { overflowed: false, sum: sum + x }
        },
    }
}

/// The sum of the terms of the sessions, added in storage order (the order
/// in which SQLite reads them).
pub open spec fn sum_state(s: Seq<Session>, task_id: i64, window: Option<(i64, i64)>, now: i64) -> SumState
    decreases s.len(),
{
    if s.len() == 0 {
        SumState::Exact(0)
    } else {
        let acc = sum_state(s.drop_last(), task_id, window, now);
        match session_term(s.last(), task_id, window, now) {
            None => acc,
            Some(x) => add_term(acc, x),
        }
    }
}

/// The value of a sum read as a 64-bit integer column: only an exact sum
/// reads; an approximate one is a floating-point value, which fails to read.
pub open spec fn integer_sum(st: SumState) -> Option<int> {
    match st {
        SumState::Exact(x) => Some(x),
        SumState::Approx { .. } => None,
    }
}

/// A report line with this sum makes the report fail: the sum overflowed,
/// or it is a positive floating-point value (kept by `total > 0`, it then
/// fails to read as an integer).
pub open spec fn report_fails(st: SumState) -> bool {
    match st {
        SumState::Exact(_) => false,
        SumState::Approx { overflowed, sum } => overflowed || sum > 0,
    }
}

/// The total a report keeps for a task: its exact sum; a floating-point sum
/// that does not make the report fail is not positive and is left out.
pub open spec fn report_total(st: SumState) -> int {
    match st {
        SumState::Exact(x) => x,
        SumState::Approx { .. } => 0,
    }
}

/// The first running session of the task, in storage order.
pub open spec fn first_active_of(s: Seq<Session>, task_id: i64) -> Option<Session>
    decreases s.len(),
{
    if s.len() == 0 {
        None
    } else if s[0].task_id == task_id && is_active(s[0]) {
        Some(s[0])
    } else {
        first_active_of(s.drop_first(), task_id)
    }
}

/// The first running session in the sequence.
pub open spec fn first_active(s: Seq<Session>) -> Option<Session>
    decreases s.len(),
{
    if s.len() == 0 {
        None
    } else if is_active(s[0]) {
        Some(s[0])
    } else {
        first_active(s.drop_first())
    }
}

/// Position `i` holds the running session that started last (the first such
/// in storage order when several started at the same second).
pub open spec fn is_latest_active(s: Seq<Session>, i: int) -> bool {
    &&& 0 <= i < s.len()
    &&& is_active(s[i])
    &&& forall|j: int| 0 <= j < s.len() && is_active(s[j]) ==> s[j].start_time <= s[i].start_time
    &&& forall|j: int| 0 <= j < i && is_active(s[j]) ==> s[j].start_time < s[i].start_time
}

/// All running sessions are one and the same session (with distinct ids,
/// at most one timer runs).
pub open spec fn at_most_one_active(s: Seq<Session>) -> bool {
    forall|i: int, j: int|
        0 <= i < s.len() && 0 <= j < s.len() && is_active(#[trigger] s[i]) && is_active(#[trigger] s[j])
            ==> s[i].id == s[j].id
}

/// The ordering key of the task list: unarchived before archived, and within
/// each, newest first.
pub open spec fn list_key(t: TaskView) -> i128 {
    if t.archived {
        t.created_at as i128
    } else {
        (t.created_at + 0x2_0000_0000_0000_0000int) as i128
    }
}

/// The ordering key of a task's sessions: latest start first.
pub open spec fn session_key(s: Session) -> i128 {
    s.start_time as i128
}

/// The ordering key of a report: most time first.
pub open spec fn entry_key(e: ReportEntryView) -> i128 {
    e.total_seconds as i128
}

/// The ordering keys of a task list.
pub open spec fn list_keys(l: Seq<TaskView>) -> Seq<i128> {
    l.map_values(|t: TaskView| list_key(t))
}

/// The ordering keys of a task's sessions.
pub open spec fn session_keys(l: Seq<Session>) -> Seq<i128> {
    l.map_values(|s: Session| session_key(s))
}

/// The ordering keys of a report.
pub open spec fn entry_keys(l: Seq<ReportEntryView>) -> Seq<i128> {
    l.map_values(|e: ReportEntryView| entry_key(e))
}

impl Tables {
    /// Ids increase along storage order and never exceed the last one handed
    /// out; every session belongs to a task that exists.
    pub open spec fn wf(self) -> bool {
        &&& forall|i: int, j: int| #![trigger self.tasks[i], self.tasks[j]]
            0 <= i < j < self.tasks.len() ==> self.tasks[i].id < self.tasks[j].id
        &&& forall|i: int| 0 <= i < self.tasks.len() ==> self.tasks[i].id <= self.last_task_id
        &&& forall|i: int, j: int| #![trigger self.sessions[i], self.sessions[j]]
            0 <= i < j < self.sessions.len() ==> self.sessions[i].id < self.sessions[j].id
        &&& forall|i: int| 0 <= i < self.sessions.len() ==> self.sessions[i].id <= self.last_session_id
        &&& forall|i: int| 0 <= i < self.sessions.len() ==> self.has_task(#[trigger] self.sessions[i].task_id)
    }

    /// A task with this id exists.
    pub open spec fn has_task(self, id: i64) -> bool {
        exists|i: int| 0 <= i < self.tasks.len() && self.tasks[i].id == id
    }

    /// The position of the task with this id.
    pub open spec fn task_index(self, id: i64) -> int {
        choose|i: int| 0 <= i < self.tasks.len() && self.tasks[i].id == id
    }

    /// The task with this id.
    pub open spec fn task(self, id: i64) -> TaskView {
        self.tasks[self.task_index(id)]
    }

    /// The tables with no rows.
    pub open spec fn empty() -> Tables {
        Tables { tasks: Seq::empty(), sessions: Seq::empty(), last_task_id: 0, last_session_id: 0 }
    }

    // ---------------------------------------------------------------- updates

    /// Adding a task: it gets the next id, the time `now` and is not archived.
    pub open spec fn create_task(self, name: Seq<char>, description: Option<Seq<char>>, now: i64) -> (Tables, Result<TaskView, DbError>) {
        if self.last_task_id == i64::MAX {
            (self, Err(DbError::Full))
        } else {
            let t = TaskView {
                id: (self.last_task_id + 1) as i64,
                name,
                description,
                created_at: now,
                archived: false,
            };
            (Tables { tasks: self.tasks.push(t), last_task_id: t.id, ..self }, Ok(t))
        }
    }

    /// Renaming a task and replacing its description; the task as stored afterwards.
    pub open spec fn update_task(self, id: i64, name: Seq<char>, description: Option<Seq<char>>) -> (Tables, Result<TaskView, DbError>) {
        if !self.has_task(id) {
            (self, Err(DbError::NotFound))
        } else {
            let t = TaskView { name, description, ..self.task(id) };
            (Tables { tasks: self.tasks.update(self.task_index(id), t), ..self }, Ok(t))
        }
    }

    /// Archiving (or restoring) a task; archiving stops its running timers at `now`.
    pub open spec fn set_archived(self, id: i64, archived: bool, now: i64) -> (Tables, Result<(), DbError>) {
        if !self.has_task(id) {
            (self, Err(DbError::NotFound))
        } else {
            let t = TaskView { archived, ..self.task(id) };
            let sessions = if archived {
                self.sessions.map_values(|s: Session| if s.task_id == id { close_at(s, now) } else { s })
            } else {
                self.sessions
            };
            (Tables { tasks: self.tasks.update(self.task_index(id), t), sessions, ..self }, Ok(()))
        }
    }

    /// Deleting a task together with all of its sessions.
    pub open spec fn delete_task(self, id: i64) -> (Tables, Result<(), DbError>) {
        if !self.has_task(id) {
            (self, Err(DbError::NotFound))
        } else {
            (
                Tables {
                    tasks: self.tasks.remove(self.task_index(id)),
                    sessions: self.sessions.filter(|s: Session| s.task_id != id),
                    ..self
                },
                Ok(()),
            )
        }
    }

    /// Starting the timer of a task: every other running timer is stopped
    /// at `now`; a timer already running for the task is kept and returned,
    /// otherwise a new session starts at `now`.
    pub open spec fn start_timer(self, task_id: i64, now: i64) -> (Tables, Result<Session, DbError>) {
        if !self.has_task(task_id) {
            (self, Err(DbError::NotFound))
        } else {
            match first_active_of(self.sessions, task_id) {
                Some(s) => (
                    Tables { sessions: close_all_but(self.sessions, Some(s.id), now), ..self },
                    Ok(s),
                ),
                None => if self.last_session_id == i64::MAX {
                    (self, Err(DbError::Full))
                } else {
                    let s = Session {
                        id: (self.last_session_id + 1) as i64,
                        task_id,
                        start_time: now,
                        end_time: None,
                    };
                    (
                        Tables {
                            sessions: close_all_but(self.sessions, None, now).push(s),
                            last_session_id: s.id,
                            ..self
                        },
                        Ok(s),
                    )
                },
            }
        }
    }

    /// The position of the running session that started last, if any runs.
    pub open spec fn latest_active_index(self) -> Option<int> {
        if exists|i: int| is_latest_active(self.sessions, i) {
            Some(choose|i: int| is_latest_active(self.sessions, i))
        } else {
            None
        }
    }

    /// Stopping the timer that started last, at `now`; the stopped session.
    pub open spec fn stop_active_timer(self, now: i64) -> (Tables, Option<Session>) {
        match self.latest_active_index() {
            None => (self, None),
            Some(i) => {
                let s = close_at(self.sessions[i], now);
                (Tables { sessions: self.sessions.update(i, s), ..self }, Some(s))
            }
        }
    }

    // ---------------------------------------------------------------- queries

    /// The seconds recorded on a task, running sessions counted up to `now`.
    pub open spec fn total_seconds(self, task_id: i64, now: i64) -> Option<int> {
        integer_sum(sum_state(self.sessions, task_id, None, now))
    }

    /// The running timer that started last, with its task.
    pub open spec fn active_session(self) -> Option<(TaskView, Session)> {
        match self.latest_active_index() {
            None => None,
            Some(i) => Some((self.task(self.sessions[i].task_id), self.sessions[i])),
        }
    }

    /// The tasks that a listing shows, in storage order.
    pub open spec fn listed(self, include_archived: bool) -> Seq<TaskView> {
        self.tasks.filter(|t: TaskView| include_archived || !t.archived)
    }

    /// Every listed task's total fits in 64 bits.
    pub open spec fn listing_fits(self, include_archived: bool, now: i64) -> bool {
        forall|i: int| 0 <= i < self.listed(include_archived).len()
            ==> (#[trigger] self.total_seconds(self.listed(include_archived)[i].id, now)) is Some
    }

    /// A task with its total and its first running session.
    pub open spec fn stats(self, t: TaskView, now: i64) -> TaskWithStatsView {
        TaskWithStatsView {
            task: t,
            total_seconds: self.total_seconds(t.id, now).unwrap() as i64,
            active_session: first_active_of(self.sessions, t.id),
        }
    }

    /// `v` is the task list: the listed tasks' stats, unarchived first, newest
    /// first, equal keys in storage order.
    pub open spec fn is_listing(self, include_archived: bool, now: i64, v: Seq<TaskWithStatsView>) -> bool {
        let l = self.listed(include_archived);
        exists|order: Seq<usize>| #[trigger] is_stable_desc_order(list_keys(l), order)
            && v.len() == order.len()
            && forall|k: int| 0 <= k < v.len() ==> #[trigger] v[k] == self.stats(l[order[k] as int], now)
    }

    /// The sessions of a task, in storage order.
    pub open spec fn sessions_of(self, task_id: i64) -> Seq<Session> {
        self.sessions.filter(|s: Session| s.task_id == task_id)
    }

    /// `d` is the detail of the task: its sessions latest start first (equal
    /// starts in storage order), its total, and the first running session
    /// in that order.
    pub open spec fn is_detail(self, id: i64, now: i64, d: TaskDetailView) -> bool {
        let s = self.sessions_of(id);
        &&& self.has_task(id)
        &&& d.task == self.task(id)
        &&& self.total_seconds(id, now) == Some(d.total_seconds as int)
        &&& d.active_session == first_active(d.sessions)
        &&& exists|order: Seq<usize>| #[trigger] is_stable_desc_order(session_keys(s), order)
            && d.sessions.len() == order.len()
            && forall|k: int| 0 <= k < d.sessions.len() ==> #[trigger] d.sessions[k] == s[order[k] as int]
    }

    /// The sum of the seconds of a task that fall within `[range_start, range_end)`.
    pub open spec fn report_state(self, task_id: i64, range_start: i64, range_end: i64, now: i64) -> SumState {
        sum_state(self.sessions, task_id, Some((range_start, range_end)), now)
    }

    /// No task's sum within the range makes the report fail.
    pub open spec fn report_fits(self, range_start: i64, range_end: i64, now: i64) -> bool {
        forall|i: int| 0 <= i < self.tasks.len()
            ==> !report_fails(#[trigger] self.report_state(self.tasks[i].id, range_start, range_end, now))
    }

    /// The time of a task in the range, as the report keeps it.
    pub open spec fn report_seconds(self, task_id: i64, range_start: i64, range_end: i64, now: i64) -> int {
        report_total(self.report_state(task_id, range_start, range_end, now))
    }

    /// The report line of a task.
    pub open spec fn entry(self, t: TaskView, range_start: i64, range_end: i64, now: i64) -> ReportEntryView {
        ReportEntryView {
            task_id: t.id,
            task_name: t.name,
            total_seconds: self.report_seconds(t.id, range_start, range_end, now) as i64,
        }
    }

    /// The report lines of the tasks with time in the range, in storage order.
    pub open spec fn report_lines(self, range_start: i64, range_end: i64, now: i64) -> Seq<ReportEntryView> {
        self.tasks.filter(|t: TaskView| self.report_seconds(t.id, range_start, range_end, now) > 0)
            .map_values(|t: TaskView| self.entry(t, range_start, range_end, now))
    }

    /// `v` is the report: the lines, most time first, equal totals in storage order.
    pub open spec fn is_report(self, range_start: i64, range_end: i64, now: i64, v: Seq<ReportEntryView>) -> bool {
        let l = self.report_lines(range_start, range_end, now);
        exists|order: Seq<usize>| #[trigger] is_stable_desc_order(entry_keys(l), order)
            && v.len() == order.len()
            && forall|k: int| 0 <= k < v.len() ==> #[trigger] v[k] == l[order[k] as int]
    }
}

/// Two states whose tables hold the same ids, task ids and last ids at the
/// same positions are both well formed, and find tasks at the same places.
pub(crate) proof fn lemma_same_keys(a: Tables, b: Tables)
    requires
        a.wf(),
        b.tasks.len() == a.tasks.len(),
        forall|i: int| #![trigger b.tasks[i]] 0 <= i < a.tasks.len() ==> b.tasks[i].id == a.tasks[i].id,
        b.sessions.len() == a.sessions.len(),
        forall|i: int| #![trigger b.sessions[i]] 0 <= i < a.sessions.len() ==> b.sessions[i].id == a.sessions[i].id
            && b.sessions[i].task_id == a.sessions[i].task_id,
        b.last_task_id == a.last_task_id,
        b.last_session_id == a.last_session_id,
    ensures
        b.wf(),
        forall|id: i64| #[trigger] b.has_task(id) == a.has_task(id),
        forall|id: i64| a.has_task(id) ==> #[trigger] b.task_index(id) == a.task_index(id),
{
    assert forall|id: i64| #[trigger] b.has_task(id) == a.has_task(id) by {
        if a.has_task(id) {
            let k = choose|k: int| 0 <= k < a.tasks.len() && a.tasks[k].id == id;
            assert(b.tasks[k].id == id);
        }
        if b.has_task(id) {
            let k = choose|k: int| 0 <= k < b.tasks.len() && b.tasks[k].id == id;
            assert(a.tasks[k].id == id);
        }
    }
    assert forall|id: i64| a.has_task(id) implies #[trigger] b.task_index(id) == a.task_index(id) by {
        let k = a.task_index(id);
        let l = b.task_index(id);
        assert(b.tasks[k].id == id);
        assert(a.tasks[l].id == id);
        if k < l {
            assert(a.tasks[k].id < a.tasks[l].id);
        } else if l < k {
            assert(a.tasks[l].id < a.tasks[k].id);
        }
    }
    assert forall|i: int| 0 <= i < b.sessions.len() implies b.has_task(#[trigger] b.sessions[i].task_id) by {
        assert(a.has_task(a.sessions[i].task_id));
    }
    assert forall|i: int, j: int| 0 <= i < j < b.sessions.len() implies b.sessions[i].id < b.sessions[j].id by {
        assert(a.sessions[i].id < a.sessions[j].id);
    }
    assert forall|i: int, j: int| 0 <= i < j < b.tasks.len() implies b.tasks[i].id < b.tasks[j].id by {
        assert(a.tasks[i].id < a.tasks[j].id);
    }
    assert forall|i: int| 0 <= i < b.tasks.len() implies b.tasks[i].id <= b.last_task_id by {
        assert(a.tasks[i].id <= a.last_task_id);
    }
    assert forall|i: int| 0 <= i < b.sessions.len() implies b.sessions[i].id <= b.last_session_id by {
        assert(a.sessions[i].id <= a.last_session_id);
    }
}

} // verus!
