//! The tracker's store: the task and session tables, kept in memory in
//! storage order, and the operations and queries on them.
use vstd::prelude::*;
use crate::models::{clone_opt_string, Task, TaskView, Session, TaskWithStats, TaskDetail, ReportEntry};
use crate::tables::{Tables, lemma_same_keys, is_active, close_at, close_all_but, SumState, sum_state, report_fails, first_active_of, first_active, is_latest_active, list_keys, session_keys, entry_keys};
use crate::order::{is_stable_desc_order, stable_desc_order};
use crate::clock;

verus! {

/// Why an operation of the store failed.
#[derive(Debug, Clone, Copy, PartialEq, Eq, Structural)]
pub enum DbError {
    /// No task has the given id.
    NotFound,
    /// A sum of seconds does not fit in 64 bits.
    Overflow,
    /// Every id of the table has been handed out.
    Full,
    /// The system clock could not be read.
    Clock,
}

impl DbError {
    /// The message that the error is shown with.
    pub fn message(&self) -> (r: &'static str)
        ensures
            r@ == error_message(*self),
    {
        match self {
            DbError::NotFound => "not found",
            DbError::Overflow => "integer overflow",
            DbError::Full => "database or disk is full",
            DbError::Clock => "system clock unavailable",
        }
    }
}

/// The message of each error.
pub open spec fn error_message(e: DbError) -> Seq<char> {
    match e {
        DbError::NotFound => "not found"@,
        DbError::Overflow => "integer overflow"@,
        DbError::Full => "database or disk is full"@,
        DbError::Clock => "system clock unavailable"@,
    }
}

/// The result of a store operation.
pub type DbResult<T> = Result<T, DbError>;

/// The value of a result that carries a task.
pub open spec fn task_result(r: Result<Task, DbError>) -> Result<TaskView, DbError> {
    match r {
        Ok(t) => Ok(t@),
        Err(e) => Err(e),
    }
}

/// Where a sum of seconds ends: exact, or approximate, with whether an
/// integer overflow stands and whether the sum it approximates is positive.
enum SumOutcome {
    Exact(i64),
    Approx { overflowed: bool, positive: bool },
}

/// The outcome describes the sum.
spec fn sum_outcome_matches(r: SumOutcome, st: SumState) -> bool {
    match r {
        SumOutcome::Exact(v) => st == SumState::Exact(v as int),
        SumOutcome::Approx { overflowed, positive } => match st {
            SumState::Approx { overflowed: o, sum } => o == overflowed && (sum > 0) == positive,
            SumState::Exact(_) => false,
        },
    }
}

/// The task and session tables.
pub struct Db {
    tasks: Vec<Task>,
    sessions: Vec<Session>,
    last_task_id: i64,
    last_session_id: i64,
}

impl View for Db {
    type V = Tables;

    closed spec fn view(&self) -> Tables {
        Tables {
            tasks: self.tasks@.map_values(|t: Task| t@),
            sessions: self.sessions@,
            last_task_id: self.last_task_id,
            last_session_id: self.last_session_id,
        }
    }
}

impl Clone for Db {
    fn clone(&self) -> (r: Self)
        ensures
            r@ == self@,
    {
        let mut tasks: Vec<Task> = Vec::new();
        let mut j: usize = 0;
        while j < self.tasks.len()
            invariant
                j <= self.tasks@.len(),
                tasks@.len() == j,
                forall|k: int| 0 <= k < j ==> #[trigger] tasks@[k]@ == self.tasks@[k]@,
            decreases self.tasks@.len() - j,
        {
            tasks.push(self.tasks[j].clone());
            j = j + 1;
        }
        let mut sessions: Vec<Session> = Vec::new();
        let mut k: usize = 0;
        while k < self.sessions.len()
            invariant
                k <= self.sessions@.len(),
                sessions@ == self.sessions@.take(k as int),
            decreases self.sessions@.len() - k,
        {
            sessions.push(self.sessions[k]);
            k = k + 1;
            assert(sessions@ =~= self.sessions@.take(k as int));
        }
        let r = Db { tasks, sessions, last_task_id: self.last_task_id, last_session_id: self.last_session_id };
        assert(r@.tasks =~= self@.tasks);
        assert(self.sessions@.take(self.sessions@.len() as int) =~= self.sessions@);
        r
    }
}

impl Db {
    /// The store's tables are well formed.
    pub open spec fn wf(&self) -> bool {
        self@.wf()
    }

    /// An empty store.
    pub fn new() -> (db: Db)
        ensures
            db.wf(),
            db@ == Tables::empty(),
    {
        let db = Db { tasks: Vec::new(), sessions: Vec::new(), last_task_id: 0, last_session_id: 0 };
        assert(db@.tasks =~= Seq::<TaskView>::empty());
        db
    }

    /// The position of the task with this id, if there is one.
    fn find_task(&self, id: i64) -> (r: Option<usize>)
        requires
            self.wf(),
        ensures
            match r {
                Some(i) => i < self.tasks@.len() && self@.has_task(id) && self@.task_index(id) == i
                    && self.tasks@[i as int].id == id,
                None => !self@.has_task(id),
            },
    {
        let mut i: usize = 0;
        while i < self.tasks.len()
            invariant
                self.wf(),
                i <= self.tasks@.len(),
                forall|j: int| 0 <= j < i ==> self.tasks@[j].id != id,
            decreases self.tasks@.len() - i,
        {
            if self.tasks[i].id == id {
                proof {
                    assert(self@.tasks[i as int].id == id);
                    let k = self@.task_index(id);
                    assert(0 <= k < self@.tasks.len() && self@.tasks[k].id == id);
                    if k < i as int {
                        assert(self.tasks@[k].id == id);
                    } else if k > i as int {
                        assert(self@.tasks[i as int].id < self@.tasks[k].id);
                    }
                }
                return Some(i);
            }
            i = i + 1;
        }
        proof {
            assert forall|j: int| 0 <= j < self@.tasks.len() implies self@.tasks[j].id != id by {
                assert(self@.tasks[j] == self.tasks@[j]@);
            }
        }
        None
    }

    /// Adds a task named `name` created at `now`.
    pub fn create_task_at(&mut self, name: &str, description: Option<&str>, now: i64) -> (r: DbResult<Task>)
        requires
            old(self).wf(),
        ensures
            final(self).wf(),
            (final(self)@, task_result(r)) == old(self)@.create_task(name@, description.deep_view(), now),
    {
        if self.last_task_id == i64::MAX {
            return Err(DbError::Full);
        }
        let id = self.last_task_id + 1;
        let description = match description {
            Some(d) => Some(String::from_str(d)),
            None => None,
        };
        let task = Task { id, name: String::from_str(name), description, created_at: now, archived: false };
        let ret = task.clone();
        self.last_task_id = id;
        self.tasks.push(task);
        proof {
            assert(self@.tasks =~= old(self)@.tasks.push(ret@));
            assert forall|i: int, j: int| 0 <= i < j < self@.tasks.len()
                implies self@.tasks[i].id < self@.tasks[j].id by {
                if j == self@.tasks.len() - 1 {
                    assert(old(self)@.tasks[i].id <= old(self)@.last_task_id);
                }
            }
            assert forall|i: int| 0 <= i < self@.sessions.len()
                implies self@.has_task(#[trigger] self@.sessions[i].task_id) by {
                assert(old(self)@.has_task(old(self)@.sessions[i].task_id));
                let k = choose|k: int| 0 <= k < old(self)@.tasks.len() && old(self)@.tasks[k].id == old(self)@.sessions[i].task_id;
                assert(self@.tasks[k] == old(self)@.tasks[k]);
            }
        }
        Ok(ret)
    }

    /// Renames the task `id` and replaces its description.
    pub fn update_task(&mut self, id: i64, name: &str, description: Option<&str>) -> (r: DbResult<Task>)
        requires
            old(self).wf(),
        ensures
            final(self).wf(),
            (final(self)@, task_result(r)) == old(self)@.update_task(id, name@, description.deep_view()),
    {
        let i = match self.find_task(id) {
            None => return Err(DbError::NotFound),
            Some(i) => i,
        };
        let description = match description {
            Some(d) => Some(String::from_str(d)),
            None => None,
        };
        let t = Task {
            id,
            name: String::from_str(name),
            description,
            created_at: self.tasks[i].created_at,
            archived: self.tasks[i].archived,
        };
        let ret = t.clone();
        self.tasks.set(i, t);
        proof {
            assert(self@.tasks =~= old(self)@.tasks.update(i as int, ret@));
            lemma_same_keys(old(self)@, self@);
        }
        Ok(ret)
    }

    /// Archives or restores the task `id`; archiving stops its running
    /// timers at `now`.
    pub fn set_archived_at(&mut self, id: i64, archived: bool, now: i64) -> (r: DbResult<()>)
        requires
            old(self).wf(),
        ensures
            final(self).wf(),
            (final(self)@, r) == old(self)@.set_archived(id, archived, now),
    {
        let i = match self.find_task(id) {
            None => return Err(DbError::NotFound),
            Some(i) => i,
        };
        let t = Task {
            id,
            name: self.tasks[i].name.clone(),
            description: clone_opt_string(&self.tasks[i].description),
            created_at: self.tasks[i].created_at,
            archived,
        };
        let ghost tv = t@;
        self.tasks.set(i, t);
        let ghost tasks_after = self.tasks@;
        if archived {
            let n = self.sessions.len();
            let mut j: usize = 0;
            while j < n
                invariant
                    n == self.sessions@.len(),
                    n == old(self).sessions@.len(),
                    self.tasks@ == tasks_after,
                    self.last_task_id == old(self).last_task_id,
                    self.last_session_id == old(self).last_session_id,
                    j <= n,
                    forall|k: int| 0 <= k < j ==> self.sessions@[k] == (if old(self).sessions@[k].task_id == id {
                        close_at(old(self).sessions@[k], now)
                    } else {
                        old(self).sessions@[k]
                    }),
                    forall|k: int| j <= k < n ==> self.sessions@[k] == old(self).sessions@[k],
                decreases n - j,
            {
                let s = self.sessions[j];
                if s.task_id == id && s.end_time.is_none() {
                    self.sessions.set(j, Session { end_time: Some(now), ..s });
                }
                j = j + 1;
            }
        }
        proof {
            assert(self@.tasks =~= old(self)@.tasks.update(i as int, tv));
            let spec_next = old(self)@.set_archived(id, archived, now).0;
            assert(self@.sessions =~= spec_next.sessions);
            lemma_same_keys(old(self)@, self@);
        }
        Ok(())
    }

    /// Deletes the task `id` and every session recorded on it.
    pub fn delete_task(&mut self, id: i64) -> (r: DbResult<()>)
        requires
            old(self).wf(),
        ensures
            final(self).wf(),
            (final(self)@, r) == old(self)@.delete_task(id),
    {
        let i = match self.find_task(id) {
            None => return Err(DbError::NotFound),
            Some(i) => i,
        };
        let ghost pred = |s: Session| s.task_id != id;
        let ghost old_sessions = self.sessions@;
        let n = self.sessions.len();
        let mut kept: Vec<Session> = Vec::new();
        let mut j: usize = 0;
        while j < n
            invariant
                old(self).wf(),
                old_sessions == old(self).sessions@,
                n == old_sessions.len(),
                j <= n,
                pred == (|s: Session| s.task_id != id),
                kept@ == old_sessions.take(j as int).filter(pred),
                forall|k: int, l: int| 0 <= k < l < kept@.len() ==> kept@[k].id < kept@[l].id,
                forall|k: int| 0 <= k < kept@.len() ==> kept@[k].task_id != id,
                forall|k: int| #![trigger kept@[k]] 0 <= k < kept@.len() ==> exists|m: int| 0 <= m < j && #[trigger] old_sessions[m] == kept@[k],
            decreases n - j,
        {
            let s = self.sessions[j];
            proof {
                assert(old_sessions.take(j + 1) =~= old_sessions.take(j as int).push(s));
                old_sessions.take(j as int).lemma_filter_push(s, pred);
            }
            if s.task_id != id {
                proof {
                    assert forall|k: int| 0 <= k < kept@.len() implies kept@[k].id < s.id by {
                        let m = choose|m: int| 0 <= m < j && #[trigger] old_sessions[m] == kept@[k];
                        assert(old(self)@.sessions[m].id < old(self)@.sessions[j as int].id);
                    }
                }
                kept.push(s);
                proof {
                    assert forall|k: int| #![trigger kept@[k]] 0 <= k < kept@.len() implies exists|m: int| 0 <= m < j + 1 && #[trigger] old_sessions[m] == kept@[k] by {
                        if k == kept@.len() - 1 {
                            assert(old_sessions[j as int] == kept@[k]);
                        } else {
                            let m = choose|m: int| 0 <= m < j && #[trigger] old_sessions[m] == kept@[k];
                            assert(old_sessions[m] == kept@[k]);
                        }
                    }
                }
            }
            j = j + 1;
        }
        let ghost idx = i as int;
        self.tasks.remove(i);
        self.sessions = kept;
        proof {
            assert(old_sessions.take(n as int) =~= old_sessions);
            assert(self@.tasks =~= old(self)@.tasks.remove(idx));
            let o = old(self)@;
            let t = self@;
            assert forall|a: int, b: int| 0 <= a < b < t.tasks.len() implies t.tasks[a].id < t.tasks[b].id by {
                if b < idx {
                } else if a < idx {
                    assert(o.tasks[a].id < o.tasks[b + 1].id);
                } else {
                    assert(o.tasks[a + 1].id < o.tasks[b + 1].id);
                }
            }
            assert forall|a: int| 0 <= a < t.tasks.len() implies t.tasks[a].id <= t.last_task_id by {
                if a < idx {
                    assert(o.tasks[a].id <= o.last_task_id);
                } else {
                    assert(o.tasks[a + 1].id <= o.last_task_id);
                }
            }
            assert forall|a: int| 0 <= a < t.sessions.len() implies t.sessions[a].id <= t.last_session_id by {
                let m = choose|m: int| 0 <= m < n && #[trigger] old_sessions[m] == t.sessions[a];
                assert(o.sessions[m].id <= o.last_session_id);
            }
            assert forall|a: int| 0 <= a < t.sessions.len() implies t.has_task(#[trigger] t.sessions[a].task_id) by {
                let m = choose|m: int| 0 <= m < n && #[trigger] old_sessions[m] == t.sessions[a];
                let tid = o.sessions[m].task_id;
                assert(o.has_task(tid));
                let p = choose|p: int| 0 <= p < o.tasks.len() && o.tasks[p].id == tid;
                assert(p != idx);
                if p < idx {
                    assert(t.tasks[p].id == tid);
                } else {
                    assert(t.tasks[p - 1].id == tid);
                }
            }
        }
        Ok(())
    }

    /// The first running session of the task, in storage order.
    fn active_session_for_task(&self, task_id: i64) -> (r: Option<Session>)
        ensures
            r == first_active_of(self@.sessions, task_id),
    {
        let ghost s = self@.sessions;
        let n = self.sessions.len();
        let mut j: usize = 0;
        proof {
            assert(s.skip(0) =~= s);
        }
        while j < n
            invariant
                s == self@.sessions,
                n == s.len(),
                j <= n,
                first_active_of(s, task_id) == first_active_of(s.skip(j as int), task_id),
            decreases n - j,
        {
            let x = self.sessions[j];
            proof {
                assert(s.skip(j as int)[0] == x);
                assert(s.skip(j as int).drop_first() =~= s.skip(j + 1));
            }
            if x.task_id == task_id && x.end_time.is_none() {
                return Some(x);
            }
            j = j + 1;
        }
        None
    }

    /// The sum of the seconds of the task's sessions (all of them, or their
    /// overlap with `window`), running sessions counted up to `now`, as
    /// SQLite's `SUM` computes it.
    fn sum_seconds(&self, task_id: i64, window: Option<(i64, i64)>, now: i64) -> (r: SumOutcome)
        ensures
            sum_outcome_matches(r, sum_state(self@.sessions, task_id, window, now)),
    {
        let ghost s = self@.sessions;
        let n = self.sessions.len();
        let mut acc: i64 = 0;
        let mut approx = false;
        let mut overflowed = false;
        let mut high: i128 = 0;
        let mut low: i128 = 0;
        let ghost mut exact: int = 0;
        let mut j: usize = 0;
        proof {
            assert(s.take(0) =~= Seq::<Session>::empty());
        }
        while j < n
            invariant
                s == self@.sessions,
                n == s.len(),
                j <= n,
                exact == high * 0x1_0000_0000_0000_0000int + low,
                0 <= low < 0x1_0000_0000_0000_0000int,
                -(j as int) <= high <= j,
                !approx ==> sum_state(s.take(j as int), task_id, window, now) == SumState::Exact(acc as int)
                    && exact == acc,
                approx ==> sum_state(s.take(j as int), task_id, window, now) == (SumState::Approx {
                    overflowed,
                    sum: exact,
                }),
            decreases n - j,
        {
            let x = self.sessions[j];
            proof {
                assert(s.take(j + 1).drop_last() =~= s.take(j as int));
                assert(s.take(j + 1).last() == x);
            }
            if x.task_id == task_id {
                let e: i64 = match x.end_time {
                    Some(e) => e,
                    None => now,
                };
                let term: Option<i128> = match window {
                    None => Some(e as i128 - x.start_time as i128),
                    Some((lo, hi)) => {
                        if x.start_time < hi && e > lo {
                            let ce: i64 = if e < hi { e } else { hi };
                            let cs: i64 = if x.start_time > lo { x.start_time } else { lo };
                            Some(ce as i128 - cs as i128)
                        } else {
                            None
                        }
                    }
                };
                match term {
                    None => {},
                    Some(t) => {
                        let fits = i64::MIN as i128 <= t && t <= i64::MAX as i128;
                        if !approx {
                            let sum: i128 = acc as i128 + t;
                            if fits && i64::MIN as i128 <= sum && sum <= i64::MAX as i128 {
                                acc = sum as i64;
                            } else {
                                approx = true;
                                overflowed = fits;
                            }
                        } else if !fits {
                            overflowed = false;
                        }
                        let mut l: i128 = low + t;
                        if l >= 0x1_0000_0000_0000_0000i128 {
                            l = l - 0x1_0000_0000_0000_0000i128;
                            high = high + 1;
                        } else if l < 0 {
                            l = l + 0x1_0000_0000_0000_0000i128;
                            high = high - 1;
                        }
                        low = l;
                        proof {
                            exact = exact + t;
                        }
                    },
                }
            }
            j = j + 1;
        }
        proof {
            assert(s.take(n as int) =~= s);
        }
        if !approx {
            SumOutcome::Exact(acc)
        } else {
            SumOutcome::Approx { overflowed, positive: high > 0 || (high == 0 && low > 0) }
        }
    }

    /// The seconds recorded on the task, running sessions counted up to `now`.
    fn total_seconds_for_task(&self, task_id: i64, now: i64) -> (r: DbResult<i64>)
        ensures
            match r {
                Ok(v) => self@.total_seconds(task_id, now) == Some(v as int),
                Err(e) => e == DbError::Overflow && self@.total_seconds(task_id, now) is None,
            },
    {
        match self.sum_seconds(task_id, None, now) {
            SumOutcome::Exact(x) => Ok(x),
            SumOutcome::Approx { .. } => Err(DbError::Overflow),
        }
    }

    /// The position of the running session that started last.
    fn latest_active(&self) -> (r: Option<usize>)
        ensures
            r == match self@.latest_active_index() {
                Some(i) => Some(i as usize),
                None => None::<usize>,
            },
            match r {
                Some(i) => is_latest_active(self@.sessions, i as int),
                None => forall|j: int| 0 <= j < self@.sessions.len() ==> !is_active(#[trigger] self@.sessions[j]),
            },
    {
        let ghost s = self@.sessions;
        let n = self.sessions.len();
        let mut best: Option<usize> = None;
        let mut j: usize = 0;
        while j < n
            invariant
                s == self@.sessions,
                n == s.len(),
                j <= n,
                match best {
                    Some(b) => b < j && is_active(s[b as int])
                        && (forall|m: int| 0 <= m < j && is_active(s[m]) ==> s[m].start_time <= s[b as int].start_time)
                        && (forall|m: int| 0 <= m < b && is_active(s[m]) ==> s[m].start_time < s[b as int].start_time),
                    None => forall|m: int| 0 <= m < j ==> !is_active(#[trigger] s[m]),
                },
            decreases n - j,
        {
            let x = self.sessions[j];
            if x.end_time.is_none() {
                match best {
                    None => {
                        best = Some(j);
                    },
                    Some(b) => {
                        if x.start_time > self.sessions[b].start_time {
                            best = Some(j);
                        }
                    },
                }
            }
            j = j + 1;
        }
        proof {
            match best {
                Some(b) => {
                    assert(is_latest_active(s, b as int));
                    lemma_latest_unique(s, b as int);
                },
                None => {},
            }
        }
        best
    }

    /// Stops, at `now`, every running timer but the session with id `keep`.
    fn close_running_except(&mut self, keep: Option<i64>, now: i64)
        requires
            old(self).wf(),
        ensures
            final(self).wf(),
            final(self)@ == (Tables { sessions: close_all_but(old(self)@.sessions, keep, now), ..old(self)@ }),
    {
        let n = self.sessions.len();
        let mut j: usize = 0;
        while j < n
            invariant
                n == self.sessions@.len(),
                n == old(self).sessions@.len(),
                self.tasks@ == old(self).tasks@,
                self.last_task_id == old(self).last_task_id,
                self.last_session_id == old(self).last_session_id,
                j <= n,
                forall|k: int| 0 <= k < j ==> self.sessions@[k] == (if keep == Some(old(self).sessions@[k].id) {
                    old(self).sessions@[k]
                } else {
                    close_at(old(self).sessions@[k], now)
                }),
                forall|k: int| j <= k < n ==> self.sessions@[k] == old(self).sessions@[k],
            decreases n - j,
        {
            let x = self.sessions[j];
            let kept = match keep {
                Some(id) => id == x.id,
                None => false,
            };
            if !kept && x.end_time.is_none() {
                self.sessions.set(j, Session { end_time: Some(now), ..x });
            }
            j = j + 1;
        }
        proof {
            assert(self@.sessions =~= close_all_but(old(self)@.sessions, keep, now));
            lemma_same_keys(old(self)@, self@);
            assert(self@.tasks =~= old(self)@.tasks);
        }
    }

    /// Starts the timer of the task at `now`: returns the timer already
    /// running for the task, or stops every running timer and starts a new one.
    pub fn start_timer_at(&mut self, task_id: i64, now: i64) -> (r: DbResult<Session>)
        requires
            old(self).wf(),
        ensures
            final(self).wf(),
            (final(self)@, r) == old(self)@.start_timer(task_id, now),
    {
        if self.find_task(task_id).is_none() {
            return Err(DbError::NotFound);
        }
        match self.active_session_for_task(task_id) {
            Some(s) => {
                self.close_running_except(Some(s.id), now);
                return Ok(s);
            },
            None => {},
        }
        if self.last_session_id == i64::MAX {
            return Err(DbError::Full);
        }
        self.close_running_except(None, now);
        let ghost closed = self@;
        let s = Session { id: self.last_session_id + 1, task_id, start_time: now, end_time: None };
        self.last_session_id = s.id;
        self.sessions.push(s);
        proof {
            assert(self@.sessions =~= closed.sessions.push(s));
            assert(self@.tasks == closed.tasks);
            assert forall|a: int, b: int| 0 <= a < b < self@.sessions.len()
                implies self@.sessions[a].id < self@.sessions[b].id by {
                if b == self@.sessions.len() - 1 {
                    assert(closed.sessions[a].id <= closed.last_session_id);
                } else {
                    assert(closed.sessions[a].id < closed.sessions[b].id);
                }
            }
            assert forall|a: int| 0 <= a < self@.sessions.len()
                implies self@.has_task(#[trigger] self@.sessions[a].task_id) by {
                if a < self@.sessions.len() - 1 {
                    assert(closed.has_task(closed.sessions[a].task_id));
                } else {
                    assert(old(self)@.has_task(task_id));
                }
            }
            assert forall|a: int| 0 <= a < self@.sessions.len()
                implies self@.sessions[a].id <= self@.last_session_id by {
                if a < self@.sessions.len() - 1 {
                    assert(closed.sessions[a].id <= closed.last_session_id);
                }
            }
        }
        Ok(s)
    }

    /// Stops, at `now`, the running timer that started last.
    pub fn stop_active_timer_at(&mut self, now: i64) -> (r: DbResult<Option<Session>>)
        requires
            old(self).wf(),
        ensures
            final(self).wf(),
            r == Ok::<Option<Session>, DbError>(old(self)@.stop_active_timer(now).1),
            final(self)@ == old(self)@.stop_active_timer(now).0,
    {
        match self.latest_active() {
            None => Ok(None),
            Some(i) => {
                let x = self.sessions[i];
                let s = Session { end_time: Some(now), ..x };
                self.sessions.set(i, s);
                proof {
                    assert(self@.sessions =~= old(self)@.sessions.update(i as int, s));
                    lemma_same_keys(old(self)@, self@);
                }
                Ok(Some(s))
            },
        }
    }

    /// The running timer that started last, with its task.
    pub fn get_active_session(&self) -> (r: DbResult<Option<(Task, Session)>>)
        requires
            self.wf(),
        ensures
            r is Ok,
            active_result(r.unwrap()) == self@.active_session(),
    {
        match self.latest_active() {
            None => Ok(None),
            Some(i) => {
                let s = self.sessions[i];
                proof {
                    assert(self@.sessions[i as int] == s);
                    assert(self@.has_task(self@.sessions[i as int].task_id));
                }
                match self.find_task(s.task_id) {
                    Some(k) => Ok(Some((self.tasks[k].clone(), s))),
                    None => Ok(None),
                }
            },
        }
    }

    /// The tasks with their totals and running sessions (archived ones only
    /// when `include_archived`), unarchived first, newest first; running
    /// sessions count up to `now`.
    pub fn list_tasks_at(&self, include_archived: bool, now: i64) -> (r: DbResult<Vec<TaskWithStats>>)
        requires
            self.wf(),
        ensures
            list_tasks_post(self@, include_archived, now, r),
    {
        let ghost pred = |t: TaskView| include_archived || !t.archived;
        let ghost ts = self@.tasks;
        let ghost listed = self@.listed(include_archived);
        let n = self.tasks.len();
        let mut stats: Vec<TaskWithStats> = Vec::new();
        let mut keys: Vec<i128> = Vec::new();
        let mut j: usize = 0;
        proof {
            assert(ts.take(0) =~= Seq::<TaskView>::empty());
            reveal_with_fuel(Seq::filter, 1);
            assert(listed == ts.filter(pred));
        }
        while j < n
            invariant
                self.wf(),
                ts == self@.tasks,
                n == ts.len(),
                j <= n,
                pred == (|t: TaskView| include_archived || !t.archived),
                listed == ts.filter(pred),
                stats@.len() == ts.take(j as int).filter(pred).len(),
                keys@ == list_keys(ts.take(j as int).filter(pred)),
                forall|k: int| 0 <= k < stats@.len() ==> #[trigger] stats@[k]@ == self@.stats(ts.take(j as int).filter(pred)[k], now),
                forall|k: int| 0 <= k < stats@.len() ==> (#[trigger] self@.total_seconds(ts.take(j as int).filter(pred)[k].id, now)) is Some,
            decreases n - j,
        {
            let ghost before = ts.take(j as int).filter(pred);
            proof {
                assert(ts.take(j + 1) =~= ts.take(j as int).push(ts[j as int]));
                ts.take(j as int).lemma_filter_push(ts[j as int], pred);
                assert(self.tasks@[j as int]@ == ts[j as int]);
            }
            let t = &self.tasks[j];
            if include_archived || !t.archived {
                let total = match self.total_seconds_for_task(t.id, now) {
                    Ok(x) => x,
                    Err(e) => {
                        proof {
                            lemma_filter_prefix(ts, j + 1, pred);
                            let k = before.len() as int;
                            assert(listed[k] == ts[j as int]);
                            assert(self@.total_seconds(listed[k].id, now) is None);
                        }
                        return Err(e);
                    },
                };
                let active = self.active_session_for_task(t.id);
                let key: i128 = if t.archived { t.created_at as i128 } else { t.created_at as i128 + 0x2_0000_0000_0000_0000i128 };
                keys.push(key);
                stats.push(TaskWithStats { task: t.clone(), total_seconds: total, active_session: active });
                proof {
                    let after = ts.take(j + 1).filter(pred);
                    assert(after == before.push(ts[j as int]));
                    assert(keys@ =~= list_keys(after));
                    assert forall|k: int| 0 <= k < stats@.len() implies #[trigger] stats@[k]@ == self@.stats(after[k], now) by {
                        if k < before.len() {
                            assert(after[k] == before[k]);
                        }
                    }
                    assert forall|k: int| 0 <= k < stats@.len() implies (#[trigger] self@.total_seconds(after[k].id, now)) is Some by {
                        if k < before.len() {
                            assert(after[k] == before[k]);
                        }
                    }
                }
            }
            j = j + 1;
        }
        proof {
            assert(ts.take(n as int) =~= ts);
        }
        let order = stable_desc_order(&keys);
        let mut out: Vec<TaskWithStats> = Vec::new();
        let m = order.len();
        let mut k: usize = 0;
        while k < m
            invariant
                m == order@.len(),
                m == stats@.len(),
                is_stable_desc_order(keys@, order@),
                k <= m,
                out@.len() == k,
                forall|a: int| 0 <= a < k ==> #[trigger] out@[a]@ == stats@[order@[a] as int]@,
            decreases m - k,
        {
            let x = stats[order[k]].clone();
            out.push(x);
            k = k + 1;
        }
        proof {
            let v = out@.map_values(|x: TaskWithStats| x@);
            assert(v.len() == order@.len());
            assert forall|a: int| 0 <= a < v.len() implies #[trigger] v[a] == self@.stats(listed[order@[a] as int], now) by {
                assert(out@[a]@ == stats@[order@[a] as int]@);
            }
            assert(is_stable_desc_order(list_keys(listed), order@));
            assert forall|i: int| 0 <= i < listed.len() implies (#[trigger] self@.total_seconds(listed[i].id, now)) is Some by {
                assert(self@.total_seconds(listed[i].id, now) is Some);
            }
        }
        Ok(out)
    }

    /// The task `id` with its sessions, latest start first, its total and its
    /// running session; running sessions count up to `now`.
    pub fn get_task_detail_at(&self, id: i64, now: i64) -> (r: DbResult<TaskDetail>)
        requires
            self.wf(),
        ensures
            task_detail_post(self@, id, now, r),
    {
        let i = match self.find_task(id) {
            None => return Err(DbError::NotFound),
            Some(i) => i,
        };
        let task = self.tasks[i].clone();
        let ghost pred = |x: Session| x.task_id == id;
        let ghost ss = self@.sessions;
        let n = self.sessions.len();
        let mut mine: Vec<Session> = Vec::new();
        let mut keys: Vec<i128> = Vec::new();
        let mut j: usize = 0;
        proof {
            assert(ss.take(0) =~= Seq::<Session>::empty());
            reveal_with_fuel(Seq::filter, 1);
        }
        while j < n
            invariant
                ss == self@.sessions,
                n == ss.len(),
                j <= n,
                pred == (|x: Session| x.task_id == id),
                mine@ == ss.take(j as int).filter(pred),
                keys@ == session_keys(mine@),
            decreases n - j,
        {
            let x = self.sessions[j];
            proof {
                assert(ss.take(j + 1) =~= ss.take(j as int).push(x));
                ss.take(j as int).lemma_filter_push(x, pred);
            }
            if x.task_id == id {
                mine.push(x);
                keys.push(x.start_time as i128);
                assert(keys@ =~= session_keys(mine@));
            }
            j = j + 1;
        }
        proof {
            assert(ss.take(n as int) =~= ss);
        }
        let total = self.total_seconds_for_task(id, now)?;
        let order = stable_desc_order(&keys);
        let mut sessions: Vec<Session> = Vec::new();
        let mut active: Option<Session> = None;
        let m = order.len();
        let mut k: usize = 0;
        while k < m
            invariant
                m == order@.len(),
                m == mine@.len(),
                is_stable_desc_order(keys@, order@),
                k <= m,
                sessions@.len() == k,
                forall|a: int| 0 <= a < k ==> #[trigger] sessions@[a] == mine@[order@[a] as int],
                active == first_active(sessions@),
            decreases m - k,
        {
            let x = mine[order[k]];
            proof {
                lemma_first_active_push(sessions@, x);
            }
            sessions.push(x);
            if active.is_none() && x.end_time.is_none() {
                active = Some(x);
            }
            k = k + 1;
        }
        let d = TaskDetail { task, sessions, total_seconds: total, active_session: active };
        proof {
            assert(self@.sessions_of(id) == mine@);
            assert(is_stable_desc_order(session_keys(self@.sessions_of(id)), order@));
            assert(d@.task == self@.task(id));
            assert(self@.total_seconds(id, now) == Some(d@.total_seconds as int));
            assert(d@.active_session == first_active(d@.sessions));
            assert(d@.sessions.len() == order@.len());
            assert forall|a: int| 0 <= a < d@.sessions.len() implies #[trigger] d@.sessions[a] == self@.sessions_of(id)[order@[a] as int] by {
                assert(sessions@[a] == mine@[order@[a] as int]);
            }
        }
        Ok(d)
    }

    /// The time spent on each task within `[range_start, range_end)`, most
    /// first, leaving out tasks with none; running sessions count up to `now`.
    pub fn report_at(&self, range_start: i64, range_end: i64, now: i64) -> (r: DbResult<Vec<ReportEntry>>)
        requires
            self.wf(),
        ensures
            report_post(self@, range_start, range_end, now, r),
    {
        let ghost t = self@;
        let ghost pred = |x: TaskView| t.report_seconds(x.id, range_start, range_end, now) > 0;
        let ghost f = |x: TaskView| t.entry(x, range_start, range_end, now);
        let ghost ts = t.tasks;
        let n = self.tasks.len();
        let mut lines: Vec<ReportEntry> = Vec::new();
        let mut keys: Vec<i128> = Vec::new();
        let mut j: usize = 0;
        proof {
            assert(ts.take(0) =~= Seq::<TaskView>::empty());
            reveal_with_fuel(Seq::filter, 1);
        }
        while j < n
            invariant
                self.wf(),
                t == self@,
                ts == t.tasks,
                n == ts.len(),
                j <= n,
                pred == (|x: TaskView| t.report_seconds(x.id, range_start, range_end, now) > 0),
                f == (|x: TaskView| t.entry(x, range_start, range_end, now)),
                lines@.map_values(|x: ReportEntry| x@) == ts.take(j as int).filter(pred).map_values(f),
                keys@ == entry_keys(ts.take(j as int).filter(pred).map_values(f)),
                forall|a: int| 0 <= a < j ==> !report_fails(#[trigger] t.report_state(ts[a].id, range_start, range_end, now)),
            decreases n - j,
        {
            let ghost before = ts.take(j as int).filter(pred);
            proof {
                assert(ts.take(j + 1) =~= ts.take(j as int).push(ts[j as int]));
                ts.take(j as int).lemma_filter_push(ts[j as int], pred);
                assert(self.tasks@[j as int]@ == ts[j as int]);
            }
            let x = &self.tasks[j];
            let total: i64 = match self.sum_seconds(x.id, Some((range_start, range_end)), now) {
                SumOutcome::Exact(v) => v,
                SumOutcome::Approx { overflowed, positive } => {
                    if overflowed || positive {
                        assert(report_fails(t.report_state(ts[j as int].id, range_start, range_end, now)));
                        return Err(DbError::Overflow);
                    }
                    0
                },
            };
            proof {
                assert(t.report_seconds(ts[j as int].id, range_start, range_end, now) == total as int);
                assert(pred(ts[j as int]) == (total > 0));
            }
            if total > 0 {
                let e = ReportEntry { task_id: x.id, task_name: x.name.clone(), total_seconds: total };
                keys.push(total as i128);
                lines.push(e);
                proof {
                    let after = ts.take(j + 1).filter(pred);
                    assert(after == before.push(ts[j as int]));
                    assert(after.map_values(f) =~= before.map_values(f).push(f(ts[j as int])));
                    assert(lines@.map_values(|y: ReportEntry| y@) =~= after.map_values(f));
                    assert(keys@ =~= entry_keys(after.map_values(f)));
                }
            } else {
                assert(ts.take(j + 1).filter(pred) == before);
            }
            j = j + 1;
        }
        proof {
            assert(ts.take(n as int) =~= ts);
            assert(t.report_lines(range_start, range_end, now) == ts.filter(pred).map_values(f));
        }
        let order = stable_desc_order(&keys);
        let mut out: Vec<ReportEntry> = Vec::new();
        let m = order.len();
        let mut k: usize = 0;
        proof {
            assert(m == lines@.map_values(|y: ReportEntry| y@).len());
        }
        while k < m
            invariant
                m == order@.len(),
                m == lines@.len(),
                k <= m,
                forall|a: int| 0 <= a < m ==> order@[a] < m,
                out@.len() == k,
                forall|a: int| 0 <= a < k ==> #[trigger] out@[a]@ == lines@[order@[a] as int]@,
            decreases m - k,
        {
            let x = lines[order[k]].clone();
            out.push(x);
            k = k + 1;
        }
        proof {
            let l = t.report_lines(range_start, range_end, now);
            let v = out@.map_values(|x: ReportEntry| x@);
            assert forall|a: int| 0 <= a < v.len() implies #[trigger] v[a] == l[order@[a] as int] by {
                assert(out@[a]@ == lines@[order@[a] as int]@);
                assert(lines@.map_values(|y: ReportEntry| y@)[order@[a] as int] == lines@[order@[a] as int]@);
            }
            assert(is_stable_desc_order(entry_keys(l), order@));
            assert forall|a: int| 0 <= a < ts.len() implies !report_fails(#[trigger] t.report_state(ts[a].id, range_start, range_end, now)) by {
                assert(!report_fails(t.report_state(ts[a].id, range_start, range_end, now)));
            }
        }
        Ok(out)
    }
    /// Adds a task named `name`, created now.
    pub fn create_task(&mut self, name: &str, description: Option<&str>) -> (r: DbResult<Task>)
        requires
            old(self).wf(),
        ensures
            final(self).wf(),
            r == Err::<Task, DbError>(DbError::Clock) && final(self)@ == old(self)@
                || exists|now: i64| 0 <= now < crate::clock::MAX_TIMESTAMP && (final(self)@, task_result(r)) == #[trigger] old(self)@.create_task(
                    name@,
                    description.deep_view(),
                    now,
                ),
    {
        match clock::now() {
            Some(now) => self.create_task_at(name, description, now),
            None => Err(DbError::Clock),
        }
    }

    /// Archives or restores the task `id`; archiving stops its running timers now.
    pub fn set_archived(&mut self, id: i64, archived: bool) -> (r: DbResult<()>)
        requires
            old(self).wf(),
        ensures
            final(self).wf(),
            r == Err::<(), DbError>(DbError::Clock) && final(self)@ == old(self)@
                || exists|now: i64| 0 <= now < crate::clock::MAX_TIMESTAMP && (final(self)@, r) == #[trigger] old(self)@.set_archived(id, archived, now),
    {
        match clock::now() {
            Some(now) => self.set_archived_at(id, archived, now),
            None => Err(DbError::Clock),
        }
    }

    /// The task list, running sessions counted up to now.
    pub fn list_tasks(&self, include_archived: bool) -> (r: DbResult<Vec<TaskWithStats>>)
        requires
            self.wf(),
        ensures
            r is Err && r->Err_0 == DbError::Clock
                || exists|now: i64| 0 <= now < crate::clock::MAX_TIMESTAMP && #[trigger] list_tasks_post(self@, include_archived, now, r),
    {
        match clock::now() {
            Some(now) => {
                let r = self.list_tasks_at(include_archived, now);
                assert(list_tasks_post(self@, include_archived, now, r));
                r
            },
            None => Err(DbError::Clock),
        }
    }

    /// The detail of the task `id`, running sessions counted up to now.
    pub fn get_task_detail(&self, id: i64) -> (r: DbResult<TaskDetail>)
        requires
            self.wf(),
        ensures
            r is Err && r->Err_0 == DbError::Clock
                || exists|now: i64| 0 <= now < crate::clock::MAX_TIMESTAMP && #[trigger] task_detail_post(self@, id, now, r),
    {
        match clock::now() {
            Some(now) => {
                let r = self.get_task_detail_at(id, now);
                assert(task_detail_post(self@, id, now, r));
                r
            },
            None => Err(DbError::Clock),
        }
    }

    /// Starts a timer for a task. Stops any other active timer first.
    pub fn start_timer(&mut self, task_id: i64) -> (r: DbResult<Session>)
        requires
            old(self).wf(),
        ensures
            final(self).wf(),
            r == Err::<Session, DbError>(DbError::Clock) && final(self)@ == old(self)@
                || exists|now: i64| 0 <= now < crate::clock::MAX_TIMESTAMP && (final(self)@, r) == #[trigger] old(self)@.start_timer(task_id, now),
    {
        match clock::now() {
            Some(now) => self.start_timer_at(task_id, now),
            None => Err(DbError::Clock),
        }
    }

    /// Stops, now, the running timer that started last.
    pub fn stop_active_timer(&mut self) -> (r: DbResult<Option<Session>>)
        requires
            old(self).wf(),
        ensures
            final(self).wf(),
            r == Err::<Option<Session>, DbError>(DbError::Clock) && final(self)@ == old(self)@
                || exists|now: i64| 0 <= now < crate::clock::MAX_TIMESTAMP && final(self)@ == (#[trigger] old(self)@.stop_active_timer(now)).0
                && r == Ok::<Option<Session>, DbError>(old(self)@.stop_active_timer(now).1),
    {
        match clock::now() {
            Some(now) => self.stop_active_timer_at(now),
            None => Err(DbError::Clock),
        }
    }

    /// The time spent on each task within `[range_start, range_end)`,
    /// running sessions counted up to now.
    pub fn report(&self, range_start: i64, range_end: i64) -> (r: DbResult<Vec<ReportEntry>>)
        requires
            self.wf(),
        ensures
            r is Err && r->Err_0 == DbError::Clock
                || exists|now: i64| 0 <= now < crate::clock::MAX_TIMESTAMP && #[trigger] report_post(self@, range_start, range_end, now, r),
    {
        match clock::now() {
            Some(now) => {
                let r = self.report_at(range_start, range_end, now);
                assert(report_post(self@, range_start, range_end, now, r));
                r
            },
            None => Err(DbError::Clock),
        }
    }

    /// The tasks, in storage order.
    pub fn tasks(&self) -> (r: &Vec<Task>)
        ensures
            r@.map_values(|t: Task| t@) == self@.tasks,
    {
        &self.tasks
    }

    /// The sessions, in storage order.
    pub fn sessions(&self) -> (r: &Vec<Session>)
        ensures
            r@ == self@.sessions,
    {
        &self.sessions
    }

    /// The largest task id handed out so far.
    pub fn last_task_id(&self) -> (r: i64)
        ensures
            r == self@.last_task_id,
    {
        self.last_task_id
    }

    /// The largest session id handed out so far.
    pub fn last_session_id(&self) -> (r: i64)
        ensures
            r == self@.last_session_id,
    {
        self.last_session_id
    }

    /// A store holding the rows as stored: tables in id order, with the
    /// sequence values of the two tables (zero when none is stored). The
    /// last id handed out is the larger of the sequence value and the
    /// largest id present, as for SQLite's `AUTOINCREMENT`.
    pub fn load(tasks: Vec<Task>, sessions: Vec<Session>, task_seq: i64, session_seq: i64) -> (r: Option<Db>)
        ensures
            match r {
                Some(db) => db.wf() && db@ == rows_view(tasks@, sessions@, stored_last_task_id(tasks@, task_seq),
                    stored_last_session_id(sessions@, session_seq)),
                None => !rows_view(tasks@, sessions@, stored_last_task_id(tasks@, task_seq),
                    stored_last_session_id(sessions@, session_seq)).wf(),
            },
    {
        let last_task_id = if tasks.len() > 0 && tasks[tasks.len() - 1].id > task_seq {
            tasks[tasks.len() - 1].id
        } else {
            task_seq
        };
        let last_session_id = if sessions.len() > 0 && sessions[sessions.len() - 1].id > session_seq {
            sessions[sessions.len() - 1].id
        } else {
            session_seq
        };
        Db::from_rows(tasks, sessions, last_task_id, last_session_id)
    }

    /// A store holding the given rows, if they form well-formed tables: ids
    /// increasing and at most the last ids handed out, and every session's
    /// task present.
    pub fn from_rows(tasks: Vec<Task>, sessions: Vec<Session>, last_task_id: i64, last_session_id: i64) -> (r: Option<Db>)
        ensures
            match r {
                Some(db) => db.wf() && db@ == rows_view(tasks@, sessions@, last_task_id, last_session_id),
                None => !rows_view(tasks@, sessions@, last_task_id, last_session_id).wf(),
            },
    {
        let ghost t = rows_view(tasks@, sessions@, last_task_id, last_session_id);
        let n = tasks.len();
        let mut j: usize = 0;
        while j < n
            invariant
                n == t.tasks.len(),
                t == rows_view(tasks@, sessions@, last_task_id, last_session_id),
                j <= n,
                forall|a: int, b: int| 0 <= a < b < j ==> t.tasks[a].id < t.tasks[b].id,
                forall|a: int| 0 <= a < j ==> t.tasks[a].id <= last_task_id,
            decreases n - j,
        {
            assert(t.tasks[j as int] == tasks@[j as int]@);
            if tasks[j].id > last_task_id {
                return None;
            }
            if j > 0 {
                assert(t.tasks[j - 1] == tasks@[j - 1]@);
                if tasks[j - 1].id >= tasks[j].id {
                    return None;
                }
            }
            j = j + 1;
        }
        let m = sessions.len();
        let mut k: usize = 0;
        while k < m
            invariant
                n == t.tasks.len(),
                m == t.sessions.len(),
                t == rows_view(tasks@, sessions@, last_task_id, last_session_id),
                k <= m,
                forall|a: int, b: int| 0 <= a < b < k ==> t.sessions[a].id < t.sessions[b].id,
                forall|a: int| 0 <= a < k ==> t.sessions[a].id <= last_session_id,
                forall|a: int| 0 <= a < k ==> t.has_task(#[trigger] t.sessions[a].task_id),
            decreases m - k,
        {
            let x = sessions[k];
            assert(t.sessions[k as int] == x);
            if x.id > last_session_id {
                return None;
            }
            if k > 0 && sessions[k - 1].id >= x.id {
                return None;
            }
            let mut p: usize = 0;
            while p < n && tasks[p].id != x.task_id
                invariant
                    n == t.tasks.len(),
                    t == rows_view(tasks@, sessions@, last_task_id, last_session_id),
                    p <= n,
                    forall|q: int| 0 <= q < p ==> t.tasks[q].id != x.task_id,
                decreases n - p,
            {
                assert(t.tasks[p as int] == tasks@[p as int]@);
                p = p + 1;
            }
            if p == n {
                assert(!t.has_task(t.sessions[k as int].task_id));
                return None;
            }
            assert(t.tasks[p as int] == tasks@[p as int]@);
            k = k + 1;
        }
        let db = Db { tasks, sessions, last_task_id, last_session_id };
        assert(db@ == t);
        Some(db)
    }
}

/// The first running session after adding one at the end.
proof fn lemma_first_active_push(s: Seq<Session>, x: Session)
    ensures
        first_active(s.push(x)) == match first_active(s) {
            Some(a) => Some(a),
            None => if is_active(x) { Some(x) } else { None },
        },
    decreases s.len(),
{
    if s.len() == 0 {
        let t = s.push(x);
        assert(t[0] == x);
        assert(t.drop_first() =~= Seq::<Session>::empty());
        assert(first_active(t.drop_first()) is None);
        assert(first_active(s) is None);
        if !is_active(x) {
            assert(first_active(t) == first_active(t.drop_first()));
        }
    } else {
        let t = s.push(x);
        assert(t[0] == s[0]);
        assert(t.drop_first() =~= s.drop_first().push(x));
        lemma_first_active_push(s.drop_first(), x);
        if is_active(s[0]) {
            assert(first_active(t) == Some(s[0]));
            assert(first_active(s) == Some(s[0]));
        } else {
            assert(first_active(t) == first_active(t.drop_first()));
            assert(first_active(s) == first_active(s.drop_first()));
        }
    }
}


/// The last task id handed out, given the stored sequence value.
pub open spec fn stored_last_task_id(tasks: Seq<Task>, seq: i64) -> i64 {
    if tasks.len() > 0 && tasks.last().id > seq { tasks.last().id } else { seq }
}

/// The last session id handed out, given the stored sequence value.
pub open spec fn stored_last_session_id(sessions: Seq<Session>, seq: i64) -> i64 {
    if sessions.len() > 0 && sessions.last().id > seq { sessions.last().id } else { seq }
}

/// The tables that the given rows make up.
pub open spec fn rows_view(tasks: Seq<Task>, sessions: Seq<Session>, last_task_id: i64, last_session_id: i64) -> Tables {
    Tables { tasks: tasks.map_values(|t: Task| t@), sessions, last_task_id, last_session_id }
}

/// What a task listing at time `now` returns: the listing, or an overflow
/// exactly when a total does not fit.
pub open spec fn list_tasks_post(t: Tables, include_archived: bool, now: i64, r: DbResult<Vec<TaskWithStats>>) -> bool {
    match r {
        Ok(v) => t.listing_fits(include_archived, now)
            && t.is_listing(include_archived, now, v@.map_values(|x: TaskWithStats| x@)),
        Err(e) => e == DbError::Overflow && !t.listing_fits(include_archived, now),
    }
}

/// What the detail of a task at time `now` returns.
pub open spec fn task_detail_post(t: Tables, id: i64, now: i64, r: DbResult<TaskDetail>) -> bool {
    match r {
        Ok(d) => t.is_detail(id, now, d@),
        Err(DbError::NotFound) => !t.has_task(id),
        Err(DbError::Overflow) => t.has_task(id) && t.total_seconds(id, now) is None,
        Err(DbError::Full) => false,
        Err(DbError::Clock) => false,
    }
}

/// What a report at time `now` returns: the report, or an overflow exactly
/// when a task's time in the range does not fit.
pub open spec fn report_post(t: Tables, range_start: i64, range_end: i64, now: i64, r: DbResult<Vec<ReportEntry>>) -> bool {
    match r {
        Ok(v) => t.report_fits(range_start, range_end, now)
            && t.is_report(range_start, range_end, now, v@.map_values(|x: ReportEntry| x@)),
        Err(e) => e == DbError::Overflow && !t.report_fits(range_start, range_end, now),
    }
}

/// The value of the running timer with its task.
pub open spec fn active_result(r: Option<(Task, Session)>) -> Option<(TaskView, Session)> {
    match r {
        Some((t, s)) => Some((t@, s)),
        None => None,
    }
}

/// Filtering a sequence filters its first `j` elements and the rest, one after the other.
proof fn lemma_filter_prefix<A>(s: Seq<A>, j: int, pred: spec_fn(A) -> bool)
    requires
        0 <= j <= s.len(),
    ensures
        s.filter(pred) == s.take(j).filter(pred) + s.skip(j).filter(pred),
{
    assert(s =~= s.take(j) + s.skip(j));
    Seq::filter_distributes_over_add(s.take(j), s.skip(j), pred);
}

/// At most one position holds the running session that started last.
proof fn lemma_latest_unique(s: Seq<Session>, i: int)
    requires
        is_latest_active(s, i),
    ensures
        forall|k: int| #[trigger] is_latest_active(s, k) ==> k == i,
        (choose|k: int| is_latest_active(s, k)) == i,
{
    assert forall|k: int| #[trigger] is_latest_active(s, k) implies k == i by {
        if k < i {
            assert(s[k].start_time < s[i].start_time);
        } else if i < k {
            assert(s[i].start_time < s[k].start_time);
        }
    }
}

} // verus!
