//! The records that the time tracker keeps and hands out: tasks, the
//! timing sessions recorded against them, and the summaries built from both.
use vstd::prelude::*;

verus! {

/// A task that time can be tracked against.
#[derive(Debug)]
pub struct Task {
    pub id: i64,
    pub name: String,
    pub description: Option<String>,
    pub created_at: i64,
    pub archived: bool,
}

/// The mathematical value of a [`Task`]: its strings taken as character sequences.
pub struct TaskView {
    pub id: i64,
    pub name: Seq<char>,
    pub description: Option<Seq<char>>,
    pub created_at: i64,
    pub archived: bool,
}

impl View for Task {
    type V = TaskView;

    open spec fn view(&self) -> TaskView {
        TaskView {
            id: self.id,
            name: self.name@,
            description: self.description.deep_view(),
            created_at: self.created_at,
            archived: self.archived,
        }
    }
}

/// A copy of an optional string with the same characters.
pub fn clone_opt_string(s: &Option<String>) -> (r: Option<String>)
    ensures
        r.deep_view() == s.deep_view(),
{
    match s {
        Some(d) => Some(d.clone()),
        None => None,
    }
}

impl Clone for Task {
    fn clone(&self) -> (r: Self)
        ensures
            r@ == self@,
    {
        Task {
            id: self.id,
            name: self.name.clone(),
            description: clone_opt_string(&self.description),
            created_at: self.created_at,
            archived: self.archived,
        }
    }
}

/// One stretch of time spent on a task; `end_time` is `None` while the
/// timer is still running.
#[derive(Debug, Clone, Copy, PartialEq, Eq)]
pub struct Session {
    pub id: i64,
    pub task_id: i64,
    pub start_time: i64,
    pub end_time: Option<i64>,
}

/// A task together with the time recorded on it and its running session.
#[derive(Debug)]
pub struct TaskWithStats {
    pub task: Task,
    pub total_seconds: i64,
    pub active_session: Option<Session>,
}

/// The mathematical value of a [`TaskWithStats`].
pub struct TaskWithStatsView {
    pub task: TaskView,
    pub total_seconds: i64,
    pub active_session: Option<Session>,
}

impl View for TaskWithStats {
    type V = TaskWithStatsView;

    open spec fn view(&self) -> TaskWithStatsView {
        TaskWithStatsView {
            task: self.task@,
            total_seconds: self.total_seconds,
            active_session: self.active_session,
        }
    }
}

impl Clone for TaskWithStats {
    fn clone(&self) -> (r: Self)
        ensures
            r@ == self@,
    {
        TaskWithStats { task: self.task.clone(), total_seconds: self.total_seconds, active_session: self.active_session }
    }
}

/// A task with every session recorded on it, newest first.
#[derive(Debug)]
pub struct TaskDetail {
    pub task: Task,
    pub sessions: Vec<Session>,
    pub total_seconds: i64,
    pub active_session: Option<Session>,
}

/// The mathematical value of a [`TaskDetail`].
pub struct TaskDetailView {
    pub task: TaskView,
    pub sessions: Seq<Session>,
    pub total_seconds: i64,
    pub active_session: Option<Session>,
}

impl View for TaskDetail {
    type V = TaskDetailView;

    open spec fn view(&self) -> TaskDetailView {
        TaskDetailView {
            task: self.task@,
            sessions: self.sessions@,
            total_seconds: self.total_seconds,
            active_session: self.active_session,
        }
    }
}

impl Clone for TaskDetail {
    fn clone(&self) -> (r: Self)
        ensures
            r@ == self@,
    {
        let mut sessions: Vec<Session> = Vec::new();
        let mut i: usize = 0;
        while i < self.sessions.len()
            invariant
                i <= self.sessions@.len(),
                sessions@ == self.sessions@.take(i as int),
            decreases self.sessions@.len() - i,
        {
            sessions.push(self.sessions[i]);
            i = i + 1;
            assert(sessions@ =~= self.sessions@.take(i as int));
        }
        assert(sessions@ =~= self.sessions@);
        TaskDetail {
            task: self.task.clone(),
            sessions,
            total_seconds: self.total_seconds,
            active_session: self.active_session,
        }
    }
}

/// The time spent on one task within a reporting range.
#[derive(Debug)]
pub struct ReportEntry {
    pub task_id: i64,
    pub task_name: String,
    pub total_seconds: i64,
}

/// The mathematical value of a [`ReportEntry`].
pub struct ReportEntryView {
    pub task_id: i64,
    pub task_name: Seq<char>,
    pub total_seconds: i64,
}

impl View for ReportEntry {
    type V = ReportEntryView;

    open spec fn view(&self) -> ReportEntryView {
        ReportEntryView {
            task_id: self.task_id,
            task_name: self.task_name@,
            total_seconds: self.total_seconds,
        }
    }
}

impl Clone for ReportEntry {
    fn clone(&self) -> (r: Self)
        ensures
            r@ == self@,
    {
        ReportEntry { task_id: self.task_id, task_name: self.task_name.clone(), total_seconds: self.total_seconds }
    }
}

/// The timer that is running, with the task it runs for.
#[derive(Debug)]
pub struct ActiveTimerInfo {
    pub task: Task,
    pub session: Session,
}

/// The mathematical value of an [`ActiveTimerInfo`].
pub struct ActiveTimerInfoView {
    pub task: TaskView,
    pub session: Session,
}

impl View for ActiveTimerInfo {
    type V = ActiveTimerInfoView;

    open spec fn view(&self) -> ActiveTimerInfoView {
        ActiveTimerInfoView { task: self.task@, session: self.session }
    }
}

impl Clone for ActiveTimerInfo {
    fn clone(&self) -> (r: Self)
        ensures
            r@ == self@,
    {
        ActiveTimerInfo { task: self.task.clone(), session: self.session }
    }
}

} // verus!
