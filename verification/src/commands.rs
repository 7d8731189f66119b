//! The requests that the user interface makes: each cleans up its input
//! and runs the store operation. Telling the interface about the change is
//! left to the caller.
use vstd::prelude::*;
use crate::models::{ActiveTimerInfo, ActiveTimerInfoView, Session, Task, TaskDetail, TaskWithStats, ReportEntry};
use crate::db::{Db, DbError, DbResult, task_result, list_tasks_post, task_detail_post, report_post};
use crate::text::{trim, trimmed, normalize_description, normalized_description};

verus! {

/// An optional string borrowed as text.
fn as_text(s: &Option<String>) -> (r: Option<&str>)
    ensures
        r.deep_view() == s.deep_view(),
{
    match s {
        Some(x) => Some(x.as_str()),
        None => None,
    }
}

/// Creates a task from a name and description as entered: both trimmed, an
/// empty description left out.
pub fn create_task(db: &mut Db, name: &str, description: Option<&str>) -> (r: DbResult<Task>)
    requires
        old(db).wf(),
    ensures
        final(db).wf(),
        r == Err::<Task, DbError>(DbError::Clock) && final(db)@ == old(db)@
            || exists|now: i64| 0 <= now < crate::clock::MAX_TIMESTAMP && (final(db)@, task_result(r)) == #[trigger] old(db)@.create_task(
                trimmed(name@),
                normalized_description(description.deep_view()),
                now,
            ),
{
    let d = normalize_description(description);
    db.create_task(trim(name), as_text(&d))
}

/// Renames a task and replaces its description, as entered: both trimmed,
/// an empty description left out.
pub fn update_task(db: &mut Db, id: i64, name: &str, description: Option<&str>) -> (r: DbResult<Task>)
    requires
        old(db).wf(),
    ensures
        final(db).wf(),
        (final(db)@, task_result(r)) == old(db)@.update_task(id, trimmed(name@), normalized_description(description.deep_view())),
{
    let d = normalize_description(description);
    db.update_task(id, trim(name), as_text(&d))
}

/// Archives or restores a task.
pub fn set_task_archived(db: &mut Db, id: i64, archived: bool) -> (r: DbResult<()>)
    requires
        old(db).wf(),
    ensures
        final(db).wf(),
        r == Err::<(), DbError>(DbError::Clock) && final(db)@ == old(db)@
            || exists|now: i64| 0 <= now < crate::clock::MAX_TIMESTAMP && (final(db)@, r) == #[trigger] old(db)@.set_archived(id, archived, now),
{
    db.set_archived(id, archived)
}

/// Deletes a task with its sessions.
pub fn delete_task(db: &mut Db, id: i64) -> (r: DbResult<()>)
    requires
        old(db).wf(),
    ensures
        final(db).wf(),
        (final(db)@, r) == old(db)@.delete_task(id),
{
    db.delete_task(id)
}

/// Archived tasks are listed only when asked for; not by default.
pub open spec fn wants_archived(include_archived: Option<bool>) -> bool {
    include_archived == Some(true)
}

/// The task list; archived tasks only when asked for (not by default).
pub fn list_tasks(db: &Db, include_archived: Option<bool>) -> (r: DbResult<Vec<TaskWithStats>>)
    requires
        db.wf(),
    ensures
        r is Err && r->Err_0 == DbError::Clock
            || exists|now: i64| 0 <= now < crate::clock::MAX_TIMESTAMP && #[trigger] list_tasks_post(db@, wants_archived(include_archived), now, r),
{
    let with_archived = match include_archived {
        Some(b) => b,
        None => false,
    };
    assert(with_archived == wants_archived(include_archived));
    db.list_tasks(with_archived)
}

/// The detail of a task.
pub fn get_task_detail(db: &Db, id: i64) -> (r: DbResult<TaskDetail>)
    requires
        db.wf(),
    ensures
        r is Err && r->Err_0 == DbError::Clock || exists|now: i64| 0 <= now < crate::clock::MAX_TIMESTAMP && #[trigger] task_detail_post(db@, id, now, r),
{
    db.get_task_detail(id)
}

/// Starts the timer of a task, stopping any other.
pub fn start_timer(db: &mut Db, task_id: i64) -> (r: DbResult<Session>)
    requires
        old(db).wf(),
    ensures
        final(db).wf(),
        r == Err::<Session, DbError>(DbError::Clock) && final(db)@ == old(db)@
            || exists|now: i64| 0 <= now < crate::clock::MAX_TIMESTAMP && (final(db)@, r) == #[trigger] old(db)@.start_timer(task_id, now),
{
    db.start_timer(task_id)
}

/// Stops the running timer.
pub fn stop_timer(db: &mut Db) -> (r: DbResult<Option<Session>>)
    requires
        old(db).wf(),
    ensures
        final(db).wf(),
        r == Err::<Option<Session>, DbError>(DbError::Clock) && final(db)@ == old(db)@
            || exists|now: i64| 0 <= now < crate::clock::MAX_TIMESTAMP && final(db)@ == (#[trigger] old(db)@.stop_active_timer(now)).0
            && r == Ok::<Option<Session>, DbError>(old(db)@.stop_active_timer(now).1),
{
    db.stop_active_timer()
}

/// The value of an optional running timer.
pub open spec fn timer_info_view(r: Option<ActiveTimerInfo>) -> Option<ActiveTimerInfoView> {
    match r {
        Some(i) => Some(i@),
        None => None,
    }
}

/// The running timer that started last, with its task.
pub fn get_active_timer(db: &Db) -> (r: DbResult<Option<ActiveTimerInfo>>)
    requires
        db.wf(),
    ensures
        r is Ok,
        timer_info_view(r.unwrap()) == match db@.active_session() {
            Some((t, s)) => Some(ActiveTimerInfoView { task: t, session: s }),
            None => None,
        },
{
    match db.get_active_session()? {
        Some((task, session)) => Ok(Some(ActiveTimerInfo { task, session })),
        None => Ok(None),
    }
}

/// The time spent on each task within `[range_start, range_end)`.
pub fn report(db: &Db, range_start: i64, range_end: i64) -> (r: DbResult<Vec<ReportEntry>>)
    requires
        db.wf(),
    ensures
        r is Err && r->Err_0 == DbError::Clock
            || exists|now: i64| 0 <= now < crate::clock::MAX_TIMESTAMP && #[trigger] report_post(db@, range_start, range_end, now, r),
{
    db.report(range_start, range_end)
}

} // verus!
