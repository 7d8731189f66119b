use timers::db::{Db, DbError};
use timers::models::{Session, Task};

fn task_named(db: &mut Db, name: &str, at: i64) -> Task {
    db.create_task_at(name, None, at).unwrap()
}

#[test]
fn create_task_assigns_increasing_ids_and_fields() {
    let mut db = Db::new();
    let a = db.create_task_at("Write", Some("docs"), 100).unwrap();
    let b = db.create_task_at("Read", None, 200).unwrap();
    assert_eq!(a.id, 1);
    assert_eq!(b.id, 2);
    assert_eq!(a.name, "Write");
    assert_eq!(a.description.as_deref(), Some("docs"));
    assert_eq!(a.created_at, 100);
    assert!(!a.archived);
    assert_eq!(db.tasks().len(), 2);
    assert_eq!(db.last_task_id(), 2);
}

#[test]
fn create_task_uses_the_clock() {
    let mut db = Db::new();
    let t = db.create_task("Clocked", None).unwrap();
    // a wall-clock reading in seconds, not a constant or a default
    assert!(t.created_at > 1_600_000_000);
    assert!(t.created_at < 100_000_000_000);
}

#[test]
fn ids_are_not_reused_after_delete() {
    let mut db = Db::new();
    let a = task_named(&mut db, "a", 1);
    db.delete_task(a.id).unwrap();
    let b = task_named(&mut db, "b", 2);
    assert_eq!(b.id, 2);
}

#[test]
fn create_task_refused_when_ids_exhausted() {
    let db = Db::from_rows(Vec::new(), Vec::new(), i64::MAX, 0);
    let mut db = db.unwrap();
    assert_eq!(db.create_task_at("x", None, 1).unwrap_err(), DbError::Full);
    assert!(db.tasks().is_empty());
}

#[test]
fn update_task_changes_name_and_description_only() {
    let mut db = Db::new();
    let t = db.create_task_at("Old", Some("d"), 50).unwrap();
    db.set_archived_at(t.id, true, 60).unwrap();
    let u = db.update_task(t.id, "New", None).unwrap();
    assert_eq!(u.id, t.id);
    assert_eq!(u.name, "New");
    assert_eq!(u.description, None);
    assert_eq!(u.created_at, 50);
    assert!(u.archived);
    assert_eq!(db.tasks()[0].name, "New");
}

#[test]
fn update_missing_task_is_not_found() {
    let mut db = Db::new();
    assert_eq!(db.update_task(7, "x", None).unwrap_err(), DbError::NotFound);
}

#[test]
fn set_archived_stops_the_tasks_timer() {
    let mut db = Db::new();
    let t = task_named(&mut db, "t", 0);
    db.start_timer_at(t.id, 10).unwrap();
    db.set_archived_at(t.id, true, 25).unwrap();
    assert_eq!(db.sessions()[0].end_time, Some(25));
    assert!(db.tasks()[0].archived);
    assert!(db.get_active_session().unwrap().is_none());
    db.set_archived_at(t.id, false, 30).unwrap();
    assert!(!db.tasks()[0].archived);
    assert_eq!(db.sessions()[0].end_time, Some(25));
}

#[test]
fn set_archived_missing_task_is_not_found() {
    let mut db = Db::new();
    assert_eq!(db.set_archived_at(3, true, 1).unwrap_err(), DbError::NotFound);
}

#[test]
fn delete_task_removes_its_sessions_only() {
    let mut db = Db::new();
    let a = task_named(&mut db, "a", 0);
    let b = task_named(&mut db, "b", 0);
    db.start_timer_at(a.id, 1).unwrap();
    db.start_timer_at(b.id, 5).unwrap();
    db.start_timer_at(a.id, 9).unwrap();
    db.delete_task(a.id).unwrap();
    assert_eq!(db.tasks().len(), 1);
    assert_eq!(db.sessions().len(), 1);
    assert_eq!(db.sessions()[0].task_id, b.id);
    assert_eq!(db.get_task_detail_at(a.id, 20).unwrap_err(), DbError::NotFound);
    assert_eq!(db.delete_task(a.id).unwrap_err(), DbError::NotFound);
}

#[test]
fn start_timer_stops_other_timers() {
    let mut db = Db::new();
    let a = task_named(&mut db, "a", 0);
    let b = task_named(&mut db, "b", 0);
    let s1 = db.start_timer_at(a.id, 100).unwrap();
    assert_eq!(s1, Session { id: 1, task_id: a.id, start_time: 100, end_time: None });
    let s2 = db.start_timer_at(b.id, 160).unwrap();
    assert_eq!(s2.id, 2);
    assert_eq!(db.sessions()[0].end_time, Some(160));
    let (task, running) = db.get_active_session().unwrap().unwrap();
    assert_eq!(task.id, b.id);
    assert_eq!(running, s2);
}

#[test]
fn start_timer_returns_the_running_one() {
    let mut db = Db::new();
    let a = task_named(&mut db, "a", 0);
    let s1 = db.start_timer_at(a.id, 100).unwrap();
    let again = db.start_timer_at(a.id, 500).unwrap();
    assert_eq!(again, s1);
    assert_eq!(db.sessions().len(), 1);
}

#[test]
fn start_timer_for_missing_task_is_not_found() {
    let mut db = Db::new();
    assert_eq!(db.start_timer_at(1, 1).unwrap_err(), DbError::NotFound);
    assert!(db.sessions().is_empty());
}

#[test]
fn start_timer_refused_when_session_ids_exhausted() {
    let tasks = vec![Task { id: 1, name: "t".to_string(), description: None, created_at: 0, archived: false }];
    let sessions = vec![Session { id: 5, task_id: 1, start_time: 0, end_time: None }];
    let mut db = Db::from_rows(tasks, sessions, 1, i64::MAX).unwrap();
    // the running one is returned without needing a new id
    assert_eq!(db.start_timer_at(1, 10).unwrap().id, 5);
    db.stop_active_timer_at(20).unwrap();
    assert_eq!(db.start_timer_at(1, 30).unwrap_err(), DbError::Full);
    assert_eq!(db.sessions()[0].end_time, Some(20));
}

#[test]
fn stop_active_timer_closes_latest() {
    let mut db = Db::new();
    let a = task_named(&mut db, "a", 0);
    assert_eq!(db.stop_active_timer_at(5).unwrap(), None);
    db.start_timer_at(a.id, 10).unwrap();
    let stopped = db.stop_active_timer_at(70).unwrap().unwrap();
    assert_eq!(stopped.end_time, Some(70));
    assert_eq!(stopped.start_time, 10);
    assert!(db.get_active_session().unwrap().is_none());
}

#[test]
fn stop_picks_the_latest_started_of_several() {
    let tasks = vec![
        Task { id: 1, name: "a".to_string(), description: None, created_at: 0, archived: false },
        Task { id: 2, name: "b".to_string(), description: None, created_at: 0, archived: false },
    ];
    let sessions = vec![
        Session { id: 1, task_id: 1, start_time: 50, end_time: None },
        Session { id: 2, task_id: 2, start_time: 40, end_time: None },
    ];
    let mut db = Db::from_rows(tasks, sessions, 2, 2).unwrap();
    let (t, s) = db.get_active_session().unwrap().unwrap();
    assert_eq!((t.id, s.id), (1, 1));
    let stopped = db.stop_active_timer_at(60).unwrap().unwrap();
    assert_eq!(stopped.id, 1);
    let (_, s) = db.get_active_session().unwrap().unwrap();
    assert_eq!(s.id, 2);
}

#[test]
fn list_tasks_orders_and_filters() {
    let mut db = Db::new();
    let a = task_named(&mut db, "old", 10);
    let b = task_named(&mut db, "new", 30);
    let c = task_named(&mut db, "mid", 20);
    db.set_archived_at(b.id, true, 40).unwrap();
    let open = db.list_tasks_at(false, 50).unwrap();
    let ids: Vec<i64> = open.iter().map(|x| x.task.id).collect();
    assert_eq!(ids, vec![c.id, a.id]);
    let all = db.list_tasks_at(true, 50).unwrap();
    let ids: Vec<i64> = all.iter().map(|x| x.task.id).collect();
    assert_eq!(ids, vec![c.id, a.id, b.id]);
}

#[test]
fn list_tasks_ties_keep_storage_order() {
    let mut db = Db::new();
    let a = task_named(&mut db, "a", 10);
    let b = task_named(&mut db, "b", 10);
    let ids: Vec<i64> = db.list_tasks_at(true, 0).unwrap().iter().map(|x| x.task.id).collect();
    assert_eq!(ids, vec![a.id, b.id]);
}

#[test]
fn list_tasks_totals_and_running_session() {
    let mut db = Db::new();
    let a = task_named(&mut db, "a", 0);
    let b = task_named(&mut db, "b", 0);
    db.start_timer_at(a.id, 100).unwrap();
    db.start_timer_at(b.id, 130).unwrap();
    db.start_timer_at(a.id, 200).unwrap();
    let list = db.list_tasks_at(false, 260).unwrap();
    let sa = list.iter().find(|x| x.task.id == a.id).unwrap();
    let sb = list.iter().find(|x| x.task.id == b.id).unwrap();
    // a: 100..130 closed (30) + 200..now(260) running (60)
    assert_eq!(sa.total_seconds, 90);
    assert_eq!(sa.active_session.unwrap().start_time, 200);
    // b: 130..200
    assert_eq!(sb.total_seconds, 70);
    assert!(sb.active_session.is_none());
}

#[test]
fn list_tasks_overflow_is_reported() {
    let tasks = vec![Task { id: 1, name: "t".to_string(), description: None, created_at: 0, archived: false }];
    let sessions = vec![
        Session { id: 1, task_id: 1, start_time: 0, end_time: Some(i64::MAX) },
        Session { id: 2, task_id: 1, start_time: 0, end_time: Some(1) },
    ];
    let db = Db::from_rows(tasks, sessions, 1, 2).unwrap();
    assert_eq!(db.list_tasks_at(true, 0).unwrap_err(), DbError::Overflow);
    assert_eq!(db.get_task_detail_at(1, 0).unwrap_err(), DbError::Overflow);
}

#[test]
fn task_detail_sessions_newest_first() {
    let mut db = Db::new();
    let a = task_named(&mut db, "a", 0);
    let b = task_named(&mut db, "b", 0);
    db.start_timer_at(a.id, 10).unwrap();
    db.start_timer_at(b.id, 20).unwrap();
    db.start_timer_at(a.id, 30).unwrap();
    let d = db.get_task_detail_at(a.id, 45).unwrap();
    assert_eq!(d.task.id, a.id);
    let starts: Vec<i64> = d.sessions.iter().map(|s| s.start_time).collect();
    assert_eq!(starts, vec![30, 10]);
    assert_eq!(d.total_seconds, 10 + 15);
    assert_eq!(d.active_session.unwrap().start_time, 30);
}

#[test]
fn task_detail_of_task_without_sessions() {
    let mut db = Db::new();
    let a = task_named(&mut db, "a", 0);
    let d = db.get_task_detail_at(a.id, 45).unwrap();
    assert!(d.sessions.is_empty());
    assert_eq!(d.total_seconds, 0);
    assert!(d.active_session.is_none());
}

#[test]
fn report_clips_to_range_and_orders_by_total() {
    let mut db = Db::new();
    let a = task_named(&mut db, "alpha", 0);
    let b = task_named(&mut db, "beta", 0);
    let c = task_named(&mut db, "gamma", 0);
    db.start_timer_at(a.id, 0).unwrap();
    db.start_timer_at(b.id, 100).unwrap(); // a: 0..100
    db.start_timer_at(a.id, 400).unwrap(); // b: 100..400
    db.stop_active_timer_at(450).unwrap(); // a: 400..450
    db.start_timer_at(c.id, 1000).unwrap(); // c: 1000..running
    let r = db.report_at(50, 420, 2000).unwrap();
    assert_eq!(r.len(), 2);
    assert_eq!(r[0].task_id, b.id);
    assert_eq!(r[0].task_name, "beta");
    assert_eq!(r[0].total_seconds, 300);
    assert_eq!(r[1].task_id, a.id);
    assert_eq!(r[1].total_seconds, 50 + 20);
    let r = db.report_at(900, 1500, 1200).unwrap();
    assert_eq!(r.len(), 1);
    assert_eq!(r[0].task_id, c.id);
    assert_eq!(r[0].total_seconds, 200);
}

#[test]
fn report_of_empty_range_is_empty() {
    let mut db = Db::new();
    let a = task_named(&mut db, "a", 0);
    db.start_timer_at(a.id, 0).unwrap();
    db.stop_active_timer_at(100).unwrap();
    assert!(db.report_at(50, 50, 200).unwrap().is_empty());
    assert!(db.report_at(80, 20, 200).unwrap().is_empty());
    assert!(db.report_at(100, 200, 200).unwrap().is_empty());
}

#[test]
fn report_overflow_is_reported() {
    let tasks = vec![Task { id: 1, name: "t".to_string(), description: None, created_at: 0, archived: false }];
    let sessions = vec![
        Session { id: 1, task_id: 1, start_time: 0, end_time: Some(i64::MAX) },
        Session { id: 2, task_id: 1, start_time: 0, end_time: Some(10) },
    ];
    let db = Db::from_rows(tasks, sessions, 1, 2).unwrap();
    assert_eq!(db.report_at(0, i64::MAX, 0).unwrap_err(), DbError::Overflow);
}

#[test]
fn from_rows_rejects_broken_tables() {
    let t = |id: i64| Task { id, name: "t".to_string(), description: None, created_at: 0, archived: false };
    let s = |id: i64, task_id: i64| Session { id, task_id, start_time: 0, end_time: None };
    assert!(Db::from_rows(vec![t(2), t(1)], vec![], 5, 0).is_none());
    assert!(Db::from_rows(vec![t(1)], vec![], 0, 0).is_none());
    assert!(Db::from_rows(vec![t(1)], vec![s(1, 2)], 1, 1).is_none());
    assert!(Db::from_rows(vec![t(1)], vec![s(2, 1), s(1, 1)], 1, 2).is_none());
    assert!(Db::from_rows(vec![t(1)], vec![s(3, 1)], 1, 2).is_none());
    assert!(Db::from_rows(vec![t(1), t(4)], vec![s(1, 4)], 4, 1).is_some());
}

#[test]
fn error_messages() {
    assert_eq!(DbError::NotFound.message(), "not found");
    assert_eq!(DbError::Overflow.message(), "integer overflow");
    assert_eq!(DbError::Full.message(), "database or disk is full");
    assert_eq!(DbError::Clock.message(), "system clock unavailable");
}

#[test]
fn clock_operations_run() {
    let mut db = Db::new();
    let a = db.create_task("a", None).unwrap();
    let s = db.start_timer(a.id).unwrap();
    assert!(s.start_time > 1_600_000_000);
    assert!(db.list_tasks(false).unwrap()[0].total_seconds >= 0);
    assert!(db.get_task_detail(a.id).unwrap().active_session.is_some());
    let stopped = db.stop_active_timer().unwrap().unwrap();
    assert!(stopped.end_time.unwrap() >= s.start_time);
    db.set_archived(a.id, true).unwrap();
    assert!(db.report(0, i64::MAX).is_ok());
}

#[test]
fn load_takes_the_larger_of_sequence_and_ids() {
    let t = |id: i64| Task { id, name: "t".to_string(), description: None, created_at: 0, archived: false };
    let s = |id: i64| Session { id, task_id: 3, start_time: 0, end_time: Some(1) };
    let db = Db::load(vec![t(3)], vec![s(4)], 0, 9).unwrap();
    assert_eq!(db.last_task_id(), 3);
    assert_eq!(db.last_session_id(), 9);
    let mut db = Db::load(vec![t(3)], vec![], 7, 0).unwrap();
    assert_eq!(db.create_task_at("n", None, 0).unwrap().id, 8);
    assert!(Db::load(vec![t(3), t(2)], vec![], 0, 0).is_none());
}

#[test]
fn start_timer_on_running_task_stops_the_others() {
    let tasks = vec![
        Task { id: 1, name: "a".to_string(), description: None, created_at: 0, archived: false },
        Task { id: 2, name: "b".to_string(), description: None, created_at: 0, archived: false },
    ];
    let sessions = vec![
        Session { id: 1, task_id: 1, start_time: 50, end_time: None },
        Session { id: 2, task_id: 2, start_time: 40, end_time: None },
    ];
    let mut db = Db::from_rows(tasks, sessions, 2, 2).unwrap();
    let s = db.start_timer_at(2, 70).unwrap();
    assert_eq!(s.id, 2);
    assert_eq!(db.sessions()[0].end_time, Some(70));
    assert_eq!(db.sessions()[1].end_time, None);
    assert_eq!(db.sessions().len(), 2);
}

fn far_apart() -> Db {
    let tasks = vec![
        Task { id: 1, name: "far".to_string(), description: None, created_at: 0, archived: false },
        Task { id: 2, name: "near".to_string(), description: None, created_at: 0, archived: false },
    ];
    let sessions = vec![
        Session { id: 1, task_id: 1, start_time: -(1i64 << 62) - 5, end_time: Some((1i64 << 62) + 5) },
        Session { id: 2, task_id: 2, start_time: 0, end_time: Some(10) },
    ];
    Db::from_rows(tasks, sessions, 2, 2).unwrap()
}

#[test]
fn report_with_a_session_longer_than_64_bits() {
    let db = far_apart();
    // the clipped length of the long session leaves i64 and is positive: the report fails
    assert_eq!(db.report_at(i64::MIN, i64::MAX, 0).unwrap_err(), DbError::Overflow);
    // an empty range whose clipped length leaves i64 going negative drops the task
    let r = db.report_at((1i64 << 62) + 1, -(1i64 << 62), 0).unwrap();
    assert!(r.is_empty());
    // a range that keeps the long session's overlap within 64 bits
    let r = db.report_at(0, 100, 0).unwrap();
    assert_eq!(r.len(), 2);
    assert_eq!(r[0].task_id, 1);
    assert_eq!(r[0].total_seconds, 100);
    assert_eq!(r[1].total_seconds, 10);
    // the listing cannot read the long session's total
    assert_eq!(db.list_tasks_at(true, 0).unwrap_err(), DbError::Overflow);
    assert_eq!(db.get_task_detail_at(2, 0).unwrap().total_seconds, 10);
}
