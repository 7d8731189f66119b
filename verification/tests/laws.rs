//! The laws of the tracker on concrete values.
use timers::db::{Db, DbError};

#[test]
fn one_timer_runs_at_a_time() {
    let mut db = Db::new();
    let ids: Vec<i64> = (0..4).map(|i| db.create_task_at(&format!("t{}", i), None, 0).unwrap().id).collect();
    for (k, id) in ids.iter().enumerate() {
        db.start_timer_at(*id, 10 * k as i64).unwrap();
        let running = db.sessions().iter().filter(|s| s.end_time.is_none()).count();
        assert_eq!(running, 1);
    }
    db.set_archived_at(ids[3], true, 100).unwrap();
    assert_eq!(db.sessions().iter().filter(|s| s.end_time.is_none()).count(), 0);
}

#[test]
fn started_timer_is_the_running_one_and_stop_ends_it() {
    let mut db = Db::new();
    let a = db.create_task_at("a", None, 0).unwrap();
    let s = db.start_timer_at(a.id, 40).unwrap();
    let (t, running) = db.get_active_session().unwrap().unwrap();
    assert_eq!(t.id, a.id);
    assert_eq!(running, s);
    let stopped = db.stop_active_timer_at(95).unwrap().unwrap();
    assert_eq!(stopped.id, s.id);
    assert_eq!(stopped.end_time, Some(95));
    assert!(db.get_active_session().unwrap().is_none());
}

#[test]
fn a_timer_adds_its_duration() {
    let mut db = Db::new();
    let a = db.create_task_at("a", None, 0).unwrap();
    db.start_timer_at(a.id, 0).unwrap();
    db.stop_active_timer_at(30).unwrap();
    let before = db.get_task_detail_at(a.id, 1000).unwrap().total_seconds;
    db.start_timer_at(a.id, 500).unwrap();
    db.stop_active_timer_at(620).unwrap();
    let after = db.get_task_detail_at(a.id, 1000).unwrap().total_seconds;
    assert_eq!(after, before + 120);
}

#[test]
fn created_and_updated_tasks_read_back() {
    let mut db = Db::new();
    let t = db.create_task_at("n", Some("d"), 77).unwrap();
    let d = db.get_task_detail_at(t.id, 500).unwrap();
    assert_eq!(d.task.name, "n");
    assert_eq!(d.task.created_at, 77);
    assert_eq!(d.total_seconds, 0);
    db.update_task(t.id, "m", None).unwrap();
    let d = db.get_task_detail_at(t.id, 500).unwrap();
    assert_eq!(d.task.name, "m");
    assert_eq!(d.task.description, None);
    assert_eq!(d.task.created_at, 77);
}

#[test]
fn deleted_task_leaves_no_sessions() {
    let mut db = Db::new();
    let t = db.create_task_at("n", None, 0).unwrap();
    db.start_timer_at(t.id, 1).unwrap();
    db.delete_task(t.id).unwrap();
    assert!(db.sessions().iter().all(|s| s.task_id != t.id));
    assert!(db.report_at(0, 100, 50).unwrap().is_empty());
}

#[test]
fn refused_requests_change_nothing() {
    let mut db = Db::new();
    let t = db.create_task_at("n", None, 0).unwrap();
    db.start_timer_at(t.id, 1).unwrap();
    let before = (db.tasks().len(), db.sessions().to_vec(), db.last_task_id(), db.last_session_id());
    assert_eq!(db.update_task(99, "x", None).unwrap_err(), DbError::NotFound);
    assert_eq!(db.set_archived_at(99, true, 5).unwrap_err(), DbError::NotFound);
    assert_eq!(db.delete_task(99).unwrap_err(), DbError::NotFound);
    assert_eq!(db.start_timer_at(99, 5).unwrap_err(), DbError::NotFound);
    let after = (db.tasks().len(), db.sessions().to_vec(), db.last_task_id(), db.last_session_id());
    assert_eq!(before, after);
}

#[test]
fn totals_grow_with_the_clock() {
    let mut db = Db::new();
    let a = db.create_task_at("a", None, 0).unwrap();
    db.start_timer_at(a.id, 100).unwrap();
    let at = |now: i64| db.get_task_detail_at(a.id, now).unwrap().total_seconds;
    assert_eq!(at(150), 50);
    assert_eq!(at(400), 300);
}

#[test]
fn wider_and_covering_ranges() {
    let mut db = Db::new();
    let a = db.create_task_at("a", None, 0).unwrap();
    db.start_timer_at(a.id, 100).unwrap();
    db.stop_active_timer_at(400).unwrap();
    let narrow = db.report_at(150, 200, 500).unwrap()[0].total_seconds;
    let wide = db.report_at(120, 300, 500).unwrap()[0].total_seconds;
    assert!(narrow <= wide);
    let all = db.report_at(0, 1000, 500).unwrap();
    let listed = db.list_tasks_at(true, 500).unwrap();
    assert_eq!(all[0].total_seconds, listed[0].total_seconds);
}

#[test]
fn open_listing_is_the_unarchived_part_of_the_full_one() {
    let mut db = Db::new();
    for (i, at) in [30, 10, 20, 10].iter().enumerate() {
        db.create_task_at(&format!("t{}", i), None, *at).unwrap();
    }
    db.set_archived_at(2, true, 0).unwrap();
    let open: Vec<i64> = db.list_tasks_at(false, 0).unwrap().iter().map(|x| x.task.id).collect();
    let all: Vec<i64> = db.list_tasks_at(true, 0).unwrap().iter().filter(|x| !x.task.archived).map(|x| x.task.id).collect();
    assert_eq!(open, all);
}
