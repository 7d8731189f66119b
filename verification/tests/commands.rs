use timers::commands::{create_task, delete_task, get_active_timer, get_task_detail, list_tasks, report, set_task_archived,
    start_timer, stop_timer, update_task};
use timers::db::{Db, DbError};

#[test]
fn create_and_update_trim_input() {
    let mut db = Db::new();
    let t = create_task(&mut db, "  Write  ", Some("   ")).unwrap();
    assert_eq!(t.name, "Write");
    assert_eq!(t.description, None);
    let u = update_task(&mut db, t.id, " Read ", Some(" a book ")).unwrap();
    assert_eq!(u.name, "Read");
    assert_eq!(u.description.as_deref(), Some("a book"));
    assert_eq!(update_task(&mut db, 99, "x", None).unwrap_err(), DbError::NotFound);
}

#[test]
fn command_flow() {
    let mut db = Db::new();
    let a = create_task(&mut db, "a", None).unwrap();
    let b = create_task(&mut db, "b", None).unwrap();
    assert!(get_active_timer(&db).unwrap().is_none());
    let s = start_timer(&mut db, a.id).unwrap();
    let info = get_active_timer(&db).unwrap().unwrap();
    assert_eq!(info.task.id, a.id);
    assert_eq!(info.session, s);
    set_task_archived(&mut db, b.id, true).unwrap();
    assert_eq!(list_tasks(&db, None).unwrap().len(), 1);
    assert_eq!(list_tasks(&db, Some(false)).unwrap().len(), 1);
    assert_eq!(list_tasks(&db, Some(true)).unwrap().len(), 2);
    assert_eq!(get_task_detail(&db, a.id).unwrap().sessions.len(), 1);
    assert!(stop_timer(&mut db).unwrap().is_some());
    assert!(stop_timer(&mut db).unwrap().is_none());
    assert!(report(&db, 0, i64::MAX).is_ok());
    delete_task(&mut db, a.id).unwrap();
    assert_eq!(delete_task(&mut db, a.id).unwrap_err(), DbError::NotFound);
    assert_eq!(get_task_detail(&db, a.id).unwrap_err(), DbError::NotFound);
}
