use timers::models::{ActiveTimerInfo, Session, Task, TaskWithStats};
use timers::tray::{menu_entries, quick_start_items, quit_shortcut, quit_shortcut_at, status_label, status_label_at,
    status_label_checked, tray_action, tray_text, tray_text_at, tray_text_checked, MenuEntry, QuitShortcut, TrayAction};

fn info(name: &str, start: i64) -> ActiveTimerInfo {
    ActiveTimerInfo {
        task: Task { id: 3, name: name.to_string(), description: None, created_at: 0, archived: false },
        session: Session { id: 9, task_id: 3, start_time: start, end_time: None },
    }
}

fn stats(id: i64, name: &str) -> TaskWithStats {
    TaskWithStats {
        task: Task { id, name: name.to_string(), description: None, created_at: 0, archived: false },
        total_seconds: 0,
        active_session: None,
    }
}

#[test]
fn tray_actions() {
    assert_eq!(tray_action("stop_timer"), TrayAction::StopTimer);
    assert_eq!(tray_action("show_window"), TrayAction::ShowWindow);
    assert_eq!(tray_action("quit_app"), TrayAction::Quit);
    assert_eq!(tray_action("start_17"), TrayAction::StartTimer(17));
    assert_eq!(tray_action("start_-3"), TrayAction::StartTimer(-3));
    assert_eq!(tray_action("start_x"), TrayAction::Ignore);
    assert_eq!(tray_action("start_"), TrayAction::Ignore);
    assert_eq!(tray_action("status"), TrayAction::Ignore);
    assert_eq!(tray_action(""), TrayAction::Ignore);
}

#[test]
fn quick_start_skips_running_and_takes_five() {
    let tasks: Vec<TaskWithStats> = (1..=7).map(|i| stats(i, &format!("task {}", i))).collect();
    let items = quick_start_items(&tasks, Some(2));
    let ids: Vec<&str> = items.iter().map(|x| x.id.as_str()).collect();
    assert_eq!(ids, vec!["start_1", "start_3", "start_4", "start_5"]);
    assert_eq!(items[0].label, "Start: task 1");
    let items = quick_start_items(&tasks, None);
    assert_eq!(items.len(), 5);
    let long = vec![stats(8, &"n".repeat(45))];
    let items = quick_start_items(&long, Some(1));
    assert_eq!(items[0].label, format!("Start: {}\u{2026}", "n".repeat(39)));
    assert!(quick_start_items(&Vec::new(), None).is_empty());
}

#[test]
fn tray_text_running_and_idle() {
    let i = info("Deep work", 1000);
    let t = tray_text_at(Some(&i), 1000 + 3725);
    assert_eq!(t.title.as_deref(), Some(" 1:02:05"));
    assert_eq!(t.tooltip, "Deep work \u{2014} 1:02:05");
    assert_eq!(t.status, "Running: Deep work \u{2014} 1:02:05");
    assert_eq!(status_label_at(&i, 1065), "Running: Deep work \u{2014} 1:05");
    let idle = tray_text_at(None, 5);
    assert_eq!(idle.title, None);
    assert_eq!(idle.tooltip, "No active timer");
    assert_eq!(idle.status, "No active timer");
}

#[test]
fn tray_text_with_clock() {
    let i = info("x", 0);
    let t = tray_text(Some(&i)).unwrap();
    assert!(t.title.unwrap().contains(':'));
    assert!(status_label(&i).unwrap().starts_with("Running: x \u{2014} "));
    assert_eq!(tray_text(None).unwrap().tooltip, "No active timer");
    // a start so far back that the elapsed time does not fit in 64 bits
    let ancient = info("y", i64::MIN);
    assert!(tray_text(Some(&ancient)).is_none());
    assert!(status_label(&ancient).is_none());
    // before the epoch, but the elapsed time fits
    let old = info("z", -1_000);
    assert!(tray_text(Some(&old)).unwrap().tooltip.starts_with("z \u{2014} "));
}

#[test]
fn quit_shortcut_hold_to_quit() {
    assert_eq!(quit_shortcut_at(0, 5000), (QuitShortcut::HideWindow, 5000));
    assert_eq!(quit_shortcut_at(5000, 6999), (QuitShortcut::Quit, 0));
    assert_eq!(quit_shortcut_at(5000, 7000), (QuitShortcut::HideWindow, 7000));
    let (a, t) = quit_shortcut(0).unwrap();
    assert_eq!(a, QuitShortcut::HideWindow);
    assert!(t > 1_600_000_000_000);
    assert_eq!(quit_shortcut(t).unwrap().0, QuitShortcut::Quit);
}

fn describe(entries: &[MenuEntry]) -> Vec<String> {
    entries
        .iter()
        .map(|e| match e {
            MenuEntry::Item { id, label, enabled } => format!("{}|{}|{}", id, label, enabled),
            MenuEntry::Separator => "-".to_string(),
        })
        .collect()
}

#[test]
fn menu_while_a_timer_runs() {
    let tasks = vec![stats(1, "Alpha"), stats(3, "Running"), stats(4, "Beta")];
    let quick = quick_start_items(&tasks, Some(3));
    let entries = menu_entries("Running: Running \u{2014} 0:05", true, &quick);
    assert_eq!(
        describe(&entries),
        vec![
            "show_window|Show window|true",
            "-",
            "status|Running: Running \u{2014} 0:05|false",
            "stop_timer|Pause timer|true",
            "-",
            "start_1|Start: Alpha|true",
            "start_4|Start: Beta|true",
            "-",
            "quit_app|Quit|true",
        ]
    );
}

#[test]
fn menu_while_idle_without_tasks() {
    let entries = menu_entries("No active timer", false, &Vec::new());
    assert_eq!(
        describe(&entries),
        vec!["show_window|Show window|true", "-", "status|No active timer|false", "-", "quit_app|Quit|true"]
    );
}

#[test]
fn checked_tray_text_at_given_times() {
    let i = info("Deep work", 1000);
    assert_eq!(status_label_checked(&i, 4725).unwrap(), "Running: Deep work \u{2014} 1:02:05");
    let t = tray_text_checked(Some(&i), 4725).unwrap();
    assert_eq!(t.title.as_deref(), Some(" 1:02:05"));
    assert_eq!(t.tooltip, "Deep work \u{2014} 1:02:05");
    // a timer started before 1970 is shown
    let old = info("Old", -3600);
    assert_eq!(tray_text_checked(Some(&old), 0).unwrap().title.as_deref(), Some(" 1:00:00"));
    // the elapsed time does not fit in 64 bits
    let ancient = info("y", i64::MIN);
    assert!(status_label_checked(&ancient, 1).is_none());
    assert!(tray_text_checked(Some(&ancient), 1).is_none());
    assert_eq!(status_label_checked(&ancient, -1).unwrap(), "Running: y \u{2014} 2562047788015215:30:07");
    // no timer: the idle text at any time
    let idle = tray_text_checked(None, i64::MIN).unwrap();
    assert_eq!(idle.title, None);
    assert_eq!(idle.status, "No active timer");
}

#[test]
fn quit_shortcut_at_any_times() {
    // the clock went back: the previous press counts as recent
    assert_eq!(quit_shortcut_at(5000, 1000), (QuitShortcut::Quit, 0));
    // a gap beyond 64 bits is computed exactly
    assert_eq!(quit_shortcut_at(i64::MAX, i64::MIN), (QuitShortcut::Quit, 0));
    assert_eq!(quit_shortcut_at(1, i64::MAX), (QuitShortcut::HideWindow, i64::MAX));
    assert_eq!(quit_shortcut_at(-5, 0), (QuitShortcut::HideWindow, 0));
}
