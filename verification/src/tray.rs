//! What the tray icon shows and does: its title, tooltip and status line,
//! the quick-start entries of its menu, the action behind each menu entry,
//! and the hold-to-quit shortcut.
use vstd::prelude::*;
use crate::models::{ActiveTimerInfo, ActiveTimerInfoView, TaskWithStats, TaskWithStatsView};
use crate::tables::fits_i64;
use crate::text::{truncate, truncated, format_elapsed, elapsed_text, int_string, int_text, parsed_i64,
    parse_i64, same_text, strip_prefix};
use crate::clock;

verus! {

/// The menu entry that stops the running timer.
pub const STOP_ID: &'static str = "stop_timer";
/// The menu entry that shows the main window.
pub const SHOW_ID: &'static str = "show_window";
/// The menu entry that quits the application.
pub const QUIT_ID: &'static str = "quit_app";
/// The menu entry that shows the status line.
pub const STATUS_ID: &'static str = "status";
/// The start of the id of a quick-start entry; the task id follows.
pub const START_PREFIX: &'static str = "start_";
/// The start of the label of a quick-start entry; the task name follows.
pub const START_LABEL: &'static str = "Start: ";
/// What the tray shows while no timer runs.
pub const NO_TIMER: &'static str = "No active timer";
/// The start of the status line while a timer runs.
pub const RUNNING: &'static str = "Running: ";
/// What separates a task name from its elapsed time.
pub const DASH: &'static str = " \u{2014} ";
/// What comes before the elapsed time in the tray title.
pub const TITLE_LEAD: &'static str = " ";
/// The longest task name the tray shows in full.
pub const NAME_WIDTH: usize = 40;
/// The number of tasks the menu offers to start.
pub const QUICK_START_COUNT: usize = 5;
/// Two presses of the quit shortcut closer than this many milliseconds quit.
pub const QUIT_HOLD_MS: i64 = 2000;

// ------------------------------------------------------------ menu actions

/// What a click on a tray menu entry asks for.
#[derive(Debug, Clone, Copy, PartialEq, Eq, Structural)]
pub enum TrayAction {
    StopTimer,
    ShowWindow,
    Quit,
    StartTimer(i64),
    Ignore,
}

/// The action behind the menu entry with this id.
pub open spec fn tray_action_of(id: Seq<char>) -> TrayAction {
    if id == STOP_ID@ {
        TrayAction::StopTimer
    } else if id == SHOW_ID@ {
        TrayAction::ShowWindow
    } else if id == QUIT_ID@ {
        TrayAction::Quit
    } else if START_PREFIX@.len() <= id.len() && id.take(START_PREFIX@.len() as int) == START_PREFIX@ {
        match parsed_i64(id.skip(START_PREFIX@.len() as int)) {
            Some(task_id) => TrayAction::StartTimer(task_id),
            None => TrayAction::Ignore,
        }
    } else {
        TrayAction::Ignore
    }
}

/// The action behind the menu entry with this id.
pub fn tray_action(id: &str) -> (r: TrayAction)
    ensures
        r == tray_action_of(id@),
{
    if same_text(id, STOP_ID) {
        TrayAction::StopTimer
    } else if same_text(id, SHOW_ID) {
        TrayAction::ShowWindow
    } else if same_text(id, QUIT_ID) {
        TrayAction::Quit
    } else {
        match strip_prefix(id, START_PREFIX) {
            Some(rest) => match parse_i64(rest) {
                Some(task_id) => TrayAction::StartTimer(task_id),
                None => TrayAction::Ignore,
            },
            None => TrayAction::Ignore,
        }
    }
}

// ------------------------------------------------------------- quick start

/// An entry of the menu that starts a task's timer.
pub struct QuickStartItem {
    pub id: String,
    pub label: String,
}

impl View for QuickStartItem {
    type V = (Seq<char>, Seq<char>);

    open spec fn view(&self) -> (Seq<char>, Seq<char>) {
        (self.id@, self.label@)
    }
}

/// The quick-start entry of a task.
pub open spec fn quick_start_entry(t: TaskWithStatsView) -> (Seq<char>, Seq<char>) {
    (START_PREFIX@ + int_text(t.task.id as int), START_LABEL@ + truncated(t.task.name, NAME_WIDTH as nat))
}

/// The quick-start entries: one for each of the first five listed tasks,
/// leaving out the task whose timer runs.
pub open spec fn quick_start_of(tasks: Seq<TaskWithStatsView>, running_task: Option<i64>) -> Seq<(Seq<char>, Seq<char>)> {
    let first = tasks.take(if tasks.len() < QUICK_START_COUNT { tasks.len() as int } else { QUICK_START_COUNT as int });
    first.filter(|t: TaskWithStatsView| running_task != Some(t.task.id)).map_values(|t: TaskWithStatsView| quick_start_entry(t))
}

/// The quick-start entries of the tray menu.
pub fn quick_start_items(tasks: &Vec<TaskWithStats>, running_task: Option<i64>) -> (r: Vec<QuickStartItem>)
    ensures
        r@.map_values(|x: QuickStartItem| x@) == quick_start_of(tasks@.map_values(|t: TaskWithStats| t@), running_task),
{
    let ghost all = tasks@.map_values(|t: TaskWithStats| t@);
    let ghost pred = |t: TaskWithStatsView| running_task != Some(t.task.id);
    let ghost f = |t: TaskWithStatsView| quick_start_entry(t);
    let n = if tasks.len() < QUICK_START_COUNT { tasks.len() } else { QUICK_START_COUNT };
    let mut out: Vec<QuickStartItem> = Vec::new();
    let mut k: usize = 0;
    proof {
        assert(all.take(0) =~= Seq::<TaskWithStatsView>::empty());
        reveal_with_fuel(Seq::filter, 1);
    }
    while k < n
        invariant
            n <= tasks@.len(),
            all == tasks@.map_values(|t: TaskWithStats| t@),
            pred == (|t: TaskWithStatsView| running_task != Some(t.task.id)),
            f == (|t: TaskWithStatsView| quick_start_entry(t)),
            k <= n,
            out@.map_values(|x: QuickStartItem| x@) == all.take(k as int).filter(pred).map_values(f),
        decreases n - k,
    {
        let t = &tasks[k];
        proof {
            assert(all.take(k + 1) =~= all.take(k as int).push(all[k as int]));
            all.take(k as int).lemma_filter_push(all[k as int], pred);
            assert(all[k as int] == t@);
        }
        let skip = match running_task {
            Some(a) => a == t.task.id,
            None => false,
        };
        if !skip {
            let mut id = String::from_str(START_PREFIX);
            let num = int_string(t.task.id);
            id.append(num.as_str());
            let mut label = String::from_str(START_LABEL);
            let name = truncate(t.task.name.as_str(), NAME_WIDTH);
            label.append(name.as_str());
            let item = QuickStartItem { id, label };
            proof {
                assert(item@ == f(all[k as int]));
            }
            let ghost before = out@.map_values(|x: QuickStartItem| x@);
            out.push(item);
            proof {
                assert(out@.map_values(|x: QuickStartItem| x@) =~= before.push(item@));
                assert(all.take(k + 1).filter(pred).map_values(f) =~= all.take(k as int).filter(pred).map_values(f).push(f(all[k as int])));
            }
        }
        k = k + 1;
    }
    proof {
        assert(all.take(n as int) == all.take(if all.len() < QUICK_START_COUNT { all.len() as int } else { QUICK_START_COUNT as int }));
    }
    out
}

// -------------------------------------------------------------- menu layout

/// The label of the entry that shows the main window.
pub const SHOW_LABEL: &'static str = "Show window";
/// The label of the entry that stops the running timer.
pub const STOP_LABEL: &'static str = "Pause timer";
/// The label of the entry that quits the application.
pub const QUIT_LABEL: &'static str = "Quit";

/// A line of the tray menu: an entry with its id, label and whether it can
/// be clicked, or a separator.
pub enum MenuEntry {
    Item { id: String, label: String, enabled: bool },
    Separator,
}

/// The value of a [`MenuEntry`].
pub enum MenuEntryView {
    Item { id: Seq<char>, label: Seq<char>, enabled: bool },
    Separator,
}

impl View for MenuEntry {
    type V = MenuEntryView;

    open spec fn view(&self) -> MenuEntryView {
        match self {
            MenuEntry::Item { id, label, enabled } => MenuEntryView::Item { id: id@, label: label@, enabled: *enabled },
            MenuEntry::Separator => MenuEntryView::Separator,
        }
    }
}

/// A clickable entry of the menu.
pub open spec fn clickable(e: (Seq<char>, Seq<char>)) -> MenuEntryView {
    MenuEntryView::Item { id: e.0, label: e.1, enabled: true }
}

/// The tray menu: the window entry, then the status line (which cannot be
/// clicked) and, while a timer runs, the entry that stops it; then the
/// quick-start entries, if there are any; then the quit entry, with a
/// separator between the groups.
pub open spec fn menu_of(status: Seq<char>, running: bool, quick: Seq<(Seq<char>, Seq<char>)>) -> Seq<MenuEntryView> {
    seq![clickable((SHOW_ID@, SHOW_LABEL@)), MenuEntryView::Separator,
        MenuEntryView::Item { id: STATUS_ID@, label: status, enabled: false }]
        + (if running { seq![clickable((STOP_ID@, STOP_LABEL@))] } else { Seq::empty() })
        + seq![MenuEntryView::Separator]
        + quick.map_values(|e: (Seq<char>, Seq<char>)| clickable(e))
        + (if quick.len() > 0 { seq![MenuEntryView::Separator] } else { Seq::empty() })
        + seq![clickable((QUIT_ID@, QUIT_LABEL@))]
}

fn item(id: &str, label: &str, enabled: bool) -> (r: MenuEntry)
    ensures
        r@ == (MenuEntryView::Item { id: id@, label: label@, enabled }),
{
    MenuEntry::Item { id: String::from_str(id), label: String::from_str(label), enabled }
}

/// The lines of the tray menu, given its status line, whether a timer runs,
/// and its quick-start entries.
pub fn menu_entries(status: &str, running: bool, quick: &Vec<QuickStartItem>) -> (r: Vec<MenuEntry>)
    ensures
        r@.map_values(|e: MenuEntry| e@) == menu_of(status@, running, quick@.map_values(|q: QuickStartItem| q@)),
{
    let ghost qv = quick@.map_values(|q: QuickStartItem| q@);
    let mut out: Vec<MenuEntry> = Vec::new();
    out.push(item(SHOW_ID, SHOW_LABEL, true));
    out.push(MenuEntry::Separator);
    out.push(item(STATUS_ID, status, false));
    if running {
        out.push(item(STOP_ID, STOP_LABEL, true));
    }
    out.push(MenuEntry::Separator);
    let ghost head = out@.map_values(|e: MenuEntry| e@);
    proof {
        assert(head =~= seq![clickable((SHOW_ID@, SHOW_LABEL@)), MenuEntryView::Separator,
            MenuEntryView::Item { id: STATUS_ID@, label: status@, enabled: false }]
            + (if running { seq![clickable((STOP_ID@, STOP_LABEL@))] } else { Seq::empty() })
            + seq![MenuEntryView::Separator]);
    }
    let mut k: usize = 0;
    while k < quick.len()
        invariant
            k <= quick@.len(),
            qv == quick@.map_values(|q: QuickStartItem| q@),
            out@.map_values(|e: MenuEntry| e@) == head + qv.take(k as int).map_values(|e: (Seq<char>, Seq<char>)| clickable(e)),
        decreases quick@.len() - k,
    {
        let ghost before = out@.map_values(|e: MenuEntry| e@);
        out.push(item(quick[k].id.as_str(), quick[k].label.as_str(), true));
        proof {
            assert(qv[k as int] == quick@[k as int]@);
            assert(qv.take(k + 1).map_values(|e: (Seq<char>, Seq<char>)| clickable(e))
                =~= qv.take(k as int).map_values(|e: (Seq<char>, Seq<char>)| clickable(e)).push(clickable(qv[k as int])));
            assert(out@.map_values(|e: MenuEntry| e@) =~= before.push(clickable(qv[k as int])));
        }
        k = k + 1;
    }
    proof {
        assert(qv.take(quick@.len() as int) =~= qv);
    }
    let ghost middle = out@.map_values(|e: MenuEntry| e@);
    if quick.len() > 0 {
        out.push(MenuEntry::Separator);
    }
    out.push(item(QUIT_ID, QUIT_LABEL, true));
    proof {
        assert(out@.map_values(|e: MenuEntry| e@) =~= middle
            + (if qv.len() > 0 { seq![MenuEntryView::Separator] } else { Seq::empty() })
            + seq![clickable((QUIT_ID@, QUIT_LABEL@))]);
    }
    out
}

// --------------------------------------------------------------- tray text

/// What the tray shows: a title next to the icon (none while no timer
/// runs), a tooltip, and the status line of its menu.
pub struct TrayText {
    pub title: Option<String>,
    pub tooltip: String,
    pub status: String,
}

/// The value of a [`TrayText`].
pub struct TrayTextView {
    pub title: Option<Seq<char>>,
    pub tooltip: Seq<char>,
    pub status: Seq<char>,
}

impl View for TrayText {
    type V = TrayTextView;

    open spec fn view(&self) -> TrayTextView {
        TrayTextView { title: self.title.deep_view(), tooltip: self.tooltip@, status: self.status@ }
    }
}

/// The status line of a running timer at time `now`: the task name
/// (shortened) and the time since the timer started.
pub open spec fn status_text(info: ActiveTimerInfoView, now: i64) -> Seq<char> {
    RUNNING@ + truncated(info.task.name, NAME_WIDTH as nat) + DASH@ + elapsed_text(now - info.session.start_time)
}

/// What the tray shows at time `now`.
pub open spec fn tray_text_of(active: Option<ActiveTimerInfoView>, now: i64) -> TrayTextView {
    match active {
        Some(info) => {
            let elapsed = elapsed_text(now - info.session.start_time);
            TrayTextView {
                title: Some(TITLE_LEAD@ + elapsed),
                tooltip: truncated(info.task.name, NAME_WIDTH as nat) + DASH@ + elapsed,
                status: status_text(info, now),
            }
        },
        None => TrayTextView { title: None, tooltip: NO_TIMER@, status: NO_TIMER@ },
    }
}

/// The value of an optional running timer.
pub open spec fn active_view(active: Option<&ActiveTimerInfo>) -> Option<ActiveTimerInfoView> {
    match active {
        Some(info) => Some(info@),
        None => None,
    }
}

/// The status line of a running timer at time `now`.
pub fn status_label_at(info: &ActiveTimerInfo, now: i64) -> (r: String)
    requires
        fits_i64(now - info.session.start_time),
    ensures
        r@ == status_text(info@, now),
{
    let mut out = String::from_str(RUNNING);
    let name = truncate(info.task.name.as_str(), NAME_WIDTH);
    out.append(name.as_str());
    out.append(DASH);
    let elapsed = format_elapsed(now - info.session.start_time);
    out.append(elapsed.as_str());
    proof {
        assert(out@ =~= status_text(info@, now));
    }
    out
}

/// The status line of a running timer at time `now`; `None` when the time
/// since the start does not fit in 64 bits.
pub fn status_label_checked(info: &ActiveTimerInfo, now: i64) -> (r: Option<String>)
    ensures
        match r {
            Some(x) => fits_i64(now - info.session.start_time) && x@ == status_text(info@, now),
            None => !fits_i64(now - info.session.start_time),
        },
{
    let elapsed: i128 = now as i128 - info.session.start_time as i128;
    if elapsed < i64::MIN as i128 || elapsed > i64::MAX as i128 {
        None
    } else {
        Some(status_label_at(info, now))
    }
}

/// The status line of a running timer, now; `None` when the clock cannot
/// be read or the time since the start does not fit in 64 bits.
pub fn status_label(info: &ActiveTimerInfo) -> (r: Option<String>)
    ensures
        match r {
            Some(x) => exists|now: i64| 0 <= now < crate::clock::MAX_TIMESTAMP && fits_i64(now - info.session.start_time)
                && x@ == #[trigger] status_text(info@, now),
            None => true,
        },
{
    match clock::now() {
        Some(now) => status_label_checked(info, now),
        None => None,
    }
}

/// What the tray shows at time `now`.
pub fn tray_text_at(active: Option<&ActiveTimerInfo>, now: i64) -> (r: TrayText)
    requires
        match active {
            Some(info) => fits_i64(now - info.session.start_time),
            None => true,
        },
    ensures
        r@ == tray_text_of(active_view(active), now),
{
    match active {
        Some(info) => {
            let elapsed = format_elapsed(now - info.session.start_time);
            let mut title = String::from_str(TITLE_LEAD);
            title.append(elapsed.as_str());
            let mut tooltip = truncate(info.task.name.as_str(), NAME_WIDTH);
            tooltip.append(DASH);
            tooltip.append(elapsed.as_str());
            let status = status_label_at(info, now);
            let r = TrayText { title: Some(title), tooltip, status };
            proof {
                assert(r@.title == tray_text_of(active_view(active), now).title);
                assert(r@.tooltip =~= tray_text_of(active_view(active), now).tooltip);
            }
            r
        },
        None => TrayText { title: None, tooltip: String::from_str(NO_TIMER), status: String::from_str(NO_TIMER) },
    }
}

/// The time since the running timer started fits in 64 bits at `now`
/// (always so while no timer runs).
pub open spec fn elapsed_fits(active: Option<ActiveTimerInfoView>, now: i64) -> bool {
    match active {
        Some(info) => fits_i64(now - info.session.start_time),
        None => true,
    }
}

/// What the tray shows at time `now`; `None` when the time since the
/// running timer started does not fit in 64 bits.
pub fn tray_text_checked(active: Option<&ActiveTimerInfo>, now: i64) -> (r: Option<TrayText>)
    ensures
        match r {
            Some(t) => elapsed_fits(active_view(active), now) && t@ == tray_text_of(active_view(active), now),
            None => !elapsed_fits(active_view(active), now),
        },
{
    match active {
        None => Some(tray_text_at(None, now)),
        Some(info) => {
            let elapsed: i128 = now as i128 - info.session.start_time as i128;
            if elapsed < i64::MIN as i128 || elapsed > i64::MAX as i128 {
                None
            } else {
                Some(tray_text_at(active, now))
            }
        },
    }
}

/// What the tray shows now (the clock is read once, and only while a timer
/// runs); `None` when the clock cannot be read or the time since the start
/// does not fit in 64 bits.
pub fn tray_text(active: Option<&ActiveTimerInfo>) -> (r: Option<TrayText>)
    ensures
        match r {
            Some(t) => exists|now: i64| 0 <= now < crate::clock::MAX_TIMESTAMP && elapsed_fits(active_view(active), now)
                && t@ == #[trigger] tray_text_of(active_view(active), now),
            None => active is Some,
        },
{
    match active {
        None => tray_text_checked(None, 0),
        Some(_) => match clock::now() {
            Some(now) => tray_text_checked(active, now),
            None => None,
        },
    }
}

// ---------------------------------------------------------- quit shortcut

/// What a press of the quit shortcut does.
#[derive(Debug, Clone, Copy, PartialEq, Eq, Structural)]
pub enum QuitShortcut {
    /// Only hide the window.
    HideWindow,
    /// Quit the application.
    Quit,
}

/// A press at `now_ms` quits when the previous press (at `last_press_ms`,
/// zero when there is none to count) was less than two seconds before;
/// otherwise it hides the window. Also returns the press time to remember.
pub open spec fn quit_shortcut_of(last_press_ms: i64, now_ms: i64) -> (QuitShortcut, i64) {
    if last_press_ms > 0 && now_ms - last_press_ms < QUIT_HOLD_MS {
        (QuitShortcut::Quit, 0)
    } else {
        (QuitShortcut::HideWindow, now_ms)
    }
}

/// What a press of the quit shortcut at `now_ms` does, and the press time to remember.
pub fn quit_shortcut_at(last_press_ms: i64, now_ms: i64) -> (r: (QuitShortcut, i64))
    ensures
        r == quit_shortcut_of(last_press_ms, now_ms),
{
    let gap: i128 = now_ms as i128 - last_press_ms as i128;
    if last_press_ms > 0 && gap < QUIT_HOLD_MS as i128 {
        (QuitShortcut::Quit, 0)
    } else {
        (QuitShortcut::HideWindow, now_ms)
    }
}

/// What a press of the quit shortcut now does, and the press time to
/// remember; `None` when the clock cannot be read.
pub fn quit_shortcut(last_press_ms: i64) -> (r: Option<(QuitShortcut, i64)>)
    ensures
        match r {
            Some(x) => exists|now_ms: i64| 0 <= now_ms < crate::clock::MAX_TIMESTAMP * 1000 && x == #[trigger] quit_shortcut_of(last_press_ms, now_ms),
            None => true,
        },
{
    match clock::now_millis() {
        Some(now_ms) => Some(quit_shortcut_at(last_press_ms, now_ms)),
        None => None,
    }
}

/// The menu offers at most five tasks to start, and never the task whose
/// timer runs: each entry is that of one of the first five tasks, not the
/// running one.
pub proof fn law_quick_start_bounded(tasks: Seq<TaskWithStatsView>, running_task: Option<i64>)
    ensures
        quick_start_of(tasks, running_task).len() <= QUICK_START_COUNT,
        forall|e: (Seq<char>, Seq<char>)| #[trigger] quick_start_of(tasks, running_task).contains(e) ==> exists|k: int|
            #![trigger tasks[k]]
            0 <= k < tasks.len() && k < QUICK_START_COUNT && running_task != Some(tasks[k].task.id)
                && e == quick_start_entry(tasks[k]),
{
    broadcast use vstd::seq_lib::group_filter_ensures;
    let first = tasks.take(if tasks.len() < QUICK_START_COUNT { tasks.len() as int } else { QUICK_START_COUNT as int });
    let pred = |t: TaskWithStatsView| running_task != Some(t.task.id);
    let kept = first.filter(pred);
    let q = quick_start_of(tasks, running_task);
    assert(q == kept.map_values(|t: TaskWithStatsView| quick_start_entry(t)));
    assert forall|e: (Seq<char>, Seq<char>)| #[trigger] q.contains(e) implies exists|k: int|
        #![trigger tasks[k]]
        0 <= k < tasks.len() && k < QUICK_START_COUNT && running_task != Some(tasks[k].task.id)
            && e == quick_start_entry(tasks[k]) by {
        let i = choose|i: int| 0 <= i < q.len() && q[i] == e;
        assert(kept.contains(kept[i]));
        first.lemma_filter_contains_rev(pred, kept[i]);
        let k = choose|k: int| 0 <= k < first.len() && first[k] == kept[i];
        assert(pred(kept[i]));
        assert(tasks[k] == first[k]);
    }
}

} // verus!
