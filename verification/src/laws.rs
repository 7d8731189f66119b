//! What holds of the tracker across its operations: one timer runs at a
//! time, a stopped timer adds exactly its duration to its task, what is
//! written can be read back, and a refused request changes nothing.
use vstd::prelude::*;
use crate::models::{Session, TaskView, TaskWithStatsView, ReportEntryView, TaskDetailView};
use crate::db::DbError;
use crate::tables::{Tables, is_active, close_at, session_term, SumState, sum_state, report_fails, first_active_of,
    is_latest_active, at_most_one_active, fits_i64, list_keys, entry_keys, session_keys, first_active};
use crate::order::{is_stable_desc_order, precedes};
use crate::tray::{menu_of, clickable, MenuEntryView, SHOW_ID, SHOW_LABEL, QUIT_ID, QUIT_LABEL, STATUS_ID, STOP_ID, STOP_LABEL};

verus! {

// ------------------------------------------------------------------ helpers

/// `first_active_of` finds a running session of the task exactly when one exists.
pub(crate) proof fn lemma_first_active_of(s: Seq<Session>, task_id: i64)
    ensures
        match first_active_of(s, task_id) {
            Some(x) => exists|p: int| 0 <= p < s.len() && s[p] == x && x.task_id == task_id && is_active(x),
            None => forall|i: int| 0 <= i < s.len() ==> !(#[trigger] s[i].task_id == task_id && is_active(s[i])),
        },
    decreases s.len(),
{
    if s.len() > 0 {
        lemma_first_active_of(s.drop_first(), task_id);
        if !(s[0].task_id == task_id && is_active(s[0])) {
            match first_active_of(s, task_id) {
                Some(x) => {
                    let p = choose|p: int| 0 <= p < s.drop_first().len() && s.drop_first()[p] == x
                        && x.task_id == task_id && is_active(x);
                    assert(s[p + 1] == x);
                },
                None => {
                    assert forall|i: int| 0 <= i < s.len() implies !(#[trigger] s[i].task_id == task_id && is_active(s[i])) by {
                        if i > 0 {
                            assert(s[i] == s.drop_first()[i - 1]);
                        }
                    }
                },
            }
        } else {
            assert(s[0] == s[0]);
        }
    }
}

/// Sums whose sessions contribute the same terms are equal.
pub(crate) proof fn lemma_sum_same_terms(
    a: Seq<Session>,
    b: Seq<Session>,
    task_id: i64,
    window: Option<(i64, i64)>,
    now: i64,
)
    requires
        a.len() == b.len(),
        forall|i: int| 0 <= i < a.len() ==> session_term(#[trigger] a[i], task_id, window, now)
            == session_term(b[i], task_id, window, now),
    ensures
        sum_state(a, task_id, window, now) == sum_state(b, task_id, window, now),
    decreases a.len(),
{
    if a.len() > 0 {
        assert(session_term(a[a.len() - 1], task_id, window, now) == session_term(b[b.len() - 1], task_id, window, now));
        assert forall|i: int| 0 <= i < a.drop_last().len() implies session_term(#[trigger] a.drop_last()[i], task_id, window, now)
            == session_term(b.drop_last()[i], task_id, window, now) by {
            assert(a.drop_last()[i] == a[i] && b.drop_last()[i] == b[i]);
            assert(session_term(a[i], task_id, window, now) == session_term(b[i], task_id, window, now));
        }
        lemma_sum_same_terms(a.drop_last(), b.drop_last(), task_id, window, now);
    }
}

/// A sum to which no session contributes is zero.
pub(crate) proof fn lemma_sum_zero(s: Seq<Session>, task_id: i64, window: Option<(i64, i64)>, now: i64)
    requires
        forall|i: int| 0 <= i < s.len() ==> (#[trigger] s[i]).task_id != task_id,
    ensures
        sum_state(s, task_id, window, now) == SumState::Exact(0),
    decreases s.len(),
{
    if s.len() > 0 {
        assert(s[s.len() - 1].task_id != task_id);
        assert forall|i: int| 0 <= i < s.drop_last().len() implies (#[trigger] s.drop_last()[i]).task_id != task_id by {
            assert(s.drop_last()[i] == s[i]);
        }
        lemma_sum_zero(s.drop_last(), task_id, window, now);
    }
}

/// In well-formed tables with one running session, that session is at a
/// single position.
pub(crate) proof fn lemma_single_active_position(t: Tables, p: int)
    requires
        t.wf(),
        at_most_one_active(t.sessions),
        0 <= p < t.sessions.len(),
        is_active(t.sessions[p]),
    ensures
        forall|j: int| 0 <= j < t.sessions.len() && is_active(#[trigger] t.sessions[j]) ==> j == p,
{
    assert forall|j: int| 0 <= j < t.sessions.len() && is_active(#[trigger] t.sessions[j]) implies j == p by {
        assert(t.sessions[j].id == t.sessions[p].id);
        if j < p {
            assert(t.sessions[j].id < t.sessions[p].id);
        } else if p < j {
            assert(t.sessions[p].id < t.sessions[j].id);
        }
    }
}

/// When only position `p` runs, it is the running session that started last.
pub(crate) proof fn lemma_only_active_is_latest(t: Tables, p: int)
    requires
        0 <= p < t.sessions.len(),
        is_active(t.sessions[p]),
        forall|j: int| 0 <= j < t.sessions.len() && is_active(#[trigger] t.sessions[j]) ==> j == p,
    ensures
        t.latest_active_index() == Some(p),
{
    assert(is_latest_active(t.sessions, p));
    assert forall|k: int| #[trigger] is_latest_active(t.sessions, k) implies k == p by {}
}

// --------------------------------------------------------------------- laws

/// At most one timer runs at a time: every operation keeps it so.
pub proof fn law_single_running_timer(
    t: Tables,
    id: i64,
    name: Seq<char>,
    description: Option<Seq<char>>,
    archived: bool,
    now: i64,
)
    requires
        t.wf(),
        at_most_one_active(t.sessions),
    ensures
        at_most_one_active(t.create_task(name, description, now).0.sessions),
        at_most_one_active(t.update_task(id, name, description).0.sessions),
        at_most_one_active(t.set_archived(id, archived, now).0.sessions),
        at_most_one_active(t.delete_task(id).0.sessions),
        at_most_one_active(t.start_timer(id, now).0.sessions),
        at_most_one_active(t.stop_active_timer(now).0.sessions),
{
    let a = t.set_archived(id, archived, now).0;
    if t.has_task(id) && archived {
        assert forall|i: int, j: int|
            0 <= i < a.sessions.len() && 0 <= j < a.sessions.len() && is_active(#[trigger] a.sessions[i])
                && is_active(#[trigger] a.sessions[j]) implies a.sessions[i].id == a.sessions[j].id by {
            assert(is_active(t.sessions[i]) && is_active(t.sessions[j]));
        }
    }
    let d = t.delete_task(id).0;
    if t.has_task(id) {
        let pred = |s: Session| s.task_id != id;
        broadcast use vstd::seq_lib::group_filter_ensures;
        assert forall|i: int, j: int|
            0 <= i < d.sessions.len() && 0 <= j < d.sessions.len() && is_active(#[trigger] d.sessions[i])
                && is_active(#[trigger] d.sessions[j]) implies d.sessions[i].id == d.sessions[j].id by {
            assert(d.sessions.contains(d.sessions[i]));
            assert(d.sessions.contains(d.sessions[j]));
            t.sessions.lemma_filter_contains_rev(pred, d.sessions[i]);
            t.sessions.lemma_filter_contains_rev(pred, d.sessions[j]);
            let p = choose|p: int| 0 <= p < t.sessions.len() && t.sessions[p] == d.sessions[i];
            let q = choose|q: int| 0 <= q < t.sessions.len() && t.sessions[q] == d.sessions[j];
            assert(is_active(t.sessions[p]) && is_active(t.sessions[q]));
        }
    }
    let st = t.start_timer(id, now).0;
    if t.has_task(id) && first_active_of(t.sessions, id) is None && t.last_session_id != i64::MAX {
        let n = t.sessions.len();
        assert forall|i: int, j: int|
            0 <= i < st.sessions.len() && 0 <= j < st.sessions.len() && is_active(#[trigger] st.sessions[i])
                && is_active(#[trigger] st.sessions[j]) implies st.sessions[i].id == st.sessions[j].id by {
            if i < n {
                assert(st.sessions[i] == close_at(t.sessions[i], now));
            }
            if j < n {
                assert(st.sessions[j] == close_at(t.sessions[j], now));
            }
        }
    }
    let sp = t.stop_active_timer(now).0;
    match t.latest_active_index() {
        None => {},
        Some(k) => {
            let w = choose|w: int| is_latest_active(t.sessions, w);
            assert forall|i: int, j: int|
                0 <= i < sp.sessions.len() && 0 <= j < sp.sessions.len() && is_active(#[trigger] sp.sessions[i])
                    && is_active(#[trigger] sp.sessions[j]) implies sp.sessions[i].id == sp.sessions[j].id by {
                assert(i != k && j != k);
                assert(is_active(t.sessions[i]) && is_active(t.sessions[j]));
            }
        },
    }
}

/// Starting a timer makes it the only running timer: afterwards the running
/// timer is the returned session, on the task it was started for, and no
/// other session runs.
pub proof fn law_started_timer_is_running(t: Tables, task_id: i64, now: i64)
    requires
        t.wf(),
        t.start_timer(task_id, now).1 is Ok,
    ensures
        ({
            let (n, r) = t.start_timer(task_id, now);
            &&& n.active_session() == Some((t.task(task_id), r.unwrap()))
            &&& r.unwrap().task_id == task_id
            &&& is_active(r.unwrap())
            &&& forall|j: int| 0 <= j < n.sessions.len() && is_active(#[trigger] n.sessions[j])
                ==> n.sessions[j] == r.unwrap()
        }),
{
    let (n, r) = t.start_timer(task_id, now);
    let p = lemma_started_position(t, task_id, now);
    lemma_only_active_is_latest(n, p);
}

/// Where the session that `start_timer` returns stands afterwards: the only
/// running position.
pub(crate) proof fn lemma_started_position(t: Tables, task_id: i64, now: i64) -> (p: int)
    requires
        t.wf(),
        t.start_timer(task_id, now).1 is Ok,
    ensures
        ({
            let (n, r) = t.start_timer(task_id, now);
            &&& 0 <= p < n.sessions.len()
            &&& n.sessions[p] == r.unwrap()
            &&& is_active(r.unwrap())
            &&& r.unwrap().task_id == task_id
            &&& n.tasks == t.tasks
            &&& forall|j: int| 0 <= j < n.sessions.len() && is_active(#[trigger] n.sessions[j]) ==> j == p
        }),
{
    let (n, r) = t.start_timer(task_id, now);
    lemma_first_active_of(t.sessions, task_id);
    match first_active_of(t.sessions, task_id) {
        Some(x) => {
            let p = choose|p: int| 0 <= p < t.sessions.len() && t.sessions[p] == x && x.task_id == task_id && is_active(x);
            assert(n.sessions[p] == x);
            assert forall|j: int| 0 <= j < n.sessions.len() && is_active(#[trigger] n.sessions[j]) implies j == p by {
                assert(t.sessions[j].id == x.id);
                if j < p {
                    assert(t.sessions[j].id < t.sessions[p].id);
                } else if p < j {
                    assert(t.sessions[p].id < t.sessions[j].id);
                }
            }
            p
        },
        None => {
            let last = t.sessions.len() as int;
            assert(n.sessions[last] == r.unwrap());
            assert forall|j: int| 0 <= j < n.sessions.len() && is_active(#[trigger] n.sessions[j]) implies j == last by {
                if j < last {
                    assert(n.sessions[j] == close_at(t.sessions[j], now));
                }
            }
            last
        },
    }
}

/// Stopping the timer right after starting one stops the started session,
/// with its end at the stop time, and leaves no timer running.
pub proof fn law_stop_after_start(t: Tables, task_id: i64, start: i64, stop: i64)
    requires
        t.wf(),
        at_most_one_active(t.sessions),
        t.start_timer(task_id, start).1 is Ok,
    ensures
        ({
            let (n, r) = t.start_timer(task_id, start);
            let (m, stopped) = n.stop_active_timer(stop);
            &&& stopped == Some(Session { end_time: Some(stop), ..r.unwrap() })
            &&& m.active_session() is None
        }),
{
    let (n, r) = t.start_timer(task_id, start);
    law_started_timer_is_running(t, task_id, start);
    lemma_first_active_of(t.sessions, task_id);
    let p: int = match first_active_of(t.sessions, task_id) {
        Some(x) => {
            let p = choose|p: int| 0 <= p < t.sessions.len() && t.sessions[p] == x && x.task_id == task_id && is_active(x);
            lemma_single_active_position(t, p);
            lemma_only_active_is_latest(t, p);
            p
        },
        None => {
            let last = t.sessions.len() as int;
            assert forall|j: int| 0 <= j < n.sessions.len() && is_active(#[trigger] n.sessions[j]) implies j == last by {
                if j < last {
                    assert(n.sessions[j] == close_at(t.sessions[j], start));
                }
            }
            lemma_only_active_is_latest(n, last);
            last
        },
    };
    assert(forall|j: int| 0 <= j < n.sessions.len() && is_active(#[trigger] n.sessions[j]) ==> j == p);
    let m = n.stop_active_timer(stop).0;
    assert forall|i: int| 0 <= i < m.sessions.len() implies !is_active(#[trigger] m.sessions[i]) by {
        if i != p {
            assert(m.sessions[i] == n.sessions[i]);
        }
    }
    assert(!(exists|i: int| is_latest_active(m.sessions, i)));
}

/// Stopping leaves no timer running.
pub proof fn law_stop_leaves_nothing_running(t: Tables, now: i64)
    requires
        t.wf(),
        at_most_one_active(t.sessions),
    ensures
        t.stop_active_timer(now).0.active_session() is None,
        forall|i: int| 0 <= i < t.sessions.len() ==> !is_active(#[trigger] t.stop_active_timer(now).0.sessions[i]),
{
    let m = t.stop_active_timer(now).0;
    match t.latest_active_index() {
        None => {
            assert forall|i: int| 0 <= i < t.sessions.len() implies !is_active(#[trigger] m.sessions[i]) by {
                if is_active(t.sessions[i]) {
                    lemma_single_active_position(t, i);
                    lemma_only_active_is_latest(t, i);
                }
            }
        },
        Some(k) => {
            let w = choose|w: int| is_latest_active(t.sessions, w);
            lemma_single_active_position(t, k);
            assert forall|i: int| 0 <= i < t.sessions.len() implies !is_active(#[trigger] m.sessions[i]) by {
                if i != k {
                    assert(m.sessions[i] == t.sessions[i]);
                }
            }
        },
    }
    assert(!(exists|i: int| is_latest_active(m.sessions, i)));
}

/// A timer started at `start` and stopped at `stop` adds `stop - start`
/// seconds to its task's total (or the total overflows), whenever no timer
/// was running for the task before.
pub proof fn law_timer_adds_its_duration(t: Tables, task_id: i64, start: i64, stop: i64, now: i64)
    requires
        t.wf(),
        at_most_one_active(t.sessions),
        first_active_of(t.sessions, task_id) is None,
        t.start_timer(task_id, start).1 is Ok,
    ensures
        ({
            let m = t.start_timer(task_id, start).0.stop_active_timer(stop).0;
            m.total_seconds(task_id, now) == match t.total_seconds(task_id, now) {
                Some(x) => if fits_i64(stop - start) && fits_i64(x + (stop - start)) {
                    Some(x + (stop - start))
                } else {
                    None
                },
                None => None,
            }
        }),
{
    let (n, r) = t.start_timer(task_id, start);
    let s = r.unwrap();
    law_stop_after_start(t, task_id, start, stop);
    lemma_first_active_of(t.sessions, task_id);
    let last = t.sessions.len() as int;
    assert forall|j: int| 0 <= j < n.sessions.len() && is_active(#[trigger] n.sessions[j]) implies j == last by {
        if j < last {
            assert(n.sessions[j] == close_at(t.sessions[j], start));
        }
    }
    lemma_only_active_is_latest(n, last);
    let m = n.stop_active_timer(stop).0;
    let closed = t.sessions.map_values(|x: Session| close_at(x, start));
    let ended = Session { end_time: Some(stop), ..s };
    assert(m.sessions =~= closed.push(ended));
    assert forall|i: int| 0 <= i < closed.len() implies session_term(#[trigger] closed[i], task_id, None, now)
        == session_term(t.sessions[i], task_id, None, now) by {
        if t.sessions[i].task_id == task_id {
            assert(!is_active(t.sessions[i]));
        }
    }
    lemma_sum_same_terms(closed, t.sessions, task_id, None, now);
    assert(m.sessions.drop_last() =~= closed);
}

/// A created task can be read back: it is stored under a fresh id, larger
/// than every id handed out before, with no sessions and no time.
pub proof fn law_created_task_reads_back(t: Tables, name: Seq<char>, description: Option<Seq<char>>, now: i64, later: i64)
    requires
        t.wf(),
        t.create_task(name, description, now).1 is Ok,
    ensures
        ({
            let (n, r) = t.create_task(name, description, now);
            let v = r.unwrap();
            &&& v.id > t.last_task_id
            &&& n.has_task(v.id)
            &&& n.task(v.id) == v
            &&& v.name == name && v.description == description && v.created_at == now && !v.archived
            &&& n.total_seconds(v.id, later) == Some(0int)
            &&& first_active_of(n.sessions, v.id) is None
        }),
{
    let (n, r) = t.create_task(name, description, now);
    let v = r.unwrap();
    let last = t.tasks.len() as int;
    assert(n.tasks[last] == v);
    let k = n.task_index(v.id);
    if k < last {
        assert(t.tasks[k].id <= t.last_task_id);
    }
    assert forall|i: int| 0 <= i < n.sessions.len() implies (#[trigger] n.sessions[i]).task_id != v.id by {
        assert(t.has_task(t.sessions[i].task_id));
        let p = choose|p: int| 0 <= p < t.tasks.len() && t.tasks[p].id == t.sessions[i].task_id;
        assert(t.tasks[p].id <= t.last_task_id);
    }
    lemma_sum_zero(n.sessions, v.id, None, later);
    lemma_first_active_of(n.sessions, v.id);
}

/// An updated task reads back with the new name and description, and keeps
/// its id, creation time, archive flag and sessions.
pub proof fn law_updated_task_reads_back(t: Tables, id: i64, name: Seq<char>, description: Option<Seq<char>>)
    requires
        t.wf(),
        t.has_task(id),
    ensures
        ({
            let (n, r) = t.update_task(id, name, description);
            &&& r == Ok::<TaskView, DbError>(n.task(id))
            &&& n.has_task(id)
            &&& n.task(id).name == name && n.task(id).description == description
            &&& n.task(id).id == id
            &&& n.task(id).created_at == t.task(id).created_at
            &&& n.task(id).archived == t.task(id).archived
            &&& n.sessions == t.sessions
        }),
{
    let (n, r) = t.update_task(id, name, description);
    crate::tables::lemma_same_keys(t, n);
}

/// Deleting a task removes it and every session recorded on it.
pub proof fn law_delete_removes_sessions(t: Tables, id: i64, now: i64)
    requires
        t.wf(),
        t.has_task(id),
    ensures
        ({
            let n = t.delete_task(id).0;
            &&& !n.has_task(id)
            &&& forall|i: int| 0 <= i < n.sessions.len() ==> (#[trigger] n.sessions[i]).task_id != id
            &&& n.total_seconds(id, now) == Some(0int)
        }),
{
    let n = t.delete_task(id).0;
    let k = t.task_index(id);
    let pred = |s: Session| s.task_id != id;
    assert forall|i: int| 0 <= i < n.sessions.len() implies (#[trigger] n.sessions[i]).task_id != id by {
        t.sessions.lemma_filter_pred(pred, i);
        assert(pred(n.sessions[i]));
    }
    if n.has_task(id) {
        let q = choose|q: int| 0 <= q < n.tasks.len() && n.tasks[q].id == id;
        if q < k {
            assert(t.tasks[q].id == id && t.tasks[q].id < t.tasks[k].id);
        } else {
            assert(t.tasks[q + 1].id == id && t.tasks[k].id < t.tasks[q + 1].id);
        }
    }
    lemma_sum_zero(n.sessions, id, None, now);
}

/// Archiving a task stops its timer: afterwards none of its sessions runs,
/// and the task reads back as archived.
pub proof fn law_archive_stops_timer(t: Tables, id: i64, now: i64)
    requires
        t.wf(),
        t.has_task(id),
    ensures
        ({
            let n = t.set_archived(id, true, now).0;
            &&& first_active_of(n.sessions, id) is None
            &&& n.task(id).archived
            &&& n.task(id).name == t.task(id).name
        }),
{
    let n = t.set_archived(id, true, now).0;
    crate::tables::lemma_same_keys(t, n);
    lemma_first_active_of(n.sessions, id);
    match first_active_of(n.sessions, id) {
        Some(x) => {
            let p = choose|p: int| 0 <= p < n.sessions.len() && n.sessions[p] == x && x.task_id == id && is_active(x);
            assert(n.sessions[p] == close_at(t.sessions[p], now));
        },
        None => {},
    }
}

/// A refused request changes nothing, and a missing task is refused exactly
/// when it does not exist.
pub proof fn law_refusal_changes_nothing(
    t: Tables,
    id: i64,
    name: Seq<char>,
    description: Option<Seq<char>>,
    archived: bool,
    now: i64,
)
    ensures
        t.create_task(name, description, now).1 is Err ==> t.create_task(name, description, now).0 == t,
        t.update_task(id, name, description).1 is Err ==> t.update_task(id, name, description).0 == t,
        t.set_archived(id, archived, now).1 is Err ==> t.set_archived(id, archived, now).0 == t,
        t.delete_task(id).1 is Err ==> t.delete_task(id).0 == t,
        t.start_timer(id, now).1 is Err ==> t.start_timer(id, now).0 == t,
        (t.update_task(id, name, description).1 == Err::<TaskView, DbError>(DbError::NotFound)) == !t.has_task(id),
        (t.set_archived(id, archived, now).1 == Err::<(), DbError>(DbError::NotFound)) == !t.has_task(id),
        (t.delete_task(id).1 == Err::<(), DbError>(DbError::NotFound)) == !t.has_task(id),
        (t.start_timer(id, now).1 == Err::<Session, DbError>(DbError::NotFound)) == !t.has_task(id),
{
}

/// The task list shows unarchived tasks before archived ones and newer
/// before older, leaves out archived tasks unless asked for, and shows
/// every listed task exactly once.
pub proof fn law_listing_order(t: Tables, include_archived: bool, now: i64, v: Seq<TaskWithStatsView>)
    requires
        t.is_listing(include_archived, now, v),
    ensures
        forall|k: int, l: int| 0 <= k < l < v.len() ==> {
            ||| !v[k].task.archived && v[l].task.archived
            ||| (v[k].task.archived == v[l].task.archived && v[k].task.created_at >= v[l].task.created_at)
        },
        !include_archived ==> forall|k: int| 0 <= k < v.len() ==> !(#[trigger] v[k]).task.archived,
        v.len() == t.listed(include_archived).len(),
        forall|i: int| #![trigger t.listed(include_archived)[i]] 0 <= i < t.listed(include_archived).len()
            ==> exists|k: int| 0 <= k < v.len() && #[trigger] v[k].task == t.listed(include_archived)[i],
{
    let l = t.listed(include_archived);
    let pred = |x: TaskView| include_archived || !x.archived;
    let order = choose|order: Seq<usize>| #[trigger] is_stable_desc_order(list_keys(l), order)
        && v.len() == order.len()
        && forall|k: int| 0 <= k < v.len() ==> #[trigger] v[k] == t.stats(l[order[k] as int], now);
    assert forall|k: int, m: int| 0 <= k < m < v.len() implies {
        ||| !v[k].task.archived && v[m].task.archived
        ||| (v[k].task.archived == v[m].task.archived && v[k].task.created_at >= v[m].task.created_at)
    } by {
        assert(precedes(list_keys(l), order[k] as int, order[m] as int));
        assert(v[k].task == l[order[k] as int] && v[m].task == l[order[m] as int]);
    }
    if !include_archived {
        assert forall|k: int| 0 <= k < v.len() implies !(#[trigger] v[k]).task.archived by {
            assert(v[k].task == l[order[k] as int]);
            t.tasks.lemma_filter_pred(pred, order[k] as int);
        }
    }
    assert forall|i: int| #![trigger l[i]] 0 <= i < l.len() implies exists|k: int| 0 <= k < v.len() && #[trigger] v[k].task == l[i] by {
        assert(order.contains(i as usize));
        let k = choose|k: int| 0 <= k < order.len() && order[k] == i as usize;
        assert(v[k].task == l[i]);
    }
}

/// A report lists only tasks with time in the range, most time first.
pub proof fn law_report_order(t: Tables, range_start: i64, range_end: i64, now: i64, v: Seq<ReportEntryView>)
    requires
        t.report_fits(range_start, range_end, now),
        t.is_report(range_start, range_end, now, v),
    ensures
        forall|k: int| 0 <= k < v.len() ==> (#[trigger] v[k]).total_seconds > 0,
        forall|k: int, l: int| 0 <= k < l < v.len() ==> v[k].total_seconds >= v[l].total_seconds,
{
    let lines = t.report_lines(range_start, range_end, now);
    let pred = |x: TaskView| t.report_seconds(x.id, range_start, range_end, now) > 0;
    let kept = t.tasks.filter(pred);
    let order = choose|order: Seq<usize>| #[trigger] is_stable_desc_order(entry_keys(lines), order)
        && v.len() == order.len()
        && forall|k: int| 0 <= k < v.len() ==> #[trigger] v[k] == lines[order[k] as int];
    assert forall|k: int| 0 <= k < v.len() implies (#[trigger] v[k]).total_seconds > 0 by {
        let i = order[k] as int;
        t.tasks.lemma_filter_pred(pred, i);
        assert(v[k] == t.entry(kept[i], range_start, range_end, now));
        lemma_sum_fits(t.sessions, kept[i].id, Some((range_start, range_end)), now);
    }
    assert forall|k: int, m: int| 0 <= k < m < v.len() implies v[k].total_seconds >= v[m].total_seconds by {
        assert(precedes(entry_keys(lines), order[k] as int, order[m] as int));
    }
}

/// A task's detail shows only its own sessions, latest start first.
pub proof fn law_detail_order(t: Tables, id: i64, now: i64, d: TaskDetailView)
    requires
        t.is_detail(id, now, d),
    ensures
        forall|k: int| 0 <= k < d.sessions.len() ==> (#[trigger] d.sessions[k]).task_id == id,
        forall|k: int, l: int| 0 <= k < l < d.sessions.len() ==> d.sessions[k].start_time >= d.sessions[l].start_time,
        d.sessions.len() == t.sessions_of(id).len(),
{
    let s = t.sessions_of(id);
    let pred = |x: Session| x.task_id == id;
    let order = choose|order: Seq<usize>| #[trigger] is_stable_desc_order(session_keys(s), order)
        && d.sessions.len() == order.len()
        && forall|k: int| 0 <= k < d.sessions.len() ==> #[trigger] d.sessions[k] == s[order[k] as int];
    assert forall|k: int| 0 <= k < d.sessions.len() implies (#[trigger] d.sessions[k]).task_id == id by {
        t.sessions.lemma_filter_pred(pred, order[k] as int);
        assert(d.sessions[k] == s[order[k] as int]);
    }
    assert forall|k: int, m: int| 0 <= k < m < d.sessions.len() implies d.sessions[k].start_time >= d.sessions[m].start_time by {
        assert(precedes(session_keys(s), order[k] as int, order[m] as int));
        assert(d.sessions[k] == s[order[k] as int] && d.sessions[m] == s[order[m] as int]);
    }
}

/// An exact sum fits in 64 bits.
pub(crate) proof fn lemma_sum_fits(s: Seq<Session>, task_id: i64, window: Option<(i64, i64)>, now: i64)
    ensures
        sum_state(s, task_id, window, now) matches SumState::Exact(x) ==> fits_i64(x),
    decreases s.len(),
{
    if s.len() > 0 {
        lemma_sum_fits(s.drop_last(), task_id, window, now);
    }
}

// ------------------------------------------------------- time and ranges

/// A sum that ends exact was exact after every prefix of its sessions.
pub(crate) proof fn lemma_exact_prefix(s: Seq<Session>, task_id: i64, window: Option<(i64, i64)>, now: i64)
    requires
        s.len() > 0,
        sum_state(s, task_id, window, now) is Exact,
    ensures
        sum_state(s.drop_last(), task_id, window, now) is Exact,
{
    match sum_state(s.drop_last(), task_id, window, now) {
        SumState::Approx { .. } => {
            match session_term(s.last(), task_id, window, now) {
                None => {},
                Some(x) => {},
            }
        },
        SumState::Exact(_) => {},
    }
}

/// The number of running sessions of a task.
pub open spec fn running_count(s: Seq<Session>, task_id: i64) -> int
    decreases s.len(),
{
    if s.len() == 0 {
        0
    } else {
        running_count(s.drop_last(), task_id) + if s.last().task_id == task_id && is_active(s.last()) { 1int } else { 0int }
    }
}

proof fn lemma_total_grows(s: Seq<Session>, task_id: i64, earlier: i64, later: i64)
    requires
        earlier <= later,
        sum_state(s, task_id, None, earlier) is Exact,
        sum_state(s, task_id, None, later) is Exact,
    ensures
        sum_state(s, task_id, None, later)->Exact_0 == sum_state(s, task_id, None, earlier)->Exact_0
            + running_count(s, task_id) * (later - earlier),
        running_count(s, task_id) >= 0,
    decreases s.len(),
{
    if s.len() > 0 {
        lemma_exact_prefix(s, task_id, None, earlier);
        lemma_exact_prefix(s, task_id, None, later);
        lemma_total_grows(s.drop_last(), task_id, earlier, later);
        let c = running_count(s.drop_last(), task_id);
        let d = later - earlier;
        assert((c + 1) * d == c * d + d) by (nonlinear_arith);
        assert((c + 0) * d == c * d) by (nonlinear_arith);
    }
}

/// Totals never decrease as the clock advances: between two readings, a
/// task's total grows by the time passed for each of its running sessions.
pub proof fn law_totals_grow_with_time(t: Tables, task_id: i64, earlier: i64, later: i64)
    requires
        earlier <= later,
        t.total_seconds(task_id, earlier) is Some,
        t.total_seconds(task_id, later) is Some,
    ensures
        t.total_seconds(task_id, later)->Some_0 == t.total_seconds(task_id, earlier)->Some_0
            + running_count(t.sessions, task_id) * (later - earlier),
        t.total_seconds(task_id, later)->Some_0 >= t.total_seconds(task_id, earlier)->Some_0,
{
    lemma_total_grows(t.sessions, task_id, earlier, later);
    let c = running_count(t.sessions, task_id);
    assert(c * (later - earlier) >= 0) by (nonlinear_arith)
        requires
            c >= 0,
            later - earlier >= 0,
    ;
}

/// Every session of the task ends no earlier than it starts (running ones
/// counted up to `now`).
pub open spec fn sessions_ordered(s: Seq<Session>, task_id: i64, now: i64) -> bool {
    forall|i: int| 0 <= i < s.len() && (#[trigger] s[i]).task_id == task_id
        ==> s[i].start_time <= crate::tables::effective_end(s[i], now)
}

/// The term a session gives, counting a session left out as zero.
pub open spec fn term_or_zero(s: Session, task_id: i64, window: Option<(i64, i64)>, now: i64) -> int {
    match session_term(s, task_id, window, now) {
        Some(x) => x,
        None => 0,
    }
}

proof fn lemma_wider_range(s: Seq<Session>, task_id: i64, narrow: (i64, i64), wide: (i64, i64), now: i64)
    requires
        wide.0 <= narrow.0 < narrow.1 <= wide.1,
        sessions_ordered(s, task_id, now),
        sum_state(s, task_id, Some(narrow), now) is Exact,
        sum_state(s, task_id, Some(wide), now) is Exact,
    ensures
        sum_state(s, task_id, Some(narrow), now)->Exact_0 <= sum_state(s, task_id, Some(wide), now)->Exact_0,
    decreases s.len(),
{
    if s.len() > 0 {
        lemma_exact_prefix(s, task_id, Some(narrow), now);
        lemma_exact_prefix(s, task_id, Some(wide), now);
        assert forall|i: int| 0 <= i < s.drop_last().len() && (#[trigger] s.drop_last()[i]).task_id == task_id
            implies s.drop_last()[i].start_time <= crate::tables::effective_end(s.drop_last()[i], now) by {
            assert(s.drop_last()[i] == s[i]);
        }
        lemma_wider_range(s.drop_last(), task_id, narrow, wide, now);
        let x = s.last();
        assert(s[s.len() - 1] == x);
        assert(term_or_zero(x, task_id, Some(narrow), now) <= term_or_zero(x, task_id, Some(wide), now));
        assert(session_term(x, task_id, Some(wide), now) is None ==> session_term(x, task_id, Some(narrow), now) is None);
    }
}

/// With every session ending no earlier than it starts, a sum over a
/// non-empty range (or over whole sessions) adds no negative term: an exact
/// sum is not negative, an approximate one is positive.
proof fn lemma_ordered_sum_positive(s: Seq<Session>, task_id: i64, window: Option<(i64, i64)>, now: i64)
    requires
        sessions_ordered(s, task_id, now),
        window matches Some(w) ==> w.0 < w.1,
    ensures
        match sum_state(s, task_id, window, now) {
            SumState::Exact(a) => a >= 0,
            SumState::Approx { sum, .. } => sum > 0,
        },
    decreases s.len(),
{
    if s.len() > 0 {
        assert forall|i: int| 0 <= i < s.drop_last().len() && (#[trigger] s.drop_last()[i]).task_id == task_id
            implies s.drop_last()[i].start_time <= crate::tables::effective_end(s.drop_last()[i], now) by {
            assert(s.drop_last()[i] == s[i]);
        }
        lemma_ordered_sum_positive(s.drop_last(), task_id, window, now);
        let x = s.last();
        assert(s[s.len() - 1] == x);
        assert(session_term(x, task_id, window, now) matches Some(v) ==> v >= 0);
    }
}

/// Widening a report's range never lowers a task's time in it, when every
/// session of the task ends no earlier than it starts and neither report
/// fails on the task.
pub proof fn law_wider_range_never_lowers(
    t: Tables,
    task_id: i64,
    start: i64,
    end: i64,
    wide_start: i64,
    wide_end: i64,
    now: i64,
)
    requires
        wide_start <= start < end <= wide_end,
        sessions_ordered(t.sessions, task_id, now),
        !report_fails(t.report_state(task_id, start, end, now)),
        !report_fails(t.report_state(task_id, wide_start, wide_end, now)),
    ensures
        t.report_seconds(task_id, start, end, now) <= t.report_seconds(task_id, wide_start, wide_end, now),
{
    lemma_ordered_sum_positive(t.sessions, task_id, Some((start, end)), now);
    lemma_ordered_sum_positive(t.sessions, task_id, Some((wide_start, wide_end)), now);
    lemma_wider_range(t.sessions, task_id, (start, end), (wide_start, wide_end), now);
}

proof fn lemma_covering_range(s: Seq<Session>, task_id: i64, lo: i64, hi: i64, now: i64)
    requires
        sessions_ordered(s, task_id, now),
        forall|i: int| 0 <= i < s.len() && (#[trigger] s[i]).task_id == task_id
            ==> lo <= s[i].start_time && crate::tables::effective_end(s[i], now) <= hi,
    ensures
        sum_state(s, task_id, Some((lo, hi)), now) == sum_state(s, task_id, None, now),
    decreases s.len(),
{
    if s.len() > 0 {
        assert forall|i: int| 0 <= i < s.drop_last().len() && (#[trigger] s.drop_last()[i]).task_id == task_id
            implies s.drop_last()[i].start_time <= crate::tables::effective_end(s.drop_last()[i], now) by {
            assert(s.drop_last()[i] == s[i]);
        }
        assert forall|i: int| 0 <= i < s.drop_last().len() && (#[trigger] s.drop_last()[i]).task_id == task_id
            implies lo <= s.drop_last()[i].start_time && crate::tables::effective_end(s.drop_last()[i], now) <= hi by {
            assert(s.drop_last()[i] == s[i]);
        }
        lemma_covering_range(s.drop_last(), task_id, lo, hi, now);
        lemma_sum_fits(s.drop_last(), task_id, None, now);
        let x = s.last();
        assert(s[s.len() - 1] == x);
    }
}

/// A report over a range that covers every session of a task gives the
/// task's total: the task has a report line exactly when its total is
/// positive, and the line's time is that total.
pub proof fn law_covering_report_is_total(t: Tables, task_id: i64, range_start: i64, range_end: i64, now: i64)
    requires
        sessions_ordered(t.sessions, task_id, now),
        forall|i: int| 0 <= i < t.sessions.len() && (#[trigger] t.sessions[i]).task_id == task_id
            ==> range_start <= t.sessions[i].start_time && crate::tables::effective_end(t.sessions[i], now) <= range_end,
    ensures
        t.report_state(task_id, range_start, range_end, now) == sum_state(t.sessions, task_id, None, now),
        (t.report_seconds(task_id, range_start, range_end, now) > 0) == (t.total_seconds(task_id, now) matches Some(x) && x > 0),
        t.total_seconds(task_id, now) matches Some(x) ==> t.report_seconds(task_id, range_start, range_end, now) == x,
{
    lemma_covering_range(t.sessions, task_id, range_start, range_end, now);
}


/// Entry `a` comes before entry `b` in a task list: a larger ordering key,
/// or an equal key and a smaller task id.
pub open spec fn listed_before(a: TaskWithStatsView, b: TaskWithStatsView) -> bool {
    crate::tables::list_key(a.task) > crate::tables::list_key(b.task)
        || (crate::tables::list_key(a.task) == crate::tables::list_key(b.task) && a.task.id < b.task.id)
}

/// Each entry comes before every later one.
pub open spec fn strictly_listed(v: Seq<TaskWithStatsView>) -> bool {
    forall|i: int, j: int| 0 <= i < j < v.len() ==> listed_before(#[trigger] v[i], #[trigger] v[j])
}

/// Filtering keeps ids increasing.
proof fn lemma_filter_ids_increase(s: Seq<TaskView>, pred: spec_fn(TaskView) -> bool)
    requires
        forall|i: int, j: int| 0 <= i < j < s.len() ==> (#[trigger] s[i]).id < (#[trigger] s[j]).id,
    ensures
        forall|i: int, j: int| 0 <= i < j < s.filter(pred).len()
            ==> (#[trigger] s.filter(pred)[i]).id < (#[trigger] s.filter(pred)[j]).id,
    decreases s.len(),
{
    if s.len() > 0 {
        let d = s.drop_last();
        assert forall|i: int, j: int| 0 <= i < j < d.len() implies (#[trigger] d[i]).id < (#[trigger] d[j]).id by {
            assert(d[i] == s[i] && d[j] == s[j]);
        }
        lemma_filter_ids_increase(d, pred);
        let f = d.filter(pred);
        reveal(Seq::filter);
        reveal(Seq::filter);
    assert(s.filter(pred) == if pred(s.last()) { f.push(s.last()) } else { f });
        if pred(s.last()) {
            assert forall|i: int| 0 <= i < f.len() implies (#[trigger] f[i]).id < s.last().id by {
                assert(f.contains(f[i]));
                d.lemma_filter_contains_rev(pred, f[i]);
                let k = choose|k: int| 0 <= k < d.len() && d[k] == f[i];
                assert(d[k] == s[k]);
            }
            let g = f.push(s.last());
            assert forall|i: int, j: int| 0 <= i < j < g.len() implies (#[trigger] g[i]).id < (#[trigger] g[j]).id by {
                assert(g[i] == f[i]);
                if j < f.len() {
                    assert(g[j] == f[j]);
                }
            }
        }
    }
}

/// A task list is strictly ordered, and holds exactly the stats of the
/// listed tasks.
proof fn lemma_listing_shape(t: Tables, include_archived: bool, now: i64, v: Seq<TaskWithStatsView>)
    requires
        t.wf(),
        t.is_listing(include_archived, now, v),
    ensures
        strictly_listed(v),
        forall|x: TaskWithStatsView| v.contains(x) <==>
            exists|k: int| 0 <= k < t.listed(include_archived).len() && x == #[trigger] t.stats(t.listed(include_archived)[k], now),
        forall|x: TaskView| #[trigger] t.listed(include_archived).contains(x) <==> t.tasks.contains(x) && (include_archived || !x.archived),
{
    broadcast use vstd::seq_lib::group_filter_ensures;
    let l = t.listed(include_archived);
    let pred = |x: TaskView| include_archived || !x.archived;
    assert(l == t.tasks.filter(pred));
    assert forall|x: TaskView| l.contains(x) <==> t.tasks.contains(x) && (include_archived || !x.archived) by {
        if l.contains(x) {
            t.tasks.lemma_filter_contains_rev(pred, x);
            let m = choose|m: int| 0 <= m < l.len() && l[m] == x;
            assert(pred(l[m]));
        }
        if t.tasks.contains(x) && (include_archived || !x.archived) {
            let m = choose|m: int| 0 <= m < t.tasks.len() && t.tasks[m] == x;
            assert(pred(t.tasks[m]));
        }
    }
    let order = choose|order: Seq<usize>| #[trigger] is_stable_desc_order(list_keys(l), order)
        && v.len() == order.len()
        && forall|k: int| 0 <= k < v.len() ==> #[trigger] v[k] == t.stats(l[order[k] as int], now);
    lemma_filter_ids_increase(t.tasks, pred);
    assert forall|i: int, j: int| 0 <= i < j < v.len() implies listed_before(#[trigger] v[i], #[trigger] v[j]) by {
        assert(precedes(list_keys(l), order[i] as int, order[j] as int));
        assert(list_keys(l)[order[i] as int] == crate::tables::list_key(l[order[i] as int]));
        assert(list_keys(l)[order[j] as int] == crate::tables::list_key(l[order[j] as int]));
    }
    assert forall|x: TaskWithStatsView| v.contains(x) implies
        exists|k: int| 0 <= k < l.len() && x == #[trigger] t.stats(l[k], now) by {
        let m = choose|m: int| 0 <= m < v.len() && v[m] == x;
        assert(x == t.stats(l[order[m] as int], now));
    }
    assert forall|x: TaskWithStatsView| (exists|k: int| 0 <= k < l.len() && x == #[trigger] t.stats(l[k], now))
        implies v.contains(x) by {
        let k = choose|k: int| 0 <= k < l.len() && x == #[trigger] t.stats(l[k], now);
        assert(order.contains(k as usize));
        let m = choose|m: int| 0 <= m < order.len() && order[m] == k as usize;
        assert(v[m] == x);
    }
}

/// Two strictly ordered sequences with the same entries are equal.
proof fn lemma_strictly_listed_unique(a: Seq<TaskWithStatsView>, b: Seq<TaskWithStatsView>)
    requires
        strictly_listed(a),
        strictly_listed(b),
        forall|x: TaskWithStatsView| a.contains(x) <==> b.contains(x),
    ensures
        a == b,
    decreases a.len(),
{
    if a.len() == 0 {
        if b.len() > 0 {
            assert(b.contains(b[0]));
        }
        assert(a =~= b);
    } else {
        assert(a.contains(a[0]));
        let j = choose|j: int| 0 <= j < b.len() && b[j] == a[0];
        assert(b.contains(b[0]));
        let i = choose|i: int| 0 <= i < a.len() && a[i] == b[0];
        if i > 0 && j > 0 {
            assert(listed_before(a[0], a[i]));
            assert(listed_before(b[0], b[j]));
        }
        assert(a[0] == b[0]);
        let a1 = a.drop_first();
        let b1 = b.drop_first();
        assert forall|x: TaskWithStatsView| a1.contains(x) <==> b1.contains(x) by {
            if a1.contains(x) {
                let k = choose|k: int| 0 <= k < a1.len() && a1[k] == x;
                assert(a[k + 1] == x);
                assert(listed_before(a[0], a[k + 1]));
                assert(b.contains(x));
                let m = choose|m: int| 0 <= m < b.len() && b[m] == x;
                assert(m != 0);
                assert(b1[m - 1] == x);
            }
            if b1.contains(x) {
                let k = choose|k: int| 0 <= k < b1.len() && b1[k] == x;
                assert(b[k + 1] == x);
                assert(listed_before(b[0], b[k + 1]));
                assert(a.contains(x));
                let m = choose|m: int| 0 <= m < a.len() && a[m] == x;
                assert(m != 0);
                assert(a1[m - 1] == x);
            }
        }
        assert forall|p: int, q: int| 0 <= p < q < a1.len() implies listed_before(#[trigger] a1[p], #[trigger] a1[q]) by {
            assert(a1[p] == a[p + 1] && a1[q] == a[q + 1]);
        }
        assert forall|p: int, q: int| 0 <= p < q < b1.len() implies listed_before(#[trigger] b1[p], #[trigger] b1[q]) by {
            assert(b1[p] == b[p + 1] && b1[q] == b[q + 1]);
        }
        lemma_strictly_listed_unique(a1, b1);
        assert forall|k: int| 0 <= k < a.len() implies a[k] == b[k] by {
            if k > 0 {
                assert(a[k] == a1[k - 1] && b[k] == b1[k - 1]);
            }
        }
        assert(a =~= b);
    }
}

/// The task list without archived tasks is the full task list with its
/// archived tasks left out, at the same clock reading.
pub proof fn law_open_listing_is_part_of_full(
    t: Tables,
    now: i64,
    open: Seq<TaskWithStatsView>,
    full: Seq<TaskWithStatsView>,
)
    requires
        t.wf(),
        t.is_listing(false, now, open),
        t.is_listing(true, now, full),
    ensures
        open == full.filter(|e: TaskWithStatsView| !e.task.archived),
{
    broadcast use vstd::seq_lib::group_filter_ensures;
    let pred = |e: TaskWithStatsView| !e.task.archived;
    let f = full.filter(pred);
    lemma_listing_shape(t, false, now, open);
    lemma_listing_shape(t, true, now, full);
    assert forall|i: int, j: int| 0 <= i < j < f.len() implies listed_before(#[trigger] f[i], #[trigger] f[j]) by {
        lemma_filter_keeps_order(full, pred, i, j);
    }
    let lo = t.listed(false);
    let lf = t.listed(true);
    assert forall|x: TaskWithStatsView| open.contains(x) <==> f.contains(x) by {
        if open.contains(x) {
            let k = choose|k: int| 0 <= k < lo.len() && x == #[trigger] t.stats(lo[k], now);
            assert(lo.contains(lo[k]));
            assert(t.tasks.contains(lo[k]));
            assert(lf.contains(lo[k]));
            let q = choose|q: int| 0 <= q < lf.len() && lf[q] == lo[k];
            assert(x == t.stats(lf[q], now));
            assert(full.contains(x));
            let m = choose|m: int| 0 <= m < full.len() && full[m] == x;
            assert(f.contains(full[m]));
        }
        if f.contains(x) {
            full.lemma_filter_contains_rev(pred, x);
            let m = choose|m: int| 0 <= m < f.len() && f[m] == x;
            assert(pred(f[m]));
            let k = choose|k: int| 0 <= k < lf.len() && x == #[trigger] t.stats(lf[k], now);
            assert(lf.contains(lf[k]));
            assert(t.tasks.contains(lf[k]));
            assert(!lf[k].archived);
            assert(lo.contains(lf[k]));
            let q = choose|q: int| 0 <= q < lo.len() && lo[q] == lf[k];
            assert(x == t.stats(lo[q], now));
        }
    }
    lemma_strictly_listed_unique(open, f);
}

/// Filtering keeps the relative order of what it keeps.
proof fn lemma_filter_keeps_order(s: Seq<TaskWithStatsView>, pred: spec_fn(TaskWithStatsView) -> bool, i: int, j: int)
    requires
        strictly_listed(s),
        0 <= i < j < s.filter(pred).len(),
    ensures
        listed_before(s.filter(pred)[i], s.filter(pred)[j]),
    decreases s.len(),
{
    broadcast use vstd::seq_lib::group_filter_ensures;
    let d = s.drop_last();
    let f = d.filter(pred);
    reveal(Seq::filter);
    assert(s.filter(pred) == if pred(s.last()) { f.push(s.last()) } else { f });
    assert forall|p: int, q: int| 0 <= p < q < d.len() implies listed_before(#[trigger] d[p], #[trigger] d[q]) by {
        assert(d[p] == s[p] && d[q] == s[q]);
    }
    if j < f.len() {
        lemma_filter_keeps_order(d, pred, i, j);
    } else {
        assert(f.contains(f[i]));
        d.lemma_filter_contains_rev(pred, f[i]);
        let k = choose|k: int| 0 <= k < d.len() && d[k] == f[i];
        assert(d[k] == s[k]);
        assert(s.filter(pred)[j] == s[s.len() - 1]);
    }
}


// ------------------------------------------------- what each line carries

/// A report holds a line for every task with time in the range, archived or
/// not, carrying the task's name and its time there; and each of its lines
/// is the line of a task of the tables with time in the range.
pub proof fn law_report_lists_every_task_with_time(
    t: Tables,
    range_start: i64,
    range_end: i64,
    now: i64,
    v: Seq<ReportEntryView>,
)
    requires
        t.wf(),
        t.is_report(range_start, range_end, now, v),
    ensures
        forall|i: int| 0 <= i < t.tasks.len() && t.report_seconds(#[trigger] t.tasks[i].id, range_start, range_end, now) > 0
            ==> exists|k: int| 0 <= k < v.len() && (#[trigger] v[k]).task_id == t.tasks[i].id
                && v[k].task_name == t.tasks[i].name
                && v[k].total_seconds == t.report_seconds(t.tasks[i].id, range_start, range_end, now),
        forall|k: int| 0 <= k < v.len() ==> t.has_task((#[trigger] v[k]).task_id)
            && v[k].task_name == t.task(v[k].task_id).name
            && v[k].total_seconds > 0
            && v[k].total_seconds == t.report_seconds(v[k].task_id, range_start, range_end, now),
{
    broadcast use vstd::seq_lib::group_filter_ensures;
    let lines = t.report_lines(range_start, range_end, now);
    let has_time = |x: TaskView| t.report_seconds(x.id, range_start, range_end, now) > 0;
    let kept = t.tasks.filter(has_time);
    assert(lines == kept.map_values(|x: TaskView| t.entry(x, range_start, range_end, now)));
    let order = choose|order: Seq<usize>| #[trigger] is_stable_desc_order(entry_keys(lines), order)
        && v.len() == order.len()
        && forall|k: int| 0 <= k < v.len() ==> #[trigger] v[k] == lines[order[k] as int];
    assert forall|i: int| 0 <= i < t.tasks.len() && t.report_seconds(#[trigger] t.tasks[i].id, range_start, range_end, now) > 0
        implies exists|k: int| 0 <= k < v.len() && (#[trigger] v[k]).task_id == t.tasks[i].id
            && v[k].task_name == t.tasks[i].name
            && v[k].total_seconds == t.report_seconds(t.tasks[i].id, range_start, range_end, now) by {
        assert(has_time(t.tasks[i]));
        assert(kept.contains(t.tasks[i]));
        let j = choose|j: int| 0 <= j < kept.len() && kept[j] == t.tasks[i];
        assert(order.contains(j as usize));
        let k = choose|k: int| 0 <= k < order.len() && order[k] == j as usize;
        assert(v[k] == lines[j]);
        assert(lines[j] == t.entry(t.tasks[i], range_start, range_end, now));
        lemma_sum_fits(t.sessions, t.tasks[i].id, Some((range_start, range_end)), now);
    }
    assert forall|k: int| 0 <= k < v.len() implies t.has_task((#[trigger] v[k]).task_id)
        && v[k].task_name == t.task(v[k].task_id).name
        && v[k].total_seconds > 0
        && v[k].total_seconds == t.report_seconds(v[k].task_id, range_start, range_end, now) by {
        let j = order[k] as int;
        assert(v[k] == lines[j]);
        assert(kept.contains(kept[j]));
        t.tasks.lemma_filter_contains_rev(has_time, kept[j]);
        assert(has_time(kept[j]));
        let i = choose|i: int| 0 <= i < t.tasks.len() && t.tasks[i] == kept[j];
        assert(lines[j] == t.entry(kept[j], range_start, range_end, now));
        lemma_sum_fits(t.sessions, kept[j].id, Some((range_start, range_end)), now);
        assert(v[k].total_seconds == t.report_seconds(t.tasks[i].id, range_start, range_end, now));
        assert(v[k].total_seconds > 0);
        assert(v[k].task_id == t.tasks[i].id && v[k].task_name == t.tasks[i].name);
        let p = t.task_index(v[k].task_id);
        assert(t.tasks[p].id == t.tasks[i].id);
        assert(p == i);
    }
}

/// The first running session of a sequence is one of its sessions and is
/// running; there is none exactly when no session of it runs.
proof fn lemma_first_active(s: Seq<Session>)
    ensures
        match first_active(s) {
            Some(x) => s.contains(x) && is_active(x),
            None => forall|i: int| 0 <= i < s.len() ==> !is_active(#[trigger] s[i]),
        },
    decreases s.len(),
{
    if s.len() > 0 {
        lemma_first_active(s.drop_first());
        if is_active(s[0]) {
            assert(s.contains(s[0]));
        } else {
            match first_active(s.drop_first()) {
                Some(x) => {
                    let p = choose|p: int| 0 <= p < s.drop_first().len() && s.drop_first()[p] == x;
                    assert(s[p + 1] == x);
                },
                None => {
                    assert forall|i: int| 0 <= i < s.len() implies !is_active(#[trigger] s[i]) by {
                        if i > 0 {
                            assert(s[i] == s.drop_first()[i - 1]);
                        }
                    }
                },
            }
        }
    }
}

/// A task's detail names as running one of its shown sessions that has not
/// ended, and names none exactly when every shown session has ended; the
/// sessions shown are sessions of the tables, of that task.
pub proof fn law_detail_running_session(t: Tables, id: i64, now: i64, d: TaskDetailView)
    requires
        t.is_detail(id, now, d),
    ensures
        d.active_session matches Some(x) ==> x.end_time is None && d.sessions.contains(x),
        d.active_session is None <==> forall|k: int| 0 <= k < d.sessions.len() ==> (#[trigger] d.sessions[k]).end_time is Some,
        forall|k: int| 0 <= k < d.sessions.len() ==> (#[trigger] d.sessions[k]).task_id == id && t.sessions.contains(d.sessions[k]),
        t.total_seconds(id, now) == Some(d.total_seconds as int),
{
    broadcast use vstd::seq_lib::group_filter_ensures;
    law_detail_order(t, id, now, d);
    lemma_first_active(d.sessions);
    let s = t.sessions_of(id);
    let own = |x: Session| x.task_id == id;
    assert(s == t.sessions.filter(own));
    let order = choose|order: Seq<usize>| #[trigger] is_stable_desc_order(session_keys(s), order)
        && d.sessions.len() == order.len()
        && forall|k: int| 0 <= k < d.sessions.len() ==> #[trigger] d.sessions[k] == s[order[k] as int];
    assert forall|k: int| 0 <= k < d.sessions.len() implies (#[trigger] d.sessions[k]).task_id == id
        && t.sessions.contains(d.sessions[k]) by {
        assert(d.sessions[k] == s[order[k] as int]);
        assert(s.contains(s[order[k] as int]));
        t.sessions.lemma_filter_contains_rev(own, s[order[k] as int]);
    }
    if d.active_session is None {
        assert forall|k: int| 0 <= k < d.sessions.len() implies (#[trigger] d.sessions[k]).end_time is Some by {
            assert(!is_active(d.sessions[k]));
        }
    } else {
        let x = d.active_session->Some_0;
        let p = choose|p: int| 0 <= p < d.sessions.len() && d.sessions[p] == x;
        assert(d.sessions[p].end_time is None);
    }
}

/// Each entry of a task list carries its task's total up to `now` and, as
/// its running session, a running session of that task (none exactly when
/// none of the task's sessions runs); the list holds exactly the tasks of
/// the tables that the listing shows, archived ones on request.
pub proof fn law_listing_carries_totals(t: Tables, include_archived: bool, now: i64, v: Seq<TaskWithStatsView>)
    requires
        t.wf(),
        t.listing_fits(include_archived, now),
        t.is_listing(include_archived, now, v),
    ensures
        forall|k: int| 0 <= k < v.len() ==> t.total_seconds((#[trigger] v[k]).task.id, now) == Some(v[k].total_seconds as int),
        forall|k: int| 0 <= k < v.len() ==> ((#[trigger] v[k]).active_session matches Some(x)
            ==> x.task_id == v[k].task.id && x.end_time is None && t.sessions.contains(x)),
        forall|k: int| 0 <= k < v.len() ==> ((#[trigger] v[k]).active_session is None <==> forall|j: int|
            0 <= j < t.sessions.len() && (#[trigger] t.sessions[j]).task_id == v[k].task.id ==> t.sessions[j].end_time is Some),
        forall|k: int| 0 <= k < v.len() ==> t.tasks.contains((#[trigger] v[k]).task) && (include_archived || !v[k].task.archived),
        forall|i: int| 0 <= i < t.tasks.len() && (include_archived || !(#[trigger] t.tasks[i]).archived)
            ==> exists|k: int| 0 <= k < v.len() && (#[trigger] v[k]).task == t.tasks[i],
{
    lemma_listing_shape(t, include_archived, now, v);
    let l = t.listed(include_archived);
    assert forall|k: int| 0 <= k < v.len() implies {
        &&& t.total_seconds((#[trigger] v[k]).task.id, now) == Some(v[k].total_seconds as int)
        &&& (v[k].active_session matches Some(x) ==> x.task_id == v[k].task.id && x.end_time is None && t.sessions.contains(x))
        &&& (v[k].active_session is None <==> forall|j: int|
            0 <= j < t.sessions.len() && (#[trigger] t.sessions[j]).task_id == v[k].task.id ==> t.sessions[j].end_time is Some)
        &&& t.tasks.contains(v[k].task) && (include_archived || !v[k].task.archived)
    } by {
        assert(v.contains(v[k]));
        let j = choose|j: int| 0 <= j < l.len() && v[k] == #[trigger] t.stats(l[j], now);
        assert(l.contains(l[j]));
        assert(t.total_seconds(l[j].id, now) is Some);
        lemma_sum_fits(t.sessions, l[j].id, None, now);
        lemma_first_active_of(t.sessions, l[j].id);
        if v[k].active_session is Some {
            let x = v[k].active_session->Some_0;
            let p = choose|p: int| 0 <= p < t.sessions.len() && t.sessions[p] == x && x.task_id == l[j].id && is_active(x);
            assert(t.sessions.contains(t.sessions[p]));
        } else {
            assert forall|q: int| 0 <= q < t.sessions.len() && (#[trigger] t.sessions[q]).task_id == v[k].task.id
                implies t.sessions[q].end_time is Some by {
                assert(!(t.sessions[q].task_id == l[j].id && is_active(t.sessions[q])));
            }
        }
    }
    assert forall|i: int| 0 <= i < t.tasks.len() && (include_archived || !(#[trigger] t.tasks[i]).archived)
        implies exists|k: int| 0 <= k < v.len() && (#[trigger] v[k]).task == t.tasks[i] by {
        assert(t.tasks.contains(t.tasks[i]));
        assert(l.contains(t.tasks[i]));
        let j = choose|j: int| 0 <= j < l.len() && l[j] == t.tasks[i];
        assert(v.contains(t.stats(l[j], now)));
        let k = choose|k: int| 0 <= k < v.len() && v[k] == t.stats(l[j], now);
    }
}

/// The tray menu offers, as clickable entries, every quick-start entry it is
/// given, whether or not a timer runs; it starts with the window entry, shows
/// the status line, offers to stop the timer while one runs, and ends with
/// the quit entry.
pub proof fn law_menu_offers_every_entry(status: Seq<char>, running: bool, quick: Seq<(Seq<char>, Seq<char>)>)
    ensures
        forall|i: int| 0 <= i < quick.len() ==> menu_of(status, running, quick).contains(
            MenuEntryView::Item { id: (#[trigger] quick[i]).0, label: quick[i].1, enabled: true }),
        menu_of(status, running, quick)[0] == (MenuEntryView::Item { id: SHOW_ID@, label: SHOW_LABEL@, enabled: true }),
        menu_of(status, running, quick).last() == (MenuEntryView::Item { id: QUIT_ID@, label: QUIT_LABEL@, enabled: true }),
        menu_of(status, running, quick).contains(MenuEntryView::Item { id: STATUS_ID@, label: status, enabled: false }),
        running ==> menu_of(status, running, quick).contains(MenuEntryView::Item { id: STOP_ID@, label: STOP_LABEL@, enabled: true }),
{
    let m = menu_of(status, running, quick);
    let stop: Seq<MenuEntryView> = if running { seq![clickable((STOP_ID@, STOP_LABEL@))] } else { Seq::empty() };
    let head = seq![clickable((SHOW_ID@, SHOW_LABEL@)), MenuEntryView::Separator,
        MenuEntryView::Item { id: STATUS_ID@, label: status, enabled: false }] + stop + seq![MenuEntryView::Separator];
    let q = quick.map_values(|e: (Seq<char>, Seq<char>)| clickable(e));
    let sep: Seq<MenuEntryView> = if quick.len() > 0 { seq![MenuEntryView::Separator] } else { Seq::empty() };
    assert(m == head + q + sep + seq![clickable((QUIT_ID@, QUIT_LABEL@))]);
    assert forall|i: int| 0 <= i < quick.len() implies m.contains(
        MenuEntryView::Item { id: (#[trigger] quick[i]).0, label: quick[i].1, enabled: true }) by {
        assert(m[head.len() + i] == q[i]);
    }
    assert(m[0] == head[0]);
    assert(m[2] == head[2]);
    if running {
        assert(m[3] == head[3]);
    }
}

} // verus!
