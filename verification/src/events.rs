//! What the application does with the events of its window and of its
//! life cycle: closing the window hides it, and only an explicit quit ends
//! the application.
use vstd::prelude::*;

verus! {

/// An event of the main window or of the application.
#[derive(Debug, Clone, Copy, PartialEq, Eq)]
pub enum AppEvent {
    /// The user asked to close the main window.
    CloseRequested,
    /// The application is about to exit; `code` is set when the exit was
    /// asked for explicitly, and absent when it follows the last window.
    ExitRequested { code: Option<i32> },
    /// The application was activated again (clicking its dock icon).
    Reopen { has_visible_windows: bool },
    /// Any other event.
    Other,
}

/// What to do with an event.
#[derive(Debug, Clone, Copy, PartialEq, Eq)]
pub enum AppResponse {
    /// Keep the window from closing, and hide it.
    HideWindow,
    /// Keep the application from exiting.
    StayRunning,
    /// Show the main window and focus it.
    ShowWindow,
    /// Let the event take its course.
    Proceed,
}

/// The response to an event: a closed window is only hidden, an exit that
/// nobody asked for is refused, and reopening with no window in sight
/// brings the main window back.
pub open spec fn response_of(e: AppEvent) -> AppResponse {
    match e {
        AppEvent::CloseRequested => AppResponse::HideWindow,
        AppEvent::ExitRequested { code } => if code is None { AppResponse::StayRunning } else { AppResponse::Proceed },
        AppEvent::Reopen { has_visible_windows } => if has_visible_windows {
            AppResponse::Proceed
        } else {
            AppResponse::ShowWindow
        },
        AppEvent::Other => AppResponse::Proceed,
    }
}

/// The response to an event.
pub fn respond(e: AppEvent) -> (r: AppResponse)
    ensures
        r == response_of(e),
{
    match e {
        AppEvent::CloseRequested => AppResponse::HideWindow,
        AppEvent::ExitRequested { code } => match code {
            None => AppResponse::StayRunning,
            Some(_) => AppResponse::Proceed,
        },
        AppEvent::Reopen { has_visible_windows } => if has_visible_windows {
            AppResponse::Proceed
        } else {
            AppResponse::ShowWindow
        },
        AppEvent::Other => AppResponse::Proceed,
    }
}

} // verus!
