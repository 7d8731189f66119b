use timers::events::{respond, AppEvent, AppResponse};

#[test]
fn closing_the_window_hides_it() {
    assert_eq!(respond(AppEvent::CloseRequested), AppResponse::HideWindow);
}

#[test]
fn only_an_explicit_exit_ends_the_app() {
    assert_eq!(respond(AppEvent::ExitRequested { code: None }), AppResponse::StayRunning);
    assert_eq!(respond(AppEvent::ExitRequested { code: Some(0) }), AppResponse::Proceed);
    assert_eq!(respond(AppEvent::ExitRequested { code: Some(3) }), AppResponse::Proceed);
}

#[test]
fn reopening_shows_a_hidden_window() {
    assert_eq!(respond(AppEvent::Reopen { has_visible_windows: false }), AppResponse::ShowWindow);
    assert_eq!(respond(AppEvent::Reopen { has_visible_windows: true }), AppResponse::Proceed);
    assert_eq!(respond(AppEvent::Other), AppResponse::Proceed);
}
