//! What the program does on the events of its window.

use blob_world::session::{Event, Reaction, Session};

#[test]
fn nothing_is_drawn_before_there_is_a_window() {
    let session = Session::new();
    assert!(!session.forwards_events());
    assert_eq!(session.window_event(Event::RedrawRequested), Reaction::Ignore);
    assert_eq!(session.window_event(Event::Other), Reaction::Ignore);
}

#[test]
fn frames_are_drawn_once_there_is_a_window() {
    let mut session = Session::new();
    session.resumed();
    assert!(session.forwards_events());
    assert_eq!(session.window_event(Event::RedrawRequested), Reaction::DrawFrame);
    assert_eq!(session.window_event(Event::Other), Reaction::Ignore);
    session.resumed();
    assert_eq!(session.window_event(Event::RedrawRequested), Reaction::DrawFrame);
}

#[test]
fn closing_always_ends_the_program() {
    let mut session = Session::new();
    assert_eq!(session.window_event(Event::CloseRequested), Reaction::Exit);
    session.resumed();
    assert_eq!(session.window_event(Event::CloseRequested), Reaction::Exit);
}
