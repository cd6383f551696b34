use stash_tree::controller::{App, Event, KeyPress};

#[test]
fn new_app_defaults() {
    let app = App::new();
    assert_eq!(app.stashes.len(), 2);
    assert_eq!(app.stashes[0], "stash@{0}: WIP on main: 1a2b3c4 Last commit message");
    assert_eq!(app.stashes[1], "stash@{1}: WIP on feature: 5d6e7f8 Another commit message");
    assert_eq!(app.selected_stash, 0);
    assert_eq!(app.diff, "+ Added line\n- Removed line\n  Unchanged line");
    assert!(!app.should_quit);
}

#[test]
fn selection_moves_and_stops_at_bounds() {
    let mut app = App::new();
    app.previous_stash();
    assert_eq!(app.selected_stash, 0);
    app.next_stash();
    assert_eq!(app.selected_stash, 1);
    app.next_stash();
    assert_eq!(app.selected_stash, 1);
    app.previous_stash();
    assert_eq!(app.selected_stash, 0);
}

#[test]
fn quit_event_yields_quit_action() {
    let mut app = App::new();
    assert_eq!(app.handle_event(Event::Quit), Some(String::from("quit")));
    assert_eq!(app.handle_event(Event::Key(KeyPress::Char('x'))), None);
    assert_eq!(app.handle_event(Event::Tick), None);
    assert_eq!(app.handle_event(Event::Paste(String::from("text"))), None);
    assert!(!app.should_quit);
}

#[test]
fn quit_action_marks_session_done() {
    let mut app = App::new();
    assert_eq!(app.update(String::from("resize")), None);
    assert!(!app.should_quit);
    assert_eq!(app.update(String::from("quit")), None);
    assert!(app.should_quit);
    // a later unrelated action leaves the mark in place
    assert_eq!(app.update(String::from("tick")), None);
    assert!(app.should_quit);
}
