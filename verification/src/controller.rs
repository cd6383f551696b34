//! Interactive-session state.
//!
//! The event loop around the library reads terminal events, hands them in
//! as plain values, and performs whatever the returned action names. The
//! decisions live here: which event yields which action, how an action
//! changes the session state, and how the stash selection moves.

use vstd::prelude::*;

verus! {

/// One key press, as far as the session logic reads it.
#[derive(Debug, PartialEq, Eq)]
pub enum KeyPress {
    Char(char),
    Up,
    Down,
    Other,
}

/// One event handed to the session: lifecycle ticks, terminal changes, key
/// presses, or the request to quit.
#[derive(Debug, PartialEq, Eq)]
pub enum Event {
    Init,
    Quit,
    Error,
    Closed,
    Tick,
    Render,
    FocusGained,
    FocusLost,
    Paste(String),
    Key(KeyPress),
    Resize(u16, u16),
}

/// The session state: the listed stash lines, the selected position, the
/// shown diff text, and whether the session should end.
#[derive(Debug, PartialEq, Eq)]
pub struct App {
    pub stashes: Vec<String>,
    pub selected_stash: usize,
    pub diff: String,
    pub should_quit: bool,
}

impl App {
    /// A fresh session: two sample stash lines, the first selected, a
    /// sample diff, not quitting.
    pub fn new() -> (r: App)
        ensures
            r.stashes@.len() == 2,
            r.stashes@[0]@ == "stash@{0}: WIP on main: 1a2b3c4 Last commit message"@,
            r.stashes@[1]@ == "stash@{1}: WIP on feature: 5d6e7f8 Another commit message"@,
            r.selected_stash == 0,
            r.diff@ == "+ Added line\n- Removed line\n  Unchanged line"@,
            r.should_quit == false,
    {
        let mut stashes: Vec<String> = Vec::new();
        stashes.push(String::from_str("stash@{0}: WIP on main: 1a2b3c4 Last commit message"));
        stashes.push(String::from_str("stash@{1}: WIP on feature: 5d6e7f8 Another commit message"));
        App {
            stashes,
            selected_stash: 0,
            diff: String::from_str("+ Added line\n- Removed line\n  Unchanged line"),
            should_quit: false,
        }
    }

    /// Moves the selection one stash down, stopping at the last one.
    pub fn next_stash(&mut self)
        ensures
            final(self).stashes == old(self).stashes,
            final(self).diff == old(self).diff,
            final(self).should_quit == old(self).should_quit,
            final(self).selected_stash == (if old(self).stashes@.len() > 0 && old(
                self,
            ).selected_stash < old(self).stashes@.len() - 1 {
                old(self).selected_stash + 1
            } else {
                old(self).selected_stash as int
            }),
    {
        if self.stashes.len() > 0 && self.selected_stash < self.stashes.len() - 1 {
            self.selected_stash = self.selected_stash + 1;
        }
    }

    /// Moves the selection one stash up, stopping at the first one.
    pub fn previous_stash(&mut self)
        ensures
            final(self).stashes == old(self).stashes,
            final(self).diff == old(self).diff,
            final(self).should_quit == old(self).should_quit,
            final(self).selected_stash == (if old(self).selected_stash > 0 {
                old(self).selected_stash - 1
            } else {
                old(self).selected_stash as int
            }),
    {
        if self.selected_stash > 0 {
            self.selected_stash = self.selected_stash - 1;
        }
    }

    /// Turns one event into the action it calls for: the quit event yields
    /// the quit action, every other event yields none. The state itself
    /// does not change here.
    pub fn handle_event(&mut self, evt: Event) -> (r: Option<String>)
        ensures
            *final(self) == *old(self),
            match evt {
                Event::Quit => r matches Option::Some(a) && a@ == "quit"@,
                _ => r is None,
            },
    {
        match evt {
            Event::Key(_) => Option::None,
            Event::Quit => Option::Some(String::from_str("quit")),
            _ => Option::None,
        }
    }

    /// Applies one action: the quit action marks the session as ending;
    /// any other action does nothing. No follow-up action results.
    pub fn update(&mut self, action: String) -> (r: Option<String>)
        ensures
            r is None,
            final(self).stashes == old(self).stashes,
            final(self).diff == old(self).diff,
            final(self).selected_stash == old(self).selected_stash,
            final(self).should_quit == (old(self).should_quit || action@ == "quit"@),
    {
        let quit = String::from_str("quit");
        if action.eq(&quit) {
            self.should_quit = true;
        }
        Option::None
    }
}

} // verus!
