//! What the program does on the events of its window.

use vstd::prelude::*;

verus! {

/// An event of the window, as far as the program tells them apart.
#[derive(Clone, Copy, PartialEq, Eq, Structural, Debug)]
pub enum Event {
    CloseRequested,
    RedrawRequested,
    Other,
}

/// What the program does on an event.
#[derive(Clone, Copy, PartialEq, Eq, Structural, Debug)]
pub enum Reaction {
    /// Leave the event loop.
    Exit,
    /// Draw a frame, and ask for the next one.
    DrawFrame,
    /// Nothing.
    Ignore,
}

/// Whether there is a window to draw in yet.
pub struct Session {
    open: bool,
}

impl Session {
    /// The window and what draws in it have been made.
    pub closed spec fn is_open(self) -> bool {
        self.open
    }

    /// A program that has no window yet.
    pub fn new() -> (r: Session)
        ensures
            !r.is_open(),
    {
        Session { open: false }
    }

    /// The window has been made.
    pub fn resumed(&mut self)
        ensures
            final(self).is_open(),
    {
        self.open = true;
    }

    /// Are events handed to the user interface first?
    pub fn forwards_events(&self) -> (r: bool)
        ensures
            r == self.is_open(),
    {
        self.open
    }

    /// What to do on an event.
    pub fn window_event(&self, event: Event) -> (r: Reaction)
        ensures
            r == match event {
                Event::CloseRequested => Reaction::Exit,
                Event::RedrawRequested => if self.is_open() {
                    Reaction::DrawFrame
                } else {
                    Reaction::Ignore
                },
                Event::Other => Reaction::Ignore,
            },
    {
        match event {
            Event::CloseRequested => Reaction::Exit,
            Event::RedrawRequested => if self.open {
                Reaction::DrawFrame
            } else {
                Reaction::Ignore
            },
            Event::Other => Reaction::Ignore,
        }
    }
}

} // verus!
