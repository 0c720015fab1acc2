//! The keys of an earlier host: four directions, and no key ever comes up.
use crate::input::{Key, KeyEvent};
use vstd::prelude::*;

verus! {

/// Which direction keys are down.
#[derive(Copy, Clone, Debug, PartialEq, Eq, Structural)]
pub struct State {
    pub up: bool,
    pub down: bool,
    pub left: bool,
    pub right: bool,
}

impl Default for State {
    fn default() -> (r: Self)
        ensures
            r == (State { up: false, down: false, left: false, right: false }),
    {
        State { up: false, down: false, left: false, right: false }
    }
}

/// The keys of the last frame and of this one.
#[derive(Copy, Clone, Debug, PartialEq, Eq, Structural)]
pub struct Input {
    pub old: State,
    pub new: State,
}

impl Default for Input {
    fn default() -> (r: Self)
        ensures
            r.old == (State { up: false, down: false, left: false, right: false }),
            r.new == r.old,
    {
        Input { old: State::default(), new: State::default() }
    }
}

/// The keys after the event: a direction key that goes down is down; any
/// other event changes nothing.
pub open spec fn pressed(state: State, event: KeyEvent) -> State {
    match event {
        KeyEvent::KeyDown(Some(Key::Up)) => State { up: true, ..state },
        KeyEvent::KeyDown(Some(Key::Down)) => State { down: true, ..state },
        KeyEvent::KeyDown(Some(Key::Left)) => State { left: true, ..state },
        KeyEvent::KeyDown(Some(Key::Right)) => State { right: true, ..state },
        _ => state,
    }
}

impl Input {
    /// Ends a frame: the keys of this frame become those of the last one,
    /// and the next frame starts from them.
    pub fn swap(&mut self)
        ensures
            final(self).old == old(self).new,
            final(self).new == old(self).new,
    {
        self.old = self.new;
    }

    /// Takes an event of the host into the keys of this frame.
    pub fn update(&mut self, event: &KeyEvent)
        ensures
            final(self).new == pressed(old(self).new, *event),
            final(self).old == old(self).old,
    {
        match event {
            KeyEvent::KeyDown(keycode) => {
                match keycode {
                    Some(Key::Up) => {
                        self.new.up = true;
                    },
                    Some(Key::Down) => {
                        self.new.down = true;
                    },
                    Some(Key::Left) => {
                        self.new.left = true;
                    },
                    Some(Key::Right) => {
                        self.new.right = true;
                    },
                    _ => {},
                }
            },
            _ => {},
        }
    }
}

} // verus!
