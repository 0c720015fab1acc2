//! The keys: how an event of the host changes what is down.
use crate::host_api::{Input, InputState};
use vstd::prelude::*;

verus! {

/// A key that the game knows.
#[derive(Copy, Clone, Debug, PartialEq, Eq, Structural)]
pub enum Key {
    Up,
    Down,
    Left,
    Right,
    S,
}

/// An event of the host, as far as the keys go. The key is `None` for a
/// key that the game does not know.
#[derive(Copy, Clone, Debug, PartialEq, Eq, Structural)]
pub enum KeyEvent {
    KeyUp(Option<Key>),
    KeyDown(Option<Key>),
    Other,
}

/// `state` with the key `key` set to `down`.
pub open spec fn with_key(state: InputState, key: Key, down: bool) -> InputState {
    match key {
        Key::Up => InputState { up: down, ..state },
        Key::Down => InputState { down, ..state },
        Key::Left => InputState { left: down, ..state },
        Key::Right => InputState { right: down, ..state },
        Key::S => InputState { sword: down, ..state },
    }
}

/// The keys after the event: a known key that goes down is down, one that
/// comes up is not; any other event changes nothing.
pub open spec fn after_event(state: InputState, event: KeyEvent) -> InputState {
    match event {
        KeyEvent::KeyUp(Some(key)) => with_key(state, key, false),
        KeyEvent::KeyDown(Some(key)) => with_key(state, key, true),
        _ => state,
    }
}

/// Sets in `state` the key `key` to `down`.
pub fn set_key(state: &mut InputState, key: Key, down: bool)
    ensures
        *final(state) == with_key(*old(state), key, down),
{
    match key {
        Key::Up => {
            state.up = down;
        },
        Key::Down => {
            state.down = down;
        },
        Key::Left => {
            state.left = down;
        },
        Key::Right => {
            state.right = down;
        },
        Key::S => {
            state.sword = down;
        },
    }
}

/// Takes an event of the host into the keys of this frame.
pub fn update(input: &mut Input, event: &KeyEvent)
    ensures
        final(input).new == after_event(old(input).new, *event),
        final(input).old == old(input).old,
        final(input).time_per_frame == old(input).time_per_frame,
{
    match event {
        KeyEvent::KeyUp(keycode) => {
            match keycode {
                Some(key) => {
                    set_key(&mut input.new, *key, false);
                },
                None => {},
            }
        },
        KeyEvent::KeyDown(keycode) => {
            match keycode {
                Some(key) => {
                    set_key(&mut input.new, *key, true);
                },
                None => {},
            }
        },
        KeyEvent::Other => {},
    }
}

/// Ends a frame: the keys of this frame become those of the last one, and
/// the next frame starts from them.
pub fn swap(input: &mut Input)
    ensures
        final(input).old == old(input).new,
        final(input).new == old(input).new,
        final(input).time_per_frame == old(input).time_per_frame,
{
    input.old = input.new;
}

} // verus!
