//! What an earlier host kept for the game.
use vstd::prelude::*;

verus! {

/// The pixels that the host shows.
#[derive(Debug)]
pub struct OffscreenBuffer {
    pub buffer: Vec<u8>,
}

/// The state of a game that draws a gradient.
#[derive(Debug)]
pub struct GameState {
    pub offscreen_buffer: OffscreenBuffer,
    pub blue_offset: usize,
    pub green_offset: usize,
}

} // verus!
