//! What the game and its host hand to each other.
use vstd::prelude::*;

verus! {

/// The services of the host.
pub trait HostApi {
    /// Writes `val` to the console.
    fn print(&self, val: &str);

    /// Writes `val` and a line break to the console.
    fn println(&self, val: &str);

    /// Shows the pixels of `buffer`, whose rows are `pitch` bytes long.
    fn update_canvas(&mut self, buffer: &[u8], pitch: usize);

    /// Fills the sound queue.
    fn generate_audio(&mut self);

    /// The bitmap in the file at `path`.
    fn load_bmp(&self, path: &str) -> Bitmap;
}

/// Which keys are down.
#[derive(Copy, Clone, Debug, PartialEq, Eq, Structural)]
pub struct InputState {
    pub up: bool,
    pub down: bool,
    pub left: bool,
    pub right: bool,
    pub sword: bool,
}

impl Default for InputState {
    fn default() -> (r: Self)
        ensures
            r == InputState::released(),
    {
        InputState { up: false, down: false, left: false, right: false, sword: false }
    }
}

impl InputState {
    /// No key down.
    pub open spec fn released() -> InputState {
        InputState { up: false, down: false, left: false, right: false, sword: false }
    }
}

/// The keys of the last frame and of this one, and the length of a frame
/// in seconds.
#[derive(Copy, Clone, Debug, PartialEq, Eq, Structural)]
pub struct Input {
    pub old: InputState,
    pub new: InputState,
    pub time_per_frame: i64,
}

/// A picture: rows of pixels of four bytes each, blue, green, red, alpha,
/// the bottom row first; and the point of the picture that is put on the
/// place of what it shows.
#[derive(Debug)]
pub struct Bitmap {
    pub align_x: u32,
    pub align_y: u32,
    pub width: usize,
    pub height: usize,
    pub pixels: Vec<u8>,
}

impl Bitmap {
    /// Whether the picture has four bytes for each of its pixels.
    pub open spec fn wf(&self) -> bool {
        self.pixels@.len() == self.width * self.height * 4
    }
}

} // verus!
