//! Window settings.
use vstd::prelude::*;

verus! {

/// How the window is opened and how long it runs.
pub struct Options {
    pub width: u32,
    pub height: u32,
    /// How many frames to draw before exiting. `None` -- until closed.
    pub frames: Option<u32>,
    /// Wait for vertical sync.
    pub vsync: bool,
}

impl Default for Options {
    /// 1280 by 720, until closed, with vertical sync.
    fn default() -> (o: Self)
        ensures
            o.width == 1280,
            o.height == 720,
            o.frames is None,
            o.vsync,
    {
        Options { width: 1280, height: 720, frames: None, vsync: true }
    }
}

} // verus!
