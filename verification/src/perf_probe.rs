//! What a frame-time measurement draws on top of the frame.
use vstd::prelude::*;

verus! {

/// The interface pass a measurement includes.
#[derive(Clone, Copy, PartialEq, Eq, Structural)]
pub enum Overlay {
    /// A frame with no interface pass.
    NoUi,
    /// The interface pass is there but empty: the price of the wiring itself.
    EmptyUi,
    /// The interface pass with a panel.
    Panel,
}

} // verus!
