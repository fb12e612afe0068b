//! What the renderer is told to draw, as far as it is not geometry.
use vstd::prelude::*;

verus! {

/// A terrain handle issued by the frame.
#[derive(Clone, Copy, Debug, PartialEq, Eq, Structural)]
pub struct TerrainId(pub usize);

/// Which tile set a body is drawn with.
///
/// `Smooth` is a choice of what to draw (a smooth sphere) rather than the
/// absence of a choice.
#[derive(Clone, Copy, Debug, PartialEq, Eq, Structural)]
pub enum TileSet {
    /// A smooth sphere without terrain.
    Smooth,
    /// Terrain already loaded into the frame, addressed by its handle.
    Loaded(TerrainId),
}

} // verus!
