//! The integer core of a cubesphere planet renderer: patch topology, level
//! balancing and stitching, and the bookkeeping around frames.
use vstd::prelude::*;

pub mod app;
pub mod camera_probe;
pub mod cli;
pub mod cubesphere;
pub mod cull;
pub mod demo;
pub mod frame;
pub mod lod;
pub mod mesh;
pub mod perf_probe;
pub mod scene;
pub mod ship;
pub mod shot;

verus! {

} // verus!
