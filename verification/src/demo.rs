//! The captioned demo series.
use vstd::prelude::*;

verus! {

/// One demo frame: the file name and a caption of what is visible on it.
pub struct Picture {
    pub name: &'static str,
    pub caption: String,
}

} // verus!
