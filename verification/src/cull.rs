//! What of a patch set is drawn.
use vstd::prelude::*;

verus! {

/// How many `true` values the first `n` entries of `flags` hold.
pub open spec fn count_true(flags: Seq<bool>, n: int) -> nat
    decreases n,
{
    if n <= 0 {
        0
    } else {
        count_true(flags, n - 1) + if flags[n - 1] { 1nat } else { 0nat }
    }
}

/// What of the set is drawn, and why the rest is not.
pub struct Visibility {
    /// Parallel to the selection's patches.
    pub visible: Vec<bool>,
    /// How many patches the horizon removed.
    pub past_limb: usize,
    /// How many the frustum removed on top of the horizon.
    pub outside_frustum: usize,
}

impl Visibility {
    /// How many patches are drawn.
    pub fn drawn(&self) -> (count: usize)
        ensures
            count == count_true(self.visible@, self.visible@.len() as int),
    {
        let mut count: usize = 0;
        let mut k: usize = 0;
        while k < self.visible.len()
            invariant
                k <= self.visible@.len(),
                count == count_true(self.visible@, k as int),
                count <= k,
            decreases self.visible@.len() - k,
        {
            if self.visible[k] {
                count = count + 1;
            }
            k = k + 1;
        }
        count
    }
}

} // verus!
