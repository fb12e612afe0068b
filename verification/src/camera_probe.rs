//! Counting the pixels an object covers in a probe frame.
use vstd::prelude::*;
use crate::shot::Shot;

verus! {

/// The green level above which a probe pixel belongs to the object.
pub const GREEN_THRESHOLD: u8 = 40;

/// How many of the first `n` pixels of row `y` are the object's.
pub open spec fn row_count(shot: &Shot, y: int, n: int) -> nat
    decreases n,
{
    if n <= 0 {
        0
    } else {
        row_count(shot, y, n - 1) + if shot.pixels@[shot.offset_of(n - 1, y) + 1]
            > GREEN_THRESHOLD {
            1nat
        } else {
            0nat
        }
    }
}

/// How many pixels of the first `rows` rows are the object's.
pub open spec fn grid_count(shot: &Shot, rows: int) -> nat
    decreases rows,
{
    if rows <= 0 {
        0
    } else {
        grid_count(shot, rows - 1) + row_count(shot, rows - 1, shot.width as int)
    }
}

proof fn lemma_count_bounds(shot: &Shot, y: int, n: int)
    requires
        0 <= n,
    ensures
        row_count(shot, y, n) <= n,
    decreases n,
{
    if n > 0 {
        lemma_count_bounds(shot, y, n - 1);
    }
}

proof fn lemma_grid_bounds(shot: &Shot, rows: int)
    requires
        0 <= rows,
    ensures
        grid_count(shot, rows) <= rows * shot.width,
    decreases rows,
{
    if rows > 0 {
        lemma_grid_bounds(shot, rows - 1);
        lemma_count_bounds(shot, rows - 1, shot.width as int);
        assert((rows - 1) * shot.width + shot.width == rows * shot.width) by (nonlinear_arith);
    }
}

/// How many pixels the object took: those whose green channel is above the
/// threshold. Zero means it is not visible.
pub fn visible_pixels(shot: &Shot) -> (count: u64)
    requires
        shot.height * shot.width * 4 <= u32::MAX,
        shot.height * shot.width * 4 <= shot.pixels@.len(),
    ensures
        count == grid_count(shot, shot.height as int),
{
    let mut count: u64 = 0;
    let mut y: u32 = 0;
    while y < shot.height
        invariant
            y <= shot.height,
            shot.height * shot.width * 4 <= u32::MAX,
            shot.height * shot.width * 4 <= shot.pixels@.len(),
            count == grid_count(shot, y as int),
            count <= y * shot.width,
        decreases shot.height - y,
    {
        let mut x: u32 = 0;
        proof {
            assert((y + 1) * shot.width <= shot.height * shot.width) by (nonlinear_arith)
                requires
                    y < shot.height,
            ;
        }
        while x < shot.width
            invariant
                y < shot.height,
                x <= shot.width,
                (y + 1) * shot.width <= shot.height * shot.width,
                shot.height * shot.width * 4 <= u32::MAX,
                shot.height * shot.width * 4 <= shot.pixels@.len(),
                count == grid_count(shot, y as int) + row_count(shot, y as int, x as int),
                count <= y * shot.width + x,
            decreases shot.width - x,
        {
            proof {
                assert(y * shot.width + x < (y + 1) * shot.width) by (nonlinear_arith)
                    requires
                        x < shot.width,
                ;
            }
            if shot.pixel(x, y)[1] > GREEN_THRESHOLD {
                count = count + 1;
            }
            x = x + 1;
        }
        proof {
            assert(y * shot.width + shot.width == (y + 1) * shot.width) by (nonlinear_arith);
        }
        y = y + 1;
    }
    count
}

} // verus!
