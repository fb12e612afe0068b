//! The triangles of the placeholder ship's hull.
//!
//! The hull is its profile turned around the axis: `rings` rings of
//! `segments + 1` vertices each, one after another -- the seam closes by a
//! repeated vertex, not by an index that wraps round. Each segment between two
//! neighbouring rings is two triangles. Where the vertices lie is floating
//! point and is the caller's; which vertices make which triangle is here.
use vstd::prelude::*;

verus! {

/// Segments round the hull.
pub const SEGMENTS: u32 = 32;

/// The two triangles joining ring `i` to ring `i + 1` across segment `j`, for
/// rings of `segments + 1` vertices starting at vertex `base`.
pub open spec fn quad(base: int, segments: int, i: int, j: int) -> Seq<int> {
    let a = base + i * (segments + 1) + j;
    let b = a + segments + 1;
    seq![a, a + 1, b, a + 1, b + 1, b]
}

/// The triangles between ring `i` and ring `i + 1`, segments `0..m`.
pub open spec fn band(base: int, segments: int, i: int, m: int) -> Seq<int>
    decreases m,
{
    if m <= 0 {
        Seq::empty()
    } else {
        band(base, segments, i, m - 1) + quad(base, segments, i, m - 1)
    }
}

/// The triangles joining rings `0..=n`, ring after ring.
pub open spec fn hull_of(base: int, segments: int, n: int) -> Seq<int>
    decreases n,
{
    if n <= 0 {
        Seq::empty()
    } else {
        hull_of(base, segments, n - 1) + band(base, segments, n - 1, segments)
    }
}

/// The triangles of ring `i`'s band sit at `6 * j`, one segment after another.
proof fn lemma_band(base: int, segments: int, i: int, m: int)
    requires
        0 <= m,
    ensures
        band(base, segments, i, m).len() == 6 * m,
        forall|j: int, t: int|
            0 <= j < m && 0 <= t < 6 ==> #[trigger] band(base, segments, i, m)[6 * j + t] == quad(
                base,
                segments,
                i,
                j,
            )[t],
    decreases m,
{
    if m > 0 {
        lemma_band(base, segments, i, m - 1);
        assert forall|j: int, t: int| 0 <= j < m && 0 <= t < 6 implies #[trigger] band(
            base,
            segments,
            i,
            m,
        )[6 * j + t] == quad(base, segments, i, j)[t] by {
            if j < m - 1 {
                assert(band(base, segments, i, m - 1)[6 * j + t] == quad(base, segments, i, j)[t]);
            }
        }
    }
}

/// The triangles of band `i`, segment `j` sit at `6 * (i * segments + j)`.
proof fn lemma_hull_of(base: int, segments: int, n: int)
    requires
        0 <= n,
        0 <= segments,
    ensures
        hull_of(base, segments, n).len() == 6 * n * segments,
        forall|i: int, j: int, t: int|
            0 <= i < n && 0 <= j < segments && 0 <= t < 6 ==> #[trigger] hull_of(base, segments, n)[6
                * (i * segments + j) + t] == quad(base, segments, i, j)[t],
    decreases n,
{
    if n > 0 {
        lemma_hull_of(base, segments, n - 1);
        lemma_band(base, segments, n - 1, segments);
        let h = hull_of(base, segments, n - 1);
        let w = band(base, segments, n - 1, segments);
        assert(6 * n * segments == 6 * (n - 1) * segments + 6 * segments) by (nonlinear_arith);
        assert(hull_of(base, segments, n) == h + w);
        assert(hull_of(base, segments, n).len() == h.len() + w.len());
        assert forall|i: int, j: int, t: int|
            0 <= i < n && 0 <= j < segments && 0 <= t < 6 implies #[trigger] hull_of(
            base,
            segments,
            n,
        )[6 * (i * segments + j) + t] == quad(base, segments, i, j)[t] by {
            if i < n - 1 {
                assert(6 * (i * segments + j) + t < 6 * (n - 1) * segments) by (nonlinear_arith)
                    requires
                        0 <= i < n - 1,
                        0 <= j < segments,
                        0 <= t < 6,
                ;
                assert(h[6 * (i * segments + j) + t] == quad(base, segments, i, j)[t]);
            } else {
                assert(6 * (i * segments + j) + t == 6 * (n - 1) * segments + (6 * j + t))
                    by (nonlinear_arith)
                    requires
                        i == n - 1,
                ;
                assert(w[6 * j + t] == quad(base, segments, i, j)[t]);
            }
        }
    } else {
        assert(6 * n * segments == 0) by (nonlinear_arith)
            requires
                n == 0,
        ;
    }
}

/// The hull's indices, three per triangle, for `rings` rings of
/// `segments + 1` vertices starting at vertex `base`.
///
/// Every index is one of the hull's own vertices.
pub fn hull_indices(base: u32, rings: u32, segments: u32) -> (r: Vec<u32>)
    requires
        rings >= 1,
        base + rings * (segments + 1) <= u32::MAX,
    ensures
        r@.len() == (rings - 1) * segments * 6,
        forall|k: int|
            0 <= k < r@.len() ==> #[trigger] r@[k] == ({
                let i = k / (6 * segments);
                let j = k % (6 * segments) / 6;
                let t = k % (6 * segments) % 6;
                let a = base + i * (segments + 1) + j;
                let b = base + (i + 1) * (segments + 1) + j;
                if t == 0 {
                    a
                } else if t == 1 || t == 3 {
                    a + 1
                } else if t == 4 {
                    b + 1
                } else {
                    b
                }
            }),
        forall|k: int| 0 <= k < r@.len() ==> r@[k] == hull_of(base as int, segments as int, rings - 1)[k],
        forall|k: int| 0 <= k < r@.len() ==> base <= #[trigger] r@[k] < base + rings * (segments + 1),
{
    assert(segments + 1 <= base + rings * (segments + 1)) by (nonlinear_arith)
        requires
            rings >= 1,
    ;
    let stride: u32 = segments + 1;
    let ghost top: int = base + rings * stride;
    let mut out: Vec<u32> = Vec::new();
    let mut i: u32 = 0;
    let mut row: u32 = base;
    while i < rings - 1
        invariant
            rings >= 1,
            stride == segments + 1,
            top == base + rings * stride,
            top <= u32::MAX,
            i <= rings - 1,
            row == base + i * stride,
            out@.len() == i * (segments * 6),
            out@.len() == hull_of(base as int, segments as int, i as int).len(),
            forall|k: int| 0 <= k < out@.len() ==> out@[k] == hull_of(base as int, segments as int, i as int)[k],
            forall|k: int| 0 <= k < out@.len() ==> base <= #[trigger] out@[k] < top,
        decreases rings - 1 - i,
    {
        assert(row + 2 * stride <= top) by (nonlinear_arith)
            requires
                row == base + i * stride,
                i + 2 <= rings,
                top == base + rings * stride,
        ;
        let ghost start = out@;
        let mut j: u32 = 0;
        while j < segments
            invariant
                stride == segments + 1,
                top <= u32::MAX,
                row + 2 * stride <= top,
                row == base + i * stride,
                base <= row,
                j <= segments,
                out@.len() == start.len() + j * 6,
                start.len() == hull_of(base as int, segments as int, i as int).len(),
                forall|k: int| 0 <= k < start.len() ==> out@[k] == start[k],
                forall|k: int| 0 <= k < start.len() ==> start[k] == hull_of(base as int, segments as int, i as int)[k],
                forall|k: int|
                    0 <= k < j * 6 ==> out@[start.len() + k] == band(
                        base as int,
                        segments as int,
                        i as int,
                        j as int,
                    )[k],
                band(base as int, segments as int, i as int, j as int).len() == j * 6,
                forall|k: int| 0 <= k < out@.len() ==> base <= #[trigger] out@[k] < top,
            decreases segments - j,
        {
            let a = row + j;
            let b = a + stride;
            let ghost before = out@;
            out.push(a);
            out.push(a + 1);
            out.push(b);
            out.push(a + 1);
            out.push(b + 1);
            out.push(b);
            proof {
                let q = quad(base as int, segments as int, i as int, j as int);
                let next = band(base as int, segments as int, i as int, (j + 1) as int);
                assert(next == band(base as int, segments as int, i as int, j as int) + q);
                assert forall|k: int| 0 <= k < (j + 1) * 6 implies out@[start.len() + k] == next[k] by {
                    if k >= j * 6 {
                        let t = k - j * 6;
                        assert(out@[start.len() + k] == out@[before.len() + t]);
                    }
                }
            }
            j = j + 1;
        }
        proof {
            let h = hull_of(base as int, segments as int, (i + 1) as int);
            assert(h == hull_of(base as int, segments as int, i as int) + band(
                base as int,
                segments as int,
                i as int,
                segments as int,
            ));
            let g = hull_of(base as int, segments as int, i as int);
            let w = band(base as int, segments as int, i as int, segments as int);
            assert forall|k: int| 0 <= k < out@.len() implies out@[k] == h[k] by {
                if k < start.len() {
                    assert(out@[k] == start[k]);
                    assert(h[k] == g[k]);
                } else {
                    let t = k - start.len();
                    assert(out@[start.len() + t] == w[t]);
                    assert(h[k] == w[t]);
                }
            }
            assert((i + 1) * (segments * 6) == i * (segments * 6) + segments * 6) by (nonlinear_arith);
        }
        row = row + stride;
        i = i + 1;
        proof {
            assert(row == base + i * stride) by (nonlinear_arith)
                requires
                    row == base + (i - 1) * stride + stride,
            ;
        }
    }
    assert((rings - 1) * (segments * 6) == (rings - 1) * segments * 6) by (nonlinear_arith);
    proof {
        let n = rings - 1;
        let m = 6 * segments;
        lemma_hull_of(base as int, segments as int, n as int);
        assert forall|k: int| 0 <= k < out@.len() implies #[trigger] out@[k] == ({
            let i = k / (6 * segments);
            let j = k % (6 * segments) / 6;
            let t = k % (6 * segments) % 6;
            let a = base + i * (segments + 1) + j;
            let b = base + (i + 1) * (segments + 1) + j;
            if t == 0 {
                a
            } else if t == 1 || t == 3 {
                a + 1
            } else if t == 4 {
                b + 1
            } else {
                b
            }
        }) by {
            assert(segments > 0) by (nonlinear_arith)
                requires
                    0 <= k < n * (segments * 6),
            ;
            let i = k / m;
            let rem = k % m;
            let j = rem / 6;
            let t = rem % 6;
            vstd::arithmetic::div_mod::lemma_fundamental_div_mod(k, m as int);
            vstd::arithmetic::div_mod::lemma_fundamental_div_mod(rem, 6);
            assert(0 <= rem < m);
            assert(0 <= t < 6);
            assert(k == 6 * (i * segments + j) + t && 0 <= i < n && 0 <= j < segments) by (nonlinear_arith)
                requires
                    k == m * i + rem,
                    m == 6 * segments,
                    rem == 6 * j + t,
                    0 <= rem < m,
                    0 <= t < 6,
                    0 <= k < n * (segments * 6),
                    segments > 0,
            ;
            assert((i + 1) * (segments + 1) == i * (segments + 1) + segments + 1) by (nonlinear_arith);
            assert(out@[k] == quad(base as int, segments as int, i, j)[t]);
        }
    }
    out
}

} // verus!
