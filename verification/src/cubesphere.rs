//! The cubesphere: a cube face projected onto a sphere, cut into patches.
//!
//! Every face is split into a quadtree of patches. A patch at `level` is one
//! cell of a `2^level` by `2^level` grid on its face. This module holds the
//! topology of that tree: parents, children, the same-level neighbour across
//! an edge (also across a cube edge, where the face changes), and the index
//! sets that stitch a patch to coarser neighbours.
//!
//! The geometry (`tan` warp, vertex positions, cones) is floating point and
//! lives outside this crate; everything here is exact integer arithmetic.
use vstd::prelude::*;

verus! {

/// How many faces a cube has.
pub const FACES: usize = 6;

/// How many segments per patch side, so `SIDE + 1` vertices each way.
pub const SIDE: usize = 32;

/// How many index sets exist: one per combination of four edges.
pub const MASKS: usize = 16;

/// The edges across which the neighbour is coarser, as [`Edge::bit`] bits.
pub type EdgeMask = u8;

/// A patch edge, named by the coordinate that is constant on it.
///
/// Edge `AMin` is the vertices `(0, b)`, `BMax` the vertices `(a, SIDE)`.
#[derive(Clone, Copy, Debug, PartialEq, Eq, Structural)]
pub enum Edge {
    AMin,
    AMax,
    BMin,
    BMax,
}

/// All four edges in a fixed order, so that traversal does not depend on the
/// call site.
pub const EDGES: [Edge; 4] = [Edge::AMin, Edge::AMax, Edge::BMin, Edge::BMax];

/// The edge at position `k` of [`EDGES`].
pub open spec fn edge_at(k: int) -> Edge {
    if k == 0 {
        Edge::AMin
    } else if k == 1 {
        Edge::AMax
    } else if k == 2 {
        Edge::BMin
    } else {
        Edge::BMax
    }
}

impl Edge {
    /// The mask bit of this edge.
    pub open spec fn bit_of(self) -> EdgeMask {
        match self {
            Edge::AMin => 1,
            Edge::AMax => 2,
            Edge::BMin => 4,
            Edge::BMax => 8,
        }
    }

    /// The opposite edge of the same patch.
    pub open spec fn opposite_of(self) -> Edge {
        match self {
            Edge::AMin => Edge::AMax,
            Edge::AMax => Edge::AMin,
            Edge::BMin => Edge::BMax,
            Edge::BMax => Edge::BMin,
        }
    }

    /// Whether the edge is crossed by moving along `a` (the `i` index).
    pub open spec fn is_along_a(self) -> bool {
        self is AMin || self is AMax
    }

    /// Whether crossing the edge increases the index.
    pub open spec fn is_positive(self) -> bool {
        self is AMax || self is BMax
    }

    pub fn bit(self) -> (b: EdgeMask)
        ensures
            b == self.bit_of(),
    {
        match self {
            Edge::AMin => 1,
            Edge::AMax => 2,
            Edge::BMin => 4,
            Edge::BMax => 8,
        }
    }

    /// The opposite edge of the same patch.
    pub fn opposite(self) -> (e: Edge)
        ensures
            e == self.opposite_of(),
    {
        match self {
            Edge::AMin => Edge::AMax,
            Edge::AMax => Edge::AMin,
            Edge::BMin => Edge::BMax,
            Edge::BMax => Edge::BMin,
        }
    }

    pub fn along_a(self) -> (r: bool)
        ensures
            r == self.is_along_a(),
    {
        matches!(self, Edge::AMin | Edge::AMax)
    }

    pub fn positive(self) -> (r: bool)
        ensures
            r == self.is_positive(),
    {
        matches!(self, Edge::AMax | Edge::BMax)
    }
}

/// Each edge has its own bit, the opposite of the opposite is the edge itself,
/// and opposite edges share their axis and differ in direction.
pub proof fn lemma_edge_laws(e: Edge)
    ensures
        e.opposite_of().opposite_of() == e,
        e.opposite_of() != e,
        e.opposite_of().is_along_a() == e.is_along_a(),
        e.opposite_of().is_positive() != e.is_positive(),
        forall|f: Edge| f != e ==> f.bit_of() != e.bit_of(),
        e.bit_of() == 1 || e.bit_of() == 2 || e.bit_of() == 4 || e.bit_of() == 8,
{
}

/// The number of patches along a face side at `level`: `2^level`.
pub open spec fn span(level: nat) -> nat
    decreases level,
{
    if level == 0 {
        1
    } else {
        2 * span((level - 1) as nat)
    }
}

pub proof fn lemma_span_monotone(a: nat, b: nat)
    requires
        a <= b,
    ensures
        1 <= span(a) <= span(b),
    decreases b,
{
    if b > a {
        lemma_span_monotone(a, (b - 1) as nat);
    } else if a > 0 {
        lemma_span_monotone((a - 1) as nat, (a - 1) as nat);
    }
}

pub proof fn lemma_span_32()
    ensures
        span(32) == 0x1_0000_0000,
{
    reveal_with_fuel(span, 33);
}

/// `2^level` as a machine word.
pub fn span_of(level: u32) -> (s: u64)
    requires
        level <= 32,
    ensures
        s == span(level as nat),
{
    proof {
        lemma_span_32();
        lemma_span_monotone(level as nat, 32);
    }
    let mut s: u64 = 1;
    let mut k: u32 = 0;
    while k < level
        invariant
            k <= level <= 32,
            s == span(k as nat),
            span(level as nat) <= 0x1_0000_0000,
        decreases level - k,
    {
        proof {
            lemma_span_monotone((k + 1) as nat, level as nat);
        }
        s = s * 2;
        k = k + 1;
    }
    s
}


/// A patch: a quarter, a sixteenth, ... of a cube face, depending on the level.
#[derive(Clone, Copy, Debug, PartialEq, Eq, Hash, Structural)]
pub struct Patch {
    pub face: usize,
    /// How many times the face has been halved: 0 is the whole face.
    pub level: u32,
    /// The patch's indices on the face, both from 0 to `2^level - 1`.
    pub i: u32,
    pub j: u32,
}

/// The neighbour across an edge: the patch itself and **its** edge that
/// touches us.
#[derive(Clone, Copy, Debug, PartialEq, Eq, Structural)]
pub struct Neighbour {
    pub patch: Patch,
    pub edge: Edge,
}

/// A face's axes: which `[x, y, z]` slots `u`, `v` and the fixed coordinate go
/// into, and whether the fixed one is `+1` or `-1`.
#[derive(Clone, Copy, Debug, PartialEq, Eq, Structural)]
pub struct Axes {
    pub u: usize,
    pub v: usize,
    pub w: usize,
    pub positive: bool,
}

/// The axis table: `+X`, `-X`, `+Y`, `-Y`, `+Z`, `-Z`.
pub open spec fn axes_of(face: nat) -> Axes {
    if face == 0 {
        Axes { u: 1, v: 2, w: 0, positive: true }
    } else if face == 1 {
        Axes { u: 1, v: 2, w: 0, positive: false }
    } else if face == 2 {
        Axes { u: 0, v: 2, w: 1, positive: true }
    } else if face == 3 {
        Axes { u: 0, v: 2, w: 1, positive: false }
    } else if face == 4 {
        Axes { u: 0, v: 1, w: 2, positive: true }
    } else {
        Axes { u: 0, v: 1, w: 2, positive: false }
    }
}

/// The face whose fixed axis is `axis` with the given sign.
pub open spec fn face_fixing(axis: nat, positive: bool) -> nat {
    2 * axis + if positive { 0nat } else { 1nat }
}

/// The axis table as a function.
pub fn axes(face: usize) -> (a: Axes)
    requires
        face < FACES,
    ensures
        a == axes_of(face as nat),
{
    if face == 0 {
        Axes { u: 1, v: 2, w: 0, positive: true }
    } else if face == 1 {
        Axes { u: 1, v: 2, w: 0, positive: false }
    } else if face == 2 {
        Axes { u: 0, v: 2, w: 1, positive: true }
    } else if face == 3 {
        Axes { u: 0, v: 2, w: 1, positive: false }
    } else if face == 4 {
        Axes { u: 0, v: 1, w: 2, positive: true }
    } else {
        Axes { u: 0, v: 1, w: 2, positive: false }
    }
}

/// Exactly one face has a given fixed axis and sign, and that is
/// [`face_fixing`].
pub proof fn lemma_face_fixing(axis: nat, positive: bool)
    requires
        axis < 3,
    ensures
        face_fixing(axis, positive) < FACES,
        axes_of(face_fixing(axis, positive)).w == axis,
        axes_of(face_fixing(axis, positive)).positive == positive,
        forall|f: nat|
            f < FACES && axes_of(f).w == axis && axes_of(f).positive == positive ==> f
                == face_fixing(axis, positive),
{
}

impl Patch {
    /// A patch that exists: a face of the cube, a level whose grid fits in
    /// the index type, and indices inside that grid.
    pub open spec fn wf(self) -> bool {
        &&& self.face < FACES
        &&& self.level <= 32
        &&& self.i < span(self.level as nat)
        &&& self.j < span(self.level as nat)
    }

    /// One level coarser (meaningful for `level > 0`).
    pub open spec fn parent_of(self) -> Patch {
        Patch { face: self.face, level: (self.level - 1) as u32, i: self.i / 2, j: self.j / 2 }
    }

    /// The child `k` in the fixed order `(0, 0), (0, 1), (1, 0), (1, 1)`.
    pub open spec fn child_at(self, k: int) -> Patch {
        Patch {
            face: self.face,
            level: (self.level + 1) as u32,
            i: (2 * self.i + k / 2) as u32,
            j: (2 * self.j + k % 2) as u32,
        }
    }

    /// The patch covering this one at `level` (itself when `level` is not
    /// coarser).
    pub open spec fn ancestor_at(self, level: nat) -> Patch
        decreases self.level,
    {
        if self.level <= level || self.level == 0 {
            self
        } else {
            self.parent_of().ancestor_at(level)
        }
    }

    /// `self` lies inside `p` (or is `p`).
    pub open spec fn descends_from(self, p: Patch) -> bool {
        p.level <= self.level && self.ancestor_at(p.level as nat) == p
    }

    /// The root patch of a face: the whole face.
    pub open spec fn root(face: nat) -> Patch {
        Patch { face: face as usize, level: 0, i: 0, j: 0 }
    }

    /// How many nodes per face side at this level.
    pub open spec fn face_nodes_of(level: nat) -> nat {
        SIDE as nat * span(level)
    }

    /// How many nodes per face side at this level.
    pub fn face_nodes(level: u32) -> (n: usize)
        requires
            Self::face_nodes_of(level as nat) <= usize::MAX,
        ensures
            n == Self::face_nodes_of(level as nat),
    {
        let mut n: usize = SIDE;
        let mut k: u32 = 0;
        proof {
            lemma_span_monotone(0, level as nat);
        }
        while k < level
            invariant
                k <= level,
                n == SIDE * span(k as nat),
                Self::face_nodes_of(level as nat) <= usize::MAX,
            decreases level - k,
        {
            proof {
                lemma_span_monotone((k + 1) as nat, level as nat);
            }
            n = n * 2;
            k = k + 1;
        }
        n
    }

    /// This patch's node `(a, b)` in the whole face's coordinates.
    pub fn node(&self, a: usize, b: usize) -> (n: (usize, usize))
        requires
            self.i * SIDE + a <= usize::MAX,
            self.j * SIDE + b <= usize::MAX,
        ensures
            n.0 == self.i * SIDE + a,
            n.1 == self.j * SIDE + b,
    {
        (self.i as usize * SIDE + a, self.j as usize * SIDE + b)
    }

    /// The patch covering this one -- that is, one level coarser.
    ///
    /// Level zero has no parent: a cube face is nested in nothing.
    pub fn parent(&self) -> (p: Option<Patch>)
        ensures
            p == (if self.level == 0 { None } else { Some(self.parent_of()) }),
    {
        if self.level == 0 {
            return None;
        }
        Some(Patch { face: self.face, level: self.level - 1, i: self.i / 2, j: self.j / 2 })
    }

    /// The four children in a fixed order -- the same one as in the
    /// level-selection traversal.
    pub fn children(&self) -> (c: [Patch; 4])
        requires
            self.level < u32::MAX,
            2 * self.i + 1 <= u32::MAX,
            2 * self.j + 1 <= u32::MAX,
        ensures
            forall|k: int| 0 <= k < 4 ==> c@[k] == self.child_at(k),
    {
        let c = [
            Patch { face: self.face, level: self.level + 1, i: self.i * 2, j: self.j * 2 },
            Patch { face: self.face, level: self.level + 1, i: self.i * 2, j: self.j * 2 + 1 },
            Patch { face: self.face, level: self.level + 1, i: self.i * 2 + 1, j: self.j * 2 },
            Patch { face: self.face, level: self.level + 1, i: self.i * 2 + 1, j: self.j * 2 + 1 },
        ];
        assert(c@[0] == self.child_at(0));
        assert(c@[1] == self.child_at(1));
        assert(c@[2] == self.child_at(2));
        assert(c@[3] == self.child_at(3));
        c
    }
}


impl Patch {
    /// The same-level neighbour across `edge`.
    ///
    /// Inside the face it is the adjacent cell, touching us with the opposite
    /// edge. Past the face boundary the axis table decides: leaving through
    /// slot `exit` means arriving on the face that fixes that slot with the
    /// same sign; the index along the shared edge carries over unchanged, and
    /// the former fixed axis pins the patch to the near or far row of the new
    /// face.
    pub open spec fn neighbour_of(self, edge: Edge) -> Neighbour {
        let side = span(self.level as nat) as int;
        let ni: int = match edge {
            Edge::AMin => self.i - 1,
            Edge::AMax => self.i + 1,
            _ => self.i as int,
        };
        let nj: int = match edge {
            Edge::BMin => self.j - 1,
            Edge::BMax => self.j + 1,
            _ => self.j as int,
        };
        if 0 <= ni < side && 0 <= nj < side {
            Neighbour {
                patch: Patch { face: self.face, level: self.level, i: ni as u32, j: nj as u32 },
                edge: edge.opposite_of(),
            }
        } else {
            let axes = axes_of(self.face as nat);
            let exit = if edge.is_along_a() { axes.u } else { axes.v };
            let keep = if edge.is_along_a() { axes.v } else { axes.u };
            let along = if edge.is_along_a() { self.j } else { self.i };
            let far = face_fixing(exit as nat, edge.is_positive());
            let outer = axes.positive;
            let pinned: int = if outer { side - 1 } else { 0 };
            if axes_of(far).u == keep {
                Neighbour {
                    patch: Patch { face: far as usize, level: self.level, i: along, j: pinned as u32 },
                    edge: if outer { Edge::BMax } else { Edge::BMin },
                }
            } else {
                Neighbour {
                    patch: Patch { face: far as usize, level: self.level, i: pinned as u32, j: along },
                    edge: if outer { Edge::AMax } else { Edge::AMin },
                }
            }
        }
    }

    /// The index along `edge`: the coordinate that does not change when the
    /// edge is crossed.
    pub open spec fn along_index(self, edge: Edge) -> u32 {
        if edge.is_along_a() { self.j } else { self.i }
    }

    /// The node one step past `edge`, in the neighbour: the neighbouring patch
    /// and the node `(a, b)` in its own grid.
    pub open spec fn halo_node_of(self, edge: Edge, along: usize) -> (Patch, usize, usize) {
        let n = self.neighbour_of(edge);
        let (a, b) = match n.edge {
            Edge::AMin => (1usize, along),
            Edge::AMax => ((SIDE - 1) as usize, along),
            Edge::BMin => (along, 1usize),
            Edge::BMax => (along, (SIDE - 1) as usize),
        };
        (n.patch, a, b)
    }

    /// The same-level neighbour across a given edge.
    ///
    /// There is no face-to-face table here: the neighbour across a cube edge
    /// is derived from the axis table, the same one the vertices come from, so
    /// the two have nowhere to diverge. The index along a shared edge is never
    /// reversed (see [`lemma_neighbour_keeps_along_index`]).
    pub fn neighbour(&self, edge: Edge) -> (n: Neighbour)
        requires
            self.wf(),
        ensures
            n == self.neighbour_of(edge),
            n.patch.wf(),
            n.patch.level == self.level,
    {
        proof {
            lemma_span_32();
            lemma_span_monotone(self.level as nat, 32);
        }
        let side = span_of(self.level);
        let i = self.i as u64;
        let j = self.j as u64;
        let inside = match edge {
            Edge::AMin => i > 0,
            Edge::AMax => i + 1 < side,
            Edge::BMin => j > 0,
            Edge::BMax => j + 1 < side,
        };
        if inside {
            let (ni, nj) = match edge {
                Edge::AMin => (i - 1, j),
                Edge::AMax => (i + 1, j),
                Edge::BMin => (i, j - 1),
                Edge::BMax => (i, j + 1),
            };
            return Neighbour {
                patch: Patch { face: self.face, level: self.level, i: ni as u32, j: nj as u32 },
                edge: edge.opposite(),
            };
        }
        let own = axes(self.face);
        // The slot that hits +-1, and the slot that stays moving.
        let exit = if edge.along_a() { own.u } else { own.v };
        let keep = if edge.along_a() { own.v } else { own.u };
        let along = if edge.along_a() { self.j } else { self.i };
        let positive = edge.positive();

        proof {
            lemma_face_fixing(exit as nat, positive);
        }
        let mut far: usize = 0;
        while !(axes(far).w == exit && axes(far).positive == positive)
            invariant
                far <= face_fixing(exit as nat, positive),
                exit < 3,
                face_fixing(exit as nat, positive) < FACES,
                axes_of(face_fixing(exit as nat, positive)).w == exit,
                axes_of(face_fixing(exit as nat, positive)).positive == positive,
                forall|f: nat|
                    f < FACES && axes_of(f).w == exit && axes_of(f).positive == positive ==> f
                        == face_fixing(exit as nat, positive),
            decreases face_fixing(exit as nat, positive) - far,
        {
            far = far + 1;
        }
        // The former fixed axis became moving: `+1` is the far edge of the
        // grid.
        let outer = own.positive;
        let pinned: u64 = if outer { side - 1 } else { 0 };

        if axes(far).u == keep {
            Neighbour {
                patch: Patch { face: far, level: self.level, i: along, j: pinned as u32 },
                edge: if outer { Edge::BMax } else { Edge::BMin },
            }
        } else {
            Neighbour {
                patch: Patch { face: far, level: self.level, i: pinned as u32, j: along },
                edge: if outer { Edge::AMax } else { Edge::AMin },
            }
        }
    }

    /// The node lying one step past the edge of the patch across a given edge
    /// -- in the neighbour.
    ///
    /// `along` is the index along the shared edge, from 0 to `SIDE`; it is not
    /// reversed across the edge.
    pub fn halo_node(&self, edge: Edge, along: usize) -> (h: (Patch, usize, usize))
        requires
            self.wf(),
        ensures
            h == self.halo_node_of(edge, along),
            h.0.wf(),
    {
        let neighbour = self.neighbour(edge);
        let (a, b) = match neighbour.edge {
            Edge::AMin => (1, along),
            Edge::AMax => (SIDE - 1, along),
            Edge::BMin => (along, 1),
            Edge::BMax => (along, SIDE - 1),
        };
        (neighbour.patch, a, b)
    }
}

/// Crossing an edge and crossing back by the edge the neighbour reports
/// returns to the same patch and the same edge.
pub proof fn lemma_neighbour_round_trip(p: Patch, edge: Edge)
    requires
        p.wf(),
    ensures
        p.neighbour_of(edge).patch.wf(),
        p.neighbour_of(edge).patch.level == p.level,
        p.neighbour_of(edge).patch.neighbour_of(p.neighbour_of(edge).edge) == (Neighbour {
            patch: p,
            edge,
        }),
{
    lemma_span_monotone(0, p.level as nat);
    let n = p.neighbour_of(edge);
    let side = span(p.level as nat);
    lemma_span_32();
    lemma_span_monotone(p.level as nat, 32);
    assert(side >= 1);
    assert((side - 1) as u32 == side - 1);
    assert(p.i > 0 ==> (p.i - 1) as u32 == p.i - 1);
    assert(p.j > 0 ==> (p.j - 1) as u32 == p.j - 1);
    assert(p.i + 1 < side ==> (p.i + 1) as u32 == p.i + 1);
    assert(p.j + 1 < side ==> (p.j + 1) as u32 == p.j + 1);
    let goal = n.patch.neighbour_of(n.edge) == (Neighbour { patch: p, edge });
    match edge {
        Edge::AMin => {
            if p.i > 0 {
            } else if p.face == 0 { assert(goal); } else if p.face == 1 { assert(goal); }
            else if p.face == 2 { assert(goal); } else if p.face == 3 { assert(goal); }
            else if p.face == 4 { assert(goal); } else { assert(goal); }
        },
        Edge::AMax => {
            if p.i + 1 < side {
            } else if p.face == 0 { assert(goal); } else if p.face == 1 { assert(goal); }
            else if p.face == 2 { assert(goal); } else if p.face == 3 { assert(goal); }
            else if p.face == 4 { assert(goal); } else { assert(goal); }
        },
        Edge::BMin => {
            if p.j > 0 {
            } else if p.face == 0 { assert(goal); } else if p.face == 1 { assert(goal); }
            else if p.face == 2 { assert(goal); } else if p.face == 3 { assert(goal); }
            else if p.face == 4 { assert(goal); } else { assert(goal); }
        },
        Edge::BMax => {
            if p.j + 1 < side {
            } else if p.face == 0 { assert(goal); } else if p.face == 1 { assert(goal); }
            else if p.face == 2 { assert(goal); } else if p.face == 3 { assert(goal); }
            else if p.face == 4 { assert(goal); } else { assert(goal); }
        },
    }
}

/// The index along a shared edge is never reversed: node `k` on our side is
/// node `k` on theirs.
pub proof fn lemma_neighbour_keeps_along_index(p: Patch, edge: Edge)
    requires
        p.wf(),
    ensures
        p.neighbour_of(edge).patch.along_index(p.neighbour_of(edge).edge) == p.along_index(edge),
{
}


/// Whether `mask` marks `edge` as stitched to a coarser neighbour.
pub open spec fn stitched(mask: EdgeMask, edge: Edge) -> bool {
    mask & edge.bit_of() != 0
}

/// The node that stands for node `(a, b)` of a patch grid under `mask`: an
/// odd node on a stitched edge does not exist, and the even node before it
/// stands in its place.
pub open spec fn stitched_node(mask: EdgeMask, a: int, b: int) -> (int, int) {
    let odd_on_b_edge = a % 2 == 1 && ((b == 0 && stitched(mask, Edge::BMin)) || (b == SIDE
        && stitched(mask, Edge::BMax)));
    let odd_on_a_edge = b % 2 == 1 && ((a == 0 && stitched(mask, Edge::AMin)) || (a == SIDE
        && stitched(mask, Edge::AMax)));
    (if odd_on_b_edge { a - 1 } else { a }, if odd_on_a_edge { b - 1 } else { b })
}

/// The vertex index of node `(a, b)` under `mask`, rows of constant `a`.
pub open spec fn node_index(mask: EdgeMask, a: int, b: int) -> int {
    let (a, b) = stitched_node(mask, a, b);
    a * (SIDE + 1) + b
}

/// Corner `k` of the six that cell `(a, b)` contributes: two triangles,
/// `v00 v10 v01` and `v01 v10 v11`.
pub open spec fn cell_corner(mask: EdgeMask, a: int, b: int, k: int) -> int {
    if k == 0 {
        node_index(mask, a, b)
    } else if k == 1 || k == 4 {
        node_index(mask, a + 1, b)
    } else if k == 2 || k == 3 {
        node_index(mask, a, b + 1)
    } else {
        node_index(mask, a + 1, b + 1)
    }
}

fn node_index_of(mask: EdgeMask, a: usize, b: usize) -> (n: u32)
    requires
        a <= SIDE,
        b <= SIDE,
    ensures
        n == node_index(mask, a as int, b as int),
        n < (SIDE + 1) * (SIDE + 1),
{
    let stride = (SIDE + 1) as u32;
    let odd_on_b_edge = a % 2 == 1 && ((b == 0 && mask & Edge::BMin.bit() != 0) || (b == SIDE
        && mask & Edge::BMax.bit() != 0));
    let odd_on_a_edge = b % 2 == 1 && ((a == 0 && mask & Edge::AMin.bit() != 0) || (a == SIDE
        && mask & Edge::AMax.bit() != 0));
    let a = if odd_on_b_edge { a - 1 } else { a };
    let b = if odd_on_a_edge { b - 1 } else { b };
    a as u32 * stride + b as u32
}

/// A patch's indices, stitched to coarser neighbours by an edge mask.
///
/// On an edge whose neighbour is coarser the neighbour provides only the
/// even nodes; an odd node there is replaced by the even node before it.
/// The edge then becomes exactly the neighbour's chord, each cell on it
/// gives one degenerate triangle, and the patch corners -- even in both
/// indices -- are never substituted.
pub fn indices(mask: EdgeMask) -> (r: Vec<u32>)
    ensures
        r@.len() == SIDE * SIDE * 6,
        forall|a: int, b: int, k: int|
            0 <= a < SIDE && 0 <= b < SIDE && 0 <= k < 6 ==> r@[(a * SIDE + b) * 6 + k]
                == cell_corner(mask, a, b, k),
{
    let mut indices: Vec<u32> = Vec::new();
    let mut a: usize = 0;
    while a < SIDE
        invariant
            a <= SIDE,
            indices@.len() == a * SIDE * 6,
            forall|x: int, y: int, k: int|
                0 <= x < a && 0 <= y < SIDE && 0 <= k < 6 ==> indices@[(x * SIDE + y) * 6 + k]
                    == cell_corner(mask, x, y, k),
        decreases SIDE - a,
    {
        let mut b: usize = 0;
        while b < SIDE
            invariant
                a < SIDE,
                b <= SIDE,
                indices@.len() == (a * SIDE + b) * 6,
                forall|x: int, y: int, k: int|
                    0 <= x < SIDE && 0 <= y < SIDE && 0 <= k < 6 && x * SIDE + y < a * SIDE + b
                        ==> indices@[(x * SIDE + y) * 6 + k] == cell_corner(mask, x, y, k),
            decreases SIDE - b,
        {
            let v00 = node_index_of(mask, a, b);
            let v01 = node_index_of(mask, a, b + 1);
            let v10 = node_index_of(mask, a + 1, b);
            let v11 = node_index_of(mask, a + 1, b + 1);
            let ghost before = indices@;
            indices.push(v00);
            indices.push(v10);
            indices.push(v01);
            indices.push(v01);
            indices.push(v10);
            indices.push(v11);
            assert forall|x: int, y: int, k: int|
                0 <= x < SIDE && 0 <= y < SIDE && 0 <= k < 6 && x * SIDE + y < a * SIDE + b
                    + 1 implies indices@[(x * SIDE + y) * 6 + k] == cell_corner(mask, x, y, k) by {
                if x * SIDE + y < a * SIDE + b {
                    assert(indices@[(x * SIDE + y) * 6 + k] == before[(x * SIDE + y) * 6 + k]);
                } else {
                    assert(x == a && y == b);
                }
            }
            b = b + 1;
        }
        assert forall|x: int, y: int, k: int|
            0 <= x < a + 1 && 0 <= y < SIDE && 0 <= k < 6 implies indices@[(x * SIDE + y) * 6
                + k] == cell_corner(mask, x, y, k) by {
            assert(x * SIDE + y < a * SIDE + SIDE);
        }
        a = a + 1;
    }
    indices
}

/// The substitution moves a node at most one step back along its own edge,
/// only on a stitched edge and only from an odd position, so a stitched edge
/// shows only even nodes, a corner is never moved, and every index stays
/// inside the `(SIDE + 1)^2` grid.
pub proof fn lemma_stitched_node(mask: EdgeMask, a: int, b: int)
    requires
        0 <= a <= SIDE,
        0 <= b <= SIDE,
    ensures
        ({
            let (a2, b2) = stitched_node(mask, a, b);
            &&& 0 <= a2 <= a && a - a2 <= 1
            &&& 0 <= b2 <= b && b - b2 <= 1
            &&& (b == 0 && stitched(mask, Edge::BMin)) ==> a2 % 2 == 0 && b2 == b
            &&& (b == SIDE && stitched(mask, Edge::BMax)) ==> a2 % 2 == 0 && b2 == b
            &&& (a == 0 && stitched(mask, Edge::AMin)) ==> b2 % 2 == 0 && a2 == a
            &&& (a == SIDE && stitched(mask, Edge::AMax)) ==> b2 % 2 == 0 && a2 == a
            &&& (a % 2 == 0 && b % 2 == 0) ==> a2 == a && b2 == b
            &&& mask == 0 ==> a2 == a && b2 == b
        }),
        0 <= node_index(mask, a, b) < (SIDE + 1) * (SIDE + 1),
{
    assert(0u8 & 1u8 == 0 && 0u8 & 2u8 == 0 && 0u8 & 4u8 == 0 && 0u8 & 8u8 == 0) by (bit_vector);
}


impl Patch {
    /// An integer that names the patch: face, level, `i` and `j` side by side,
    /// 32 bits each.
    pub open spec fn key_of(self) -> int {
        ((self.face * 0x1_0000_0000 + self.level) * 0x1_0000_0000 + self.i) * 0x1_0000_0000
            + self.j
    }

    /// The patch's name as a machine word, for hashing.
    pub fn key(&self) -> (k: u128)
        requires
            self.face < FACES,
        ensures
            k == self.key_of(),
    {
        ((self.face as u128 * 0x1_0000_0000 + self.level as u128) * 0x1_0000_0000
            + self.i as u128) * 0x1_0000_0000 + self.j as u128
    }
}

proof fn lemma_split_word(x: int, r: int, y: int, t: int)
    requires
        0 <= r < 0x1_0000_0000,
        0 <= t < 0x1_0000_0000,
        x * 0x1_0000_0000 + r == y * 0x1_0000_0000 + t,
    ensures
        x == y,
        r == t,
{
    let k = x * 0x1_0000_0000 + r;
    vstd::arithmetic::div_mod::lemma_fundamental_div_mod_converse(k, 0x1_0000_0000, x, r);
    vstd::arithmetic::div_mod::lemma_fundamental_div_mod_converse(k, 0x1_0000_0000, y, t);
}

/// Different patches have different names.
pub proof fn lemma_key_injective(p: Patch, q: Patch)
    requires
        p.face < FACES,
        q.face < FACES,
        p.key_of() == q.key_of(),
    ensures
        p == q,
{
    let b: int = 0x1_0000_0000;
    lemma_split_word(
        (p.face * b + p.level) * b + p.i,
        p.j as int,
        (q.face * b + q.level) * b + q.i,
        q.j as int,
    );
    lemma_split_word(p.face * b + p.level, p.i as int, q.face * b + q.level, q.i as int);
    lemma_split_word(p.face as int, p.level as int, q.face as int, q.level as int);
}

/// A name fits in 128 bits.
pub proof fn lemma_key_bounds(p: Patch)
    requires
        p.face < FACES,
    ensures
        0 <= p.key_of() < 0x1_0000_0000_0000_0000_0000_0000_0000_0000,
{
}

/// The ancestor of a patch at a coarser level exists, lies on the same face,
/// and has exactly that level.
pub proof fn lemma_ancestor_at(p: Patch, level: nat)
    requires
        p.wf(),
        level <= p.level,
    ensures
        p.ancestor_at(level).wf(),
        p.ancestor_at(level).level == level,
        p.ancestor_at(level).face == p.face,
        p.descends_from(p.ancestor_at(level)),
    decreases p.level,
{
    if p.level > level {
        lemma_parent_wf(p);
        lemma_ancestor_at(p.parent_of(), level);
        lemma_ancestor_compose(p, level, level);
    }
}

/// The parent of a patch exists.
pub proof fn lemma_parent_wf(p: Patch)
    requires
        p.wf(),
        p.level > 0,
    ensures
        p.parent_of().wf(),
        p.parent_of().level == p.level - 1,
{
}

/// Going up `p.level - m` levels and then further to `l` is going up to `l`.
pub proof fn lemma_ancestor_compose(p: Patch, m: nat, l: nat)
    requires
        p.wf(),
        l <= m <= p.level,
    ensures
        p.ancestor_at(m).ancestor_at(l) == p.ancestor_at(l),
    decreases p.level,
{
    if p.level > m {
        lemma_parent_wf(p);
        lemma_ancestor_compose(p.parent_of(), m, l);
    } else {
        assert(p.ancestor_at(m) == p);
    }
}

/// Every patch descends from itself.
pub proof fn lemma_descends_refl(p: Patch)
    ensures
        p.descends_from(p),
{
}

/// Descent is transitive.
pub proof fn lemma_descends_trans(r: Patch, q: Patch, p: Patch)
    requires
        r.wf(),
        r.descends_from(q),
        q.descends_from(p),
    ensures
        r.descends_from(p),
{
    lemma_ancestor_compose(r, q.level as nat, p.level as nat);
}

/// Two patches that both contain a third are nested one in the other.
pub proof fn lemma_descends_comparable(c: Patch, a: Patch, b: Patch)
    requires
        c.wf(),
        c.descends_from(a),
        c.descends_from(b),
        a.level <= b.level,
    ensures
        b.descends_from(a),
{
    lemma_ancestor_compose(c, b.level as nat, a.level as nat);
}

/// A patch that descends from another of the same level is that patch.
pub proof fn lemma_descends_same_level(q: Patch, p: Patch)
    requires
        q.descends_from(p),
        q.level == p.level,
    ensures
        q == p,
{
}

/// The children of a patch exist, are one level finer, have it as their
/// parent, descend from it, and are pairwise different.
pub proof fn lemma_children(p: Patch)
    requires
        p.wf(),
        p.level < 32,
    ensures
        forall|k: int|
            #![trigger p.child_at(k)]
            0 <= k < 4 ==> {
                &&& p.child_at(k).wf()
                &&& p.child_at(k).level == p.level + 1
                &&& p.child_at(k).face == p.face
                &&& p.child_at(k).parent_of() == p
                &&& p.child_at(k).descends_from(p)
            },
        forall|k1: int, k2: int|
            0 <= k1 < 4 && 0 <= k2 < 4 && k1 != k2 ==> p.child_at(k1) != p.child_at(k2),
{
    lemma_span_32();
    lemma_span_monotone(p.level as nat, 31);
    assert(span(31) == 0x8000_0000);
    assert(p.i < 0x8000_0000 && p.j < 0x8000_0000);
    assert forall|k: int| 0 <= k < 4 implies #[trigger] p.child_at(k).i == 2 * p.i + k / 2
        && p.child_at(k).j == 2 * p.j + k % 2 by {
        assert((2 * p.i + k / 2) as u32 == 2 * p.i + k / 2);
        assert((2 * p.j + k % 2) as u32 == 2 * p.j + k % 2);
    }
    assert forall|k: int| #![trigger p.child_at(k)] 0 <= k < 4 implies {
        &&& p.child_at(k).wf()
        &&& p.child_at(k).level == p.level + 1
        &&& p.child_at(k).face == p.face
        &&& p.child_at(k).parent_of() == p
        &&& p.child_at(k).descends_from(p)
    } by {
        let c = p.child_at(k);
        assert(span((p.level + 1) as nat) == 2 * span(p.level as nat));
        assert(c.parent_of() == p);
        assert(c.ancestor_at(p.level as nat) == c.parent_of().ancestor_at(p.level as nat));
    }
}

/// A patch strictly inside `p` lies inside exactly one child of `p`: the
/// child on its way up.
pub proof fn lemma_descends_step(q: Patch, p: Patch)
    requires
        q.wf(),
        q.descends_from(p),
        q != p,
    ensures
        p.level < q.level,
        p.wf(),
        p.child_at(q.ancestor_at((p.level + 1) as nat).i % 2 * 2 + q.ancestor_at(
            (p.level + 1) as nat,
        ).j % 2) == q.ancestor_at((p.level + 1) as nat),
        q.descends_from(q.ancestor_at((p.level + 1) as nat)),
        forall|k: int| 0 <= k < 4 && #[trigger] q.descends_from(p.child_at(k)) ==> p.child_at(k) == q.ancestor_at((p.level + 1) as nat),
{
    lemma_ancestor_at(q, p.level as nat);
    let c = q.ancestor_at((p.level + 1) as nat);
    lemma_ancestor_at(q, (p.level + 1) as nat);
    lemma_ancestor_compose(q, (p.level + 1) as nat, p.level as nat);
    assert(c.ancestor_at(p.level as nat) == c.parent_of().ancestor_at(p.level as nat));
    assert(c.parent_of() == p);
    lemma_children(p);
}

/// Every patch lies on the whole face it belongs to.
pub proof fn lemma_descends_from_root(p: Patch)
    requires
        p.wf(),
    ensures
        p.descends_from(Patch::root(p.face as nat)),
{
    lemma_ancestor_at(p, 0);
}


impl Patch {
    /// The child of `self` that touches `edge` (the lower one of the two).
    pub open spec fn toward(self, edge: Edge) -> Patch {
        match edge {
            Edge::AMin => self.child_at(0),
            Edge::AMax => self.child_at(2),
            Edge::BMin => self.child_at(0),
            Edge::BMax => self.child_at(1),
        }
    }

    /// Descending `k` times towards `edge`: a patch `k` levels finer that lies
    /// inside `self` along that edge.
    pub open spec fn toward_by(self, edge: Edge, k: nat) -> Patch
        decreases k,
    {
        if k == 0 {
            self
        } else {
            self.toward_by(edge, (k - 1) as nat).toward(edge)
        }
    }
}

/// The neighbour of the child along an edge lies inside the neighbour of the
/// parent: crossing an edge commutes with refining along it, on one face and
/// across a cube edge alike.
pub proof fn lemma_toward_neighbour(p: Patch, edge: Edge)
    requires
        p.wf(),
        p.level < 32,
    ensures
        p.toward(edge).wf(),
        p.toward(edge).level == p.level + 1,
        p.toward(edge).parent_of() == p,
        p.toward(edge).neighbour_of(edge).patch.parent_of() == p.neighbour_of(edge).patch,
{
    lemma_children(p);
    lemma_span_32();
    lemma_span_monotone((p.level + 1) as nat, 32);
    lemma_span_monotone(0, p.level as nat);
    let c = p.toward(edge);
    let side = span(p.level as nat);
    assert(span(c.level as nat) == 2 * side);
    assert((2 * side - 1) as u32 == 2 * side - 1);
    assert((side - 1) as u32 == side - 1);
    assert(c.i > 0 ==> (c.i - 1) as u32 == c.i - 1);
    assert(c.j > 0 ==> (c.j - 1) as u32 == c.j - 1);
    assert(c.i + 1 < 2 * side ==> (c.i + 1) as u32 == c.i + 1);
    assert(c.j + 1 < 2 * side ==> (c.j + 1) as u32 == c.j + 1);
    assert(p.i > 0 ==> (p.i - 1) as u32 == p.i - 1);
    assert(p.j > 0 ==> (p.j - 1) as u32 == p.j - 1);
    assert(p.i + 1 < side ==> (p.i + 1) as u32 == p.i + 1);
    assert(p.j + 1 < side ==> (p.j + 1) as u32 == p.j + 1);
    let goal = c.neighbour_of(edge).patch.parent_of() == p.neighbour_of(edge).patch;
    if p.face == 0 {
        assert(goal);
    } else if p.face == 1 {
        assert(goal);
    } else if p.face == 2 {
        assert(goal);
    } else if p.face == 3 {
        assert(goal);
    } else if p.face == 4 {
        assert(goal);
    } else {
        assert(goal);
    }
}

/// Descending towards an edge stays on the chain: the ancestors of the `m`-th
/// step are the earlier steps.
pub proof fn lemma_toward_by(p: Patch, edge: Edge, m: nat, k: nat)
    requires
        p.wf(),
        p.level + m <= 32,
        k <= m,
    ensures
        p.toward_by(edge, m).wf(),
        p.toward_by(edge, m).level == p.level + m,
        p.toward_by(edge, m).ancestor_at((p.level + k) as nat) == p.toward_by(edge, k),
        p.toward_by(edge, m).neighbour_of(edge).patch.descends_from(p.neighbour_of(edge).patch),
    decreases m,
{
    if m > 0 {
        let prev = p.toward_by(edge, (m - 1) as nat);
        lemma_toward_by(p, edge, (m - 1) as nat, if k == m { (m - 1) as nat } else { k });
        lemma_toward_neighbour(prev, edge);
        let c = prev.toward(edge);
        assert(c.ancestor_at((c.level - 1) as nat) == c.parent_of().ancestor_at(
            (c.level - 1) as nat,
        ));
        if k < m {
            assert(c.ancestor_at((p.level + k) as nat) == prev.ancestor_at((p.level + k) as nat));
        }
        let n = c.neighbour_of(edge).patch;
        lemma_neighbour_round_trip(c, edge);
        lemma_neighbour_round_trip(prev, edge);
        lemma_neighbour_round_trip(p, edge);
        assert(n.ancestor_at((n.level - 1) as nat) == n.parent_of().ancestor_at(
            (n.level - 1) as nat,
        ));
        lemma_descends_trans(n, prev.neighbour_of(edge).patch, p.neighbour_of(edge).patch);
    } else {
        lemma_neighbour_round_trip(p, edge);
    }
}

} // verus!
