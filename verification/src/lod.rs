//! The patch set of a frame: balanced so that neighbours differ by at most one
//! level, and stitched to coarser neighbours.
//!
//! The error criterion that decides how deep each face is subdivided is
//! floating point and lives outside this crate; what it produces is a set of
//! leaves that partitions the six faces. Everything after that -- balancing,
//! the fixed traversal order, and the stitching masks -- is exact and lives
//! here.
use vstd::prelude::*;
use std::collections::HashSet;
use crate::cubesphere::{
    edge_at, lemma_ancestor_at, lemma_children, lemma_descends_comparable,
    lemma_descends_from_root, lemma_descends_refl, lemma_descends_same_level, lemma_descends_step,
    lemma_descends_trans, lemma_key_bounds, lemma_key_injective, lemma_neighbour_round_trip,
    lemma_parent_wf, lemma_span_32, lemma_span_monotone, lemma_toward_by, span, Edge, EdgeMask,
    Patch, EDGES, FACES, SIDE,
};

verus! {

/// The floor of subdivision: no patch is finer than this.
pub const MAX_LEVEL: u32 = 12;

/// What was selected this frame.
pub struct Selection {
    /// Patches in traversal order -- from face 0 onwards, children by
    /// `(i, j)`.
    pub patches: Vec<Patch>,
    /// Each patch's edges across which the neighbour is coarser -- parallel
    /// to `patches`.
    pub masks: Vec<EdgeMask>,
    /// How many patches hit the level ceiling instead of satisfying the error
    /// criterion.
    pub clamped: usize,
    /// How many patches level balancing added beyond what the error criterion
    /// asked for.
    pub balanced: usize,
}

/// A set of patches, hashed by their names.
pub struct PatchSet {
    keys: HashSet<u128>,
}

impl View for PatchSet {
    type V = Set<Patch>;

    closed spec fn view(&self) -> Set<Patch> {
        Set::new(|p: Patch| p.face < FACES && self.keys@.contains(p.key_of() as u128))
    }
}

impl PatchSet {
    /// The empty set.
    pub fn new() -> (s: PatchSet)
        ensures
            s@ == Set::<Patch>::empty(),
    {
        let s = PatchSet { keys: HashSet::new() };
        assert(s@ =~= Set::<Patch>::empty());
        s
    }

    /// Whether `p` is in the set.
    pub fn contains(&self, p: &Patch) -> (r: bool)
        requires
            p.face < FACES,
        ensures
            r == self@.contains(*p),
    {
        proof {
            lemma_key_bounds(*p);
        }
        let key = p.key();
        self.keys.contains(&key)
    }

    /// Adds `p`.
    pub fn insert(&mut self, p: Patch)
        requires
            p.face < FACES,
        ensures
            final(self)@ == old(self)@.insert(p),
    {
        proof {
            lemma_key_bounds(p);
        }
        let key = p.key();
        self.keys.insert(key);
        proof {
            assert forall|q: Patch| #[trigger] self@.contains(q) == old(self)@.insert(p).contains(
                q,
            ) by {
                if q.face < FACES && q.key_of() as u128 == key {
                    lemma_key_bounds(q);
                    lemma_key_injective(p, q);
                }
            }
            assert(self@ =~= old(self)@.insert(p));
        }
    }

    /// Takes `p` out.
    pub fn remove(&mut self, p: &Patch)
        requires
            p.face < FACES,
        ensures
            final(self)@ == old(self)@.remove(*p),
    {
        proof {
            lemma_key_bounds(*p);
        }
        let key = p.key();
        self.keys.remove(&key);
        proof {
            assert forall|q: Patch| #[trigger] self@.contains(q) == old(self)@.remove(*p).contains(
                q,
            ) by {
                if q.face < FACES && q.key_of() as u128 == key {
                    lemma_key_bounds(q);
                    lemma_key_injective(*p, q);
                }
            }
            assert(self@ =~= old(self)@.remove(*p));
        }
    }

    /// The set of the given patches.
    pub fn from_patches(patches: &[Patch]) -> (s: PatchSet)
        requires
            forall|k: int| 0 <= k < patches@.len() ==> (#[trigger] patches@[k]).face < FACES,
        ensures
            s@ == patches@.to_set(),
    {
        let mut s = PatchSet::new();
        let mut k: usize = 0;
        while k < patches.len()
            invariant
                k <= patches@.len(),
                forall|n: int| 0 <= n < patches@.len() ==> (#[trigger] patches@[n]).face < FACES,
                s@ == patches@.take(k as int).to_set(),
            decreases patches@.len() - k,
        {
            s.insert(patches[k]);
            proof {
                assert(patches@.take(k + 1) == patches@.take(k as int).push(patches@[k as int]));
                patches@.take(k as int).lemma_push_to_set_commute(patches@[k as int]);
            }
            k = k + 1;
        }
        assert(patches@.take(patches@.len() as int) == patches@);
        s
    }
}

/// The set's leaf covering `cell`: the cell itself or its nearest ancestor in
/// `s`, or nothing when no ancestor of the cell is in `s`.
pub open spec fn covering_of(s: Set<Patch>, cell: Patch) -> Option<Patch>
    decreases cell.level,
{
    if s.contains(cell) {
        Some(cell)
    } else if cell.level == 0 {
        None
    } else {
        covering_of(s, cell.parent_of())
    }
}

/// Patches that can be leaves of one frame: existing, not below the level
/// floor, and none inside another.
pub open spec fn leaf_set(s: Set<Patch>) -> bool {
    &&& forall|p: Patch| #[trigger] s.contains(p) ==> p.wf() && p.level <= MAX_LEVEL
    &&& forall|p: Patch, q: Patch|
        #[trigger] s.contains(p) && #[trigger] s.contains(q) && q.descends_from(p) ==> p == q
}

/// Every finest cell of the six faces lies in some patch of `s`.
pub open spec fn covers_sphere(s: Set<Patch>) -> bool {
    forall|c: Patch| c.wf() && c.level == MAX_LEVEL ==> #[trigger] covering_of(s, c) is Some
}

/// `s` cuts the sphere into patches: each point lies in exactly one of them.
pub open spec fn partition(s: Set<Patch>) -> bool {
    leaf_set(s) && covers_sphere(s)
}

/// Across `edge`, the leaf on the other side of `p` is not two or more levels
/// coarser than `p`.
pub open spec fn edge_ok(s: Set<Patch>, p: Patch, edge: Edge) -> bool {
    match covering_of(s, p.neighbour_of(edge).patch) {
        Some(q) => p.level < q.level + 2,
        None => true,
    }
}

/// Across no edge is `p` two or more levels finer than its neighbour.
pub open spec fn level_ok(s: Set<Patch>, p: Patch) -> bool {
    forall|edge: Edge| #[trigger] edge_ok(s, p, edge)
}

/// Neighbouring leaves differ by no more than one level.
pub open spec fn balanced(s: Set<Patch>) -> bool {
    forall|p: Patch| #[trigger] s.contains(p) ==> level_ok(s, p)
}

/// Every patch of `s` lies inside a patch of `coarse`.
pub open spec fn refines(s: Set<Patch>, coarse: Set<Patch>) -> bool {
    forall|p: Patch|
        #[trigger] s.contains(p) ==> exists|q: Patch| coarse.contains(q) && p.descends_from(q)
}

/// Descending from `p` one always meets a leaf of `s` before passing the
/// level floor.
pub open spec fn reaches_leaf(s: Set<Patch>, p: Patch) -> bool
    decreases MAX_LEVEL - p.level,
{
    if s.contains(p) {
        true
    } else if p.level < MAX_LEVEL {
        &&& reaches_leaf(s, p.child_at(0))
        &&& reaches_leaf(s, p.child_at(1))
        &&& reaches_leaf(s, p.child_at(2))
        &&& reaches_leaf(s, p.child_at(3))
    } else {
        false
    }
}

/// The leaves of `s` under `p`, in traversal order: children by `(i, j)`.
pub open spec fn collect_of(s: Set<Patch>, p: Patch) -> Seq<Patch>
    decreases MAX_LEVEL - p.level,
{
    if s.contains(p) {
        seq![p]
    } else if p.level < MAX_LEVEL {
        collect_of(s, p.child_at(0)) + collect_of(s, p.child_at(1)) + collect_of(s, p.child_at(2))
            + collect_of(s, p.child_at(3))
    } else {
        Seq::empty()
    }
}

/// The leaves of `s` in traversal order: face 0 onwards.
pub open spec fn traversal(s: Set<Patch>) -> Seq<Patch> {
    collect_of(s, Patch::root(0)) + collect_of(s, Patch::root(1)) + collect_of(s, Patch::root(2))
        + collect_of(s, Patch::root(3)) + collect_of(s, Patch::root(4)) + collect_of(
        s,
        Patch::root(5),
    )
}

/// The set's leaf covering this cell: the cell itself or one of its
/// ancestors.
///
/// `None` means there is nothing to cover it -- that is, the set on that side
/// is finer than the cell.
pub fn covering(leaves: &PatchSet, cell: Patch) -> (r: Option<Patch>)
    requires
        cell.face < FACES,
    ensures
        r == covering_of(leaves@, cell),
{
    let mut here = cell;
    loop
        invariant
            here.face < FACES,
            covering_of(leaves@, here) == covering_of(leaves@, cell),
        decreases here.level,
    {
        if leaves.contains(&here) {
            return Some(here);
        }
        match here.parent() {
            Some(up) => here = up,
            None => return None,
        }
    }
}


/// `s` with the leaf `c` replaced by its four children.
pub open spec fn split(s: Set<Patch>, c: Patch) -> Set<Patch> {
    s.remove(c).insert(c.child_at(0)).insert(c.child_at(1)).insert(c.child_at(2)).insert(
        c.child_at(3),
    )
}

proof fn lemma_descends_parent(c: Patch)
    requires
        c.wf(),
        c.level > 0,
    ensures
        c.descends_from(c.parent_of()),
        c.parent_of().wf(),
        c.parent_of().level == c.level - 1,
{
    lemma_parent_wf(c);
    assert(c.ancestor_at((c.level - 1) as nat) == c.parent_of().ancestor_at((c.level - 1) as nat));
}

/// The covering leaf is a member of the set that contains the cell, and in a
/// set of non-nested leaves it is the only such member.
pub proof fn lemma_covering(s: Set<Patch>, c: Patch)
    requires
        c.wf(),
        leaf_set(s),
    ensures
        covering_of(s, c) matches Some(q) ==> s.contains(q) && c.descends_from(q),
        forall|q: Patch| s.contains(q) && c.descends_from(q) ==> covering_of(s, c) == Some(q),
    decreases c.level,
{
    lemma_descends_refl(c);
    if s.contains(c) {
    } else if c.level == 0 {
        assert forall|q: Patch| s.contains(q) && c.descends_from(q) implies covering_of(s, c)
            == Some(q) by {
            lemma_descends_same_level(c, q);
        }
    } else {
        lemma_descends_parent(c);
        let up = c.parent_of();
        lemma_covering(s, up);
        if let Some(q) = covering_of(s, up) {
            lemma_descends_trans(c, up, q);
        }
        assert forall|q: Patch| s.contains(q) && c.descends_from(q) implies covering_of(s, c)
            == Some(q) by {
            if q.level == c.level {
                lemma_descends_same_level(c, q);
            }
            lemma_descends_comparable(c, q, up);
        }
    }
}

/// Replacing a leaf by its children keeps the leaves non-nested and keeps the
/// sphere covered.
pub proof fn lemma_split_partition(s: Set<Patch>, c: Patch)
    requires
        leaf_set(s),
        s.contains(c),
        c.level < MAX_LEVEL,
    ensures
        leaf_set(split(s, c)),
        covers_sphere(s) ==> covers_sphere(split(s, c)),
        !s.contains(c.child_at(0)) && !s.contains(c.child_at(1)) && !s.contains(c.child_at(2))
            && !s.contains(c.child_at(3)),
{
    let t = split(s, c);
    lemma_children(c);
    assert forall|k: int| 0 <= k < 4 implies !s.contains(#[trigger] c.child_at(k)) by {
        if s.contains(c.child_at(k)) {
            assert(c.child_at(k).descends_from(c));
        }
    }
    assert forall|p: Patch, q: Patch|
        #[trigger] t.contains(p) && #[trigger] t.contains(q) && q.descends_from(p) implies p
        == q by {
        let kids = set![c.child_at(0), c.child_at(1), c.child_at(2), c.child_at(3)];
        if s.contains(p) && p != c && s.contains(q) && q != c {
        } else if s.contains(p) && p != c {
            // q is a child of c; p contains q, so p and c are nested.
            assert(q.descends_from(c));
            if p.level <= c.level {
                lemma_descends_comparable(q, p, c);
            } else {
                lemma_descends_comparable(q, c, p);
                assert(p.level == q.level);
                lemma_descends_same_level(q, p);
            }
        } else if s.contains(q) && q != c {
            // p is a child of c and contains q, so q lies inside c.
            assert(p.descends_from(c));
            lemma_descends_trans(q, p, c);
        } else {
            lemma_descends_same_level(q, p);
        }
    }
    if covers_sphere(s) {
        assert forall|x: Patch| x.wf() && x.level == MAX_LEVEL implies #[trigger] covering_of(
            t,
            x,
        ) is Some by {
            lemma_covering(s, x);
            lemma_covering(t, x);
            let q = covering_of(s, x)->0;
            if q != c {
                assert(t.contains(q));
            } else {
                lemma_descends_step(x, c);
                let k = x.ancestor_at((c.level + 1) as nat).i % 2 * 2 + x.ancestor_at(
                    (c.level + 1) as nat,
                ).j % 2;
                assert(t.contains(c.child_at(k)));
            }
        }
    }
}

/// How the covering leaf of a cell changes when a leaf is split: it never
/// becomes coarser, it does not change unless it was the split leaf, and a
/// cell strictly inside the split leaf gets one of its children.
pub proof fn lemma_split_covering(s: Set<Patch>, c: Patch, x: Patch)
    requires
        leaf_set(s),
        s.contains(c),
        c.level < MAX_LEVEL,
        x.wf(),
    ensures
        covering_of(split(s, c), x) matches Some(q2) ==> (covering_of(s, x) matches Some(q)
            && q.level <= q2.level),
        covering_of(s, x) matches Some(q) ==> (q != c ==> covering_of(split(s, c), x) == Some(q)),
        covering_of(s, x) == Some(c) && x != c ==> (covering_of(split(s, c), x) matches Some(q2)
            && q2.level == c.level + 1),
{
    let t = split(s, c);
    lemma_split_partition(s, c);
    lemma_children(c);
    lemma_covering(s, x);
    lemma_covering(t, x);
    if let Some(q2) = covering_of(t, x) {
        if q2 != c.child_at(0) && q2 != c.child_at(1) && q2 != c.child_at(2) && q2 != c.child_at(
            3,
        ) {
            assert(s.contains(q2));
        } else {
            lemma_descends_trans(x, q2, c);
        }
    }
    if let Some(q) = covering_of(s, x) {
        if q != c {
            assert(t.contains(q));
        } else if x != c {
            lemma_descends_step(x, c);
            let k = x.ancestor_at((c.level + 1) as nat).i % 2 * 2 + x.ancestor_at(
                (c.level + 1) as nat,
            ).j % 2;
            assert(t.contains(c.child_at(k)));
        }
    }
}

/// Splitting a leaf never breaks the level rule where it held.
pub proof fn lemma_split_edge_ok(s: Set<Patch>, c: Patch, p: Patch, edge: Edge)
    requires
        leaf_set(s),
        s.contains(c),
        c.level < MAX_LEVEL,
        p.wf(),
        edge_ok(s, p, edge),
    ensures
        edge_ok(split(s, c), p, edge),
{
    lemma_neighbour_round_trip(p, edge);
    lemma_split_covering(s, c, p.neighbour_of(edge).patch);
}

proof fn lemma_concat(a: Seq<Patch>, b: Seq<Patch>)
    requires
        a.no_duplicates(),
        b.no_duplicates(),
        forall|x: Patch| a.contains(x) ==> !b.contains(x),
    ensures
        (a + b).no_duplicates(),
        forall|x: Patch| #[trigger] (a + b).contains(x) <==> a.contains(x) || b.contains(x),
{
    assert forall|x: Patch| #[trigger] (a + b).contains(x) <==> a.contains(x) || b.contains(x) by {
        if (a + b).contains(x) {
            let k = choose|k: int| 0 <= k < (a + b).len() && (a + b)[k] == x;
            if k < a.len() {
                assert(a[k] == x);
            } else {
                assert(b[k - a.len()] == x);
            }
        }
        if a.contains(x) {
            let k = choose|k: int| 0 <= k < a.len() && a[k] == x;
            assert((a + b)[k] == x);
        }
        if b.contains(x) {
            let k = choose|k: int| 0 <= k < b.len() && b[k] == x;
            assert((a + b)[k + a.len()] == x);
        }
    }
    assert forall|i: int, j: int|
        0 <= i < (a + b).len() && 0 <= j < (a + b).len() && i != j implies (a + b)[i] != (a
        + b)[j] by {
        if i < a.len() && j >= a.len() {
            assert(a.contains(a[i]));
            assert(b.contains(b[j - a.len()]));
        }
        if j < a.len() && i >= a.len() {
            assert(a.contains(a[j]));
            assert(b.contains(b[i - a.len()]));
        }
    }
}

/// The traversal under `p` lists each leaf inside `p` exactly once, and
/// nothing else.
pub proof fn lemma_collect_of(s: Set<Patch>, p: Patch)
    requires
        leaf_set(s),
        p.wf(),
        p.level <= MAX_LEVEL,
    ensures
        collect_of(s, p).no_duplicates(),
        forall|x: Patch| #[trigger]
            collect_of(s, p).contains(x) <==> s.contains(x) && x.descends_from(p),
    decreases MAX_LEVEL - p.level,
{
    if s.contains(p) {
        lemma_descends_refl(p);
        assert forall|x: Patch| #[trigger]
            collect_of(s, p).contains(x) <==> s.contains(x) && x.descends_from(p) by {
            if collect_of(s, p).contains(x) {
                assert(collect_of(s, p)[0] == p);
            }
            if s.contains(x) && x.descends_from(p) {
                assert(collect_of(s, p)[0] == x);
            }
        }
    } else if p.level < MAX_LEVEL {
        lemma_children(p);
        let c0 = collect_of(s, p.child_at(0));
        let c1 = collect_of(s, p.child_at(1));
        let c2 = collect_of(s, p.child_at(2));
        let c3 = collect_of(s, p.child_at(3));
        lemma_collect_of(s, p.child_at(0));
        lemma_collect_of(s, p.child_at(1));
        lemma_collect_of(s, p.child_at(2));
        lemma_collect_of(s, p.child_at(3));
        assert forall|x: Patch, k1: int, k2: int|
            0 <= k1 < 4 && 0 <= k2 < 4 && k1 != k2 && x.wf() && #[trigger] x.descends_from(
                p.child_at(k1),
            ) implies !#[trigger] x.descends_from(p.child_at(k2)) by {
            lemma_descends_trans(x, p.child_at(k1), p);
            if x.descends_from(p.child_at(k2)) {
                lemma_descends_step(x, p);
            }
        }
        lemma_concat(c0, c1);
        lemma_concat(c0 + c1, c2);
        lemma_concat(c0 + c1 + c2, c3);
        assert forall|x: Patch| #[trigger]
            collect_of(s, p).contains(x) <==> s.contains(x) && x.descends_from(p) by {
            if s.contains(x) && x.descends_from(p) {
                lemma_descends_step(x, p);
            }
            if collect_of(s, p).contains(x) {
                if c0.contains(x) {
                    lemma_descends_trans(x, p.child_at(0), p);
                } else if c1.contains(x) {
                    lemma_descends_trans(x, p.child_at(1), p);
                } else if c2.contains(x) {
                    lemma_descends_trans(x, p.child_at(2), p);
                } else {
                    lemma_descends_trans(x, p.child_at(3), p);
                }
            }
        }
    } else {
        assert forall|x: Patch| #[trigger]
            collect_of(s, p).contains(x) <==> s.contains(x) && x.descends_from(p) by {
            if s.contains(x) && x.descends_from(p) {
                lemma_descends_same_level(x, p);
            }
        }
    }
}

/// Under a patch with no leaf above it, a covering set of leaves is always met
/// on the way down.
pub proof fn lemma_reaches_leaf(s: Set<Patch>, p: Patch)
    requires
        partition(s),
        p.wf(),
        p.level <= MAX_LEVEL,
        forall|q: Patch| s.contains(q) && p.descends_from(q) ==> q == p,
    ensures
        reaches_leaf(s, p),
    decreases MAX_LEVEL - p.level,
{
    if !s.contains(p) {
        if p.level == MAX_LEVEL {
            lemma_covering(s, p);
        } else {
            lemma_children(p);
            assert forall|k: int| 0 <= k < 4 implies reaches_leaf(s, #[trigger] p.child_at(k)) by {
                let c = p.child_at(k);
                assert forall|q: Patch| s.contains(q) && c.descends_from(q) implies q == c by {
                    if q != c {
                        if q.level == c.level {
                            lemma_descends_same_level(c, q);
                        }
                        lemma_descends_comparable(c, q, p);
                    }
                }
                lemma_reaches_leaf(s, c);
            }
            assert(reaches_leaf(s, p.child_at(0)));
            assert(reaches_leaf(s, p.child_at(1)));
            assert(reaches_leaf(s, p.child_at(2)));
            assert(reaches_leaf(s, p.child_at(3)));
        }
    }
}

/// The traversal of a partition lists every leaf exactly once.
pub proof fn lemma_traversal(s: Set<Patch>)
    requires
        leaf_set(s),
    ensures
        traversal(s).no_duplicates(),
        traversal(s).to_set() == s,
        traversal(s).len() == s.len(),
{
    let r = |f: nat| Patch::root(f);
    assert forall|f: nat| f < FACES implies (#[trigger] Patch::root(f)).wf() by {}
    lemma_collect_of(s, Patch::root(0));
    lemma_collect_of(s, Patch::root(1));
    lemma_collect_of(s, Patch::root(2));
    lemma_collect_of(s, Patch::root(3));
    lemma_collect_of(s, Patch::root(4));
    lemma_collect_of(s, Patch::root(5));
    assert forall|x: Patch, f: nat| f < FACES && x.wf() && #[trigger] x.descends_from(Patch::root(f)) implies x.face == f by {
        lemma_ancestor_at(x, 0);
    }
    let c0 = collect_of(s, Patch::root(0));
    let c1 = collect_of(s, Patch::root(1));
    let c2 = collect_of(s, Patch::root(2));
    let c3 = collect_of(s, Patch::root(3));
    let c4 = collect_of(s, Patch::root(4));
    let c5 = collect_of(s, Patch::root(5));
    lemma_concat(c0, c1);
    lemma_concat(c0 + c1, c2);
    lemma_concat(c0 + c1 + c2, c3);
    lemma_concat(c0 + c1 + c2 + c3, c4);
    lemma_concat(c0 + c1 + c2 + c3 + c4, c5);
    assert forall|x: Patch| #[trigger] traversal(s).to_set().contains(x) == s.contains(x) by {
        if s.contains(x) {
            lemma_descends_from_root(x);
        }
    }
    assert(traversal(s).to_set() =~= s);
    traversal(s).unique_seq_to_set();
}


/// Appends to `out` the leaves of `leaves` under `patch`, in traversal order.
pub fn collect(patch: Patch, leaves: &PatchSet, out: &mut Vec<Patch>)
    requires
        patch.wf(),
        reaches_leaf(leaves@, patch),
    ensures
        final(out)@ == old(out)@ + collect_of(leaves@, patch),
    decreases MAX_LEVEL - patch.level,
{
    if leaves.contains(&patch) {
        out.push(patch);
        return;
    }
    proof {
        lemma_children(patch);
        assert(patch.level < MAX_LEVEL);
    }
    let ghost start = out@;
    let children = patch.children();
    collect(children[0], leaves, out);
    collect(children[1], leaves, out);
    collect(children[2], leaves, out);
    collect(children[3], leaves, out);
    assert(out@ =~= start + collect_of(leaves@, patch));
}

/// `p`'s neighbour across `edge` is covered by a coarser leaf of `s`.
pub open spec fn coarser_across(s: Set<Patch>, p: Patch, edge: Edge) -> bool {
    covering_of(s, p.neighbour_of(edge).patch) matches Some(q) && q.level < p.level
}

/// The stitching mask of `p` in `s`: the bits of the edges across which the
/// neighbour is coarser.
pub open spec fn mask_of(s: Set<Patch>, p: Patch) -> EdgeMask {
    ((if coarser_across(s, p, Edge::AMin) { 1int } else { 0int }) + (if coarser_across(
        s,
        p,
        Edge::AMax,
    ) {
        2int
    } else {
        0int
    }) + (if coarser_across(s, p, Edge::BMin) { 4int } else { 0int }) + (if coarser_across(
        s,
        p,
        Edge::BMax,
    ) {
        8int
    } else {
        0int
    })) as u8
}

/// Wherever a neighbour is coarser, it is coarser by exactly one level.
pub open spec fn one_level_steps(s: Set<Patch>) -> bool {
    forall|p: Patch, edge: Edge| #[trigger]
        s.contains(p) && #[trigger] coarser_across(s, p, edge) ==> covering_of(
            s,
            p.neighbour_of(edge).patch,
        )->0.level + 1 == p.level
}

fn coarser_bit(leaves: &PatchSet, patch: &Patch, edge: Edge) -> (b: EdgeMask)
    requires
        patch.wf(),
    ensures
        b == (if coarser_across(leaves@, *patch, edge) { edge.bit_of() } else { 0 }),
{
    let cell = patch.neighbour(edge).patch;
    match covering(leaves, cell) {
        Some(other) => {
            if other.level < patch.level {
                edge.bit()
            } else {
                0
            }
        },
        None => 0,
    }
}

/// Each patch's stitching mask: the edges across which the neighbour is
/// coarser.
pub fn stitching(patches: &[Patch]) -> (masks: Vec<EdgeMask>)
    requires
        forall|k: int| 0 <= k < patches@.len() ==> (#[trigger] patches@[k]).wf(),
        one_level_steps(patches@.to_set()),
    ensures
        masks@.len() == patches@.len(),
        forall|k: int|
            0 <= k < patches@.len() ==> #[trigger] masks@[k] == mask_of(
                patches@.to_set(),
                patches@[k],
            ),
{
    let leaves = PatchSet::from_patches(patches);
    let mut masks: Vec<EdgeMask> = Vec::new();
    let mut n: usize = 0;
    while n < patches.len()
        invariant
            n <= patches@.len(),
            leaves@ == patches@.to_set(),
            forall|k: int| 0 <= k < patches@.len() ==> (#[trigger] patches@[k]).wf(),
            one_level_steps(patches@.to_set()),
            masks@.len() == n,
            forall|k: int| 0 <= k < n ==> #[trigger] masks@[k] == mask_of(leaves@, patches@[k]),
        decreases patches@.len() - n,
    {
        let patch = patches[n];
        proof {
            assert(leaves@.contains(patch));
        }
        let b0 = coarser_bit(&leaves, &patch, Edge::AMin);
        let b1 = coarser_bit(&leaves, &patch, Edge::AMax);
        let b2 = coarser_bit(&leaves, &patch, Edge::BMin);
        let b3 = coarser_bit(&leaves, &patch, Edge::BMax);
        let mut mask: EdgeMask = 0;
        mask |= b0;
        assert(mask == b0) by (bit_vector)
            requires
                mask == 0u8 | b0,
        ;
        let m0 = mask;
        mask |= b1;
        assert(mask == m0 + b1) by (bit_vector)
            requires
                m0 <= 1,
                b1 == 0 || b1 == 2,
                mask == m0 | b1,
        ;
        let m1 = mask;
        mask |= b2;
        assert(mask == m1 + b2) by (bit_vector)
            requires
                m1 <= 3,
                b2 == 0 || b2 == 4,
                mask == m1 | b2,
        ;
        let m2 = mask;
        mask |= b3;
        assert(mask == m2 + b3) by (bit_vector)
            requires
                m2 <= 7,
                b3 == 0 || b3 == 8,
                mask == m2 | b3,
        ;
        masks.push(mask);
        n = n + 1;
    }
    masks
}

/// The vertex count a set costs: a patch is `(SIDE + 1)^2` vertices
/// regardless of level.
pub fn vertex_count(selection: &Selection) -> (n: usize)
    requires
        selection.patches@.len() * (SIDE + 1) * (SIDE + 1) <= usize::MAX,
    ensures
        n == selection.patches@.len() * (SIDE + 1) * (SIDE + 1),
{
    let len = selection.patches.len();
    assert(len * 33 <= len * 33 * 33) by (nonlinear_arith);
    len * (SIDE + 1) * (SIDE + 1)
}


/// How many splits a leaf at `level` can still undergo below it: a full
/// quadtree down to the level floor has `weight(level)` inner patches.
pub open spec fn weight(level: nat) -> nat
    decreases MAX_LEVEL - level,
{
    if level >= MAX_LEVEL {
        0
    } else {
        1 + 4 * weight(level + 1)
    }
}

/// The total weight of a list of leaves: it falls by one with every split.
pub open spec fn potential(tree: Seq<Patch>) -> nat
    decreases tree.len(),
{
    if tree.len() == 0 {
        0
    } else {
        potential(tree.drop_last()) + weight(tree.last().level as nat)
    }
}

proof fn lemma_potential_remove(tree: Seq<Patch>, i: int)
    requires
        0 <= i < tree.len(),
    ensures
        potential(tree.remove(i)) + weight(tree[i].level as nat) == potential(tree),
    decreases tree.len(),
{
    if i == tree.len() - 1 {
        assert(tree.remove(i) =~= tree.drop_last());
    } else {
        lemma_potential_remove(tree.drop_last(), i);
        assert(tree.remove(i).drop_last() =~= tree.drop_last().remove(i));
        assert(tree.remove(i).last() == tree.last());
    }
}

/// The list of leaves after a split: the split leaf out, its children in.
proof fn lemma_tree_split(tree: Seq<Patch>, c: Patch) -> (t: Seq<Patch>)
    requires
        tree.no_duplicates(),
        tree.contains(c),
        leaf_set(tree.to_set()),
        c.level < MAX_LEVEL,
    ensures
        t.no_duplicates(),
        t.to_set() == split(tree.to_set(), c),
        potential(t) + 1 == potential(tree),
        t.len() == tree.len() + 3,
{
    let s = tree.to_set();
    let idx = choose|k: int| 0 <= k < tree.len() && tree[k] == c;
    let rest = tree.remove(idx);
    assert(s.contains(c));
    lemma_split_partition(s, c);
    lemma_children(c);
    assert forall|x: Patch| #[trigger] rest.contains(x) <==> s.contains(x) && x != c by {
        if rest.contains(x) {
            let k = choose|k: int| 0 <= k < rest.len() && rest[k] == x;
            if k < idx {
                assert(tree[k] == x);
            } else {
                assert(tree[k + 1] == x);
            }
        }
        if s.contains(x) && x != c {
            let k = choose|k: int| 0 <= k < tree.len() && tree[k] == x;
            if k < idx {
                assert(rest[k] == x);
            } else {
                assert(rest[k - 1] == x);
            }
        }
    }
    let t = rest.push(c.child_at(0)).push(c.child_at(1)).push(c.child_at(2)).push(c.child_at(3));
    assert forall|a: int, b: int| 0 <= a < t.len() && 0 <= b < t.len() && a != b implies t[a]
        != t[b] by {
        if a < rest.len() {
            assert(rest.contains(rest[a]));
        }
        if b < rest.len() {
            assert(rest.contains(rest[b]));
        }
    }
    assert(t.to_set() =~= split(s, c)) by {
        assert forall|x: Patch| #[trigger] t.to_set().contains(x) == split(s, c).contains(x) by {
            if t.contains(x) {
                let k = choose|k: int| 0 <= k < t.len() && t[k] == x;
                if k < rest.len() {
                    assert(rest.contains(x));
                }
            }
            if split(s, c).contains(x) {
                if rest.contains(x) {
                    let k = choose|k: int| 0 <= k < rest.len() && rest[k] == x;
                    assert(t[k] == x);
                } else if x == c.child_at(0) {
                    assert(t[rest.len() as int] == x);
                } else if x == c.child_at(1) {
                    assert(t[rest.len() as int + 1] == x);
                } else if x == c.child_at(2) {
                    assert(t[rest.len() as int + 2] == x);
                } else {
                    assert(t[rest.len() as int + 3] == x);
                }
            }
        }
    }
    lemma_potential_remove(tree, idx);
    assert(t.drop_last() =~= rest.push(c.child_at(0)).push(c.child_at(1)).push(c.child_at(2)));
    assert(t.drop_last().drop_last() =~= rest.push(c.child_at(0)).push(c.child_at(1)));
    assert(t.drop_last().drop_last().drop_last() =~= rest.push(c.child_at(0)));
    assert(t.drop_last().drop_last().drop_last().drop_last() =~= rest);
    assert(weight(c.level as nat) == 1 + 4 * weight((c.level + 1) as nat));
    let w = weight((c.level + 1) as nat);
    assert(c.child_at(0).level == c.level + 1 && c.child_at(1).level == c.level + 1
        && c.child_at(2).level == c.level + 1 && c.child_at(3).level == c.level + 1);
    assert(potential(t) == potential(t.drop_last()) + w);
    assert(potential(t.drop_last()) == potential(t.drop_last().drop_last()) + w);
    assert(potential(t.drop_last().drop_last()) == potential(t.drop_last().drop_last().drop_last()) + w);
    assert(potential(t.drop_last().drop_last().drop_last()) == potential(rest) + w);
    t
}

/// Everything `balance` keeps true while it works.
pub open spec fn balancing(
    leaves: Set<Patch>,
    tree: Seq<Patch>,
    queue: Seq<Patch>,
    start: Set<Patch>,
    skip: Option<Patch>,
) -> bool {
    &&& partition(leaves)
    &&& tree.no_duplicates()
    &&& tree.to_set() == leaves
    &&& forall|k: int| 0 <= k < queue.len() ==> (#[trigger] queue[k]).wf()
    &&& forall|p: Patch| #[trigger]
        leaves.contains(p) ==> skip == Some(p) || queue.contains(p) || level_ok(leaves, p)
    &&& refines(leaves, start)
}

/// One split keeps everything `balance` relies on.
proof fn lemma_balancing_split(
    leaves: Set<Patch>,
    tree: Seq<Patch>,
    queue: Seq<Patch>,
    start: Set<Patch>,
    patch: Patch,
    coarse: Patch,
) -> (t: Seq<Patch>)
    requires
        balancing(leaves, tree, queue, start, Some(patch)),
        leaves.contains(coarse),
        coarse.level < MAX_LEVEL,
    ensures
        balancing(
            split(leaves, coarse),
            t,
            queue.push(coarse.child_at(0)).push(coarse.child_at(1)).push(coarse.child_at(
                2,
            )).push(coarse.child_at(3)),
            start,
            Some(patch),
        ),
        potential(t) + 1 == potential(tree),
        t.len() == tree.len() + 3,
        forall|e: Edge| edge_ok(leaves, patch, e) && patch.wf() ==> edge_ok(split(leaves, coarse), patch, e),
{
    let t = lemma_tree_split(tree, coarse);
    let s2 = split(leaves, coarse);
    let q2 = queue.push(coarse.child_at(0)).push(coarse.child_at(1)).push(coarse.child_at(2)).push(
        coarse.child_at(3),
    );
    lemma_split_partition(leaves, coarse);
    lemma_children(coarse);
    assert(q2[queue.len() as int] == coarse.child_at(0));
    assert(q2[queue.len() as int + 1] == coarse.child_at(1));
    assert(q2[queue.len() as int + 2] == coarse.child_at(2));
    assert(q2[queue.len() as int + 3] == coarse.child_at(3));
    assert forall|k: int| 0 <= k < q2.len() implies (#[trigger] q2[k]).wf() by {
        if k < queue.len() {
            assert(q2[k] == queue[k]);
        }
    }
    assert forall|p: Patch| #[trigger]
        s2.contains(p) implies Some(patch) == Some(p) || q2.contains(p) || level_ok(s2, p) by {
        if p == coarse.child_at(0) || p == coarse.child_at(1) || p == coarse.child_at(2) || p
            == coarse.child_at(3) {
        } else if queue.contains(p) {
            let k = choose|k: int| 0 <= k < queue.len() && queue[k] == p;
            assert(q2[k] == p);
        } else if Some(patch) != Some(p) {
            assert forall|e: Edge| #[trigger] edge_ok(s2, p, e) by {
                lemma_split_edge_ok(leaves, coarse, p, e);
            }
        }
    }
    assert forall|p: Patch| #[trigger]
        s2.contains(p) implies exists|q: Patch| start.contains(q) && p.descends_from(q) by {
        if leaves.contains(p) {
        } else {
            let q = choose|q: Patch| start.contains(q) && coarse.descends_from(q);
            lemma_descends_trans(p, coarse, q);
        }
    }
    assert forall|e: Edge| edge_ok(leaves, patch, e) && patch.wf() implies edge_ok(s2, patch, e) by {
        lemma_split_edge_ok(leaves, coarse, patch, e);
    }
    t
}

/// Bring the set up to the rule "neighbours differ by no more than one
/// level".
///
/// Balancing only refines: a coarser neighbour is subdivided until the
/// difference falls to one; the fine side is never coarsened. The order of
/// the result is the traversal order, not the order of the input.
pub fn balance(selection: &mut Selection)
    requires
        old(selection).patches@.no_duplicates(),
        partition(old(selection).patches@.to_set()),
    ensures
        final(selection).patches@ == traversal(final(selection).patches@.to_set()),
        final(selection).patches@.no_duplicates(),
        partition(final(selection).patches@.to_set()),
        balanced(final(selection).patches@.to_set()),
        refines(final(selection).patches@.to_set(), old(selection).patches@.to_set()),
        coarsest(final(selection).patches@.to_set(), old(selection).patches@.to_set()),
        final(selection).balanced == final(selection).patches@.len() - old(
            selection,
        ).patches@.len(),
        final(selection).masks == old(selection).masks,
        final(selection).clamped == old(selection).clamped,
{
    let before = selection.patches.len();
    proof {
        assert forall|k: int| 0 <= k < selection.patches@.len() implies (#[trigger] selection.patches@[k]).face < FACES by {
            assert(selection.patches@.to_set().contains(selection.patches@[k]));
        }
    }
    let mut leaves = PatchSet::from_patches(selection.patches.as_slice());
    // The queue holds patches whose neighbours have not been checked yet.
    let mut queue: Vec<Patch> = selection.patches.clone();
    let ghost start = leaves@;
    let ghost mut tree = selection.patches@;
    proof {
        assert forall|k: int| 0 <= k < queue@.len() implies (#[trigger] queue@[k]).wf() by {
            assert(start.contains(queue@[k]));
        }
        assert forall|p: Patch| #[trigger] leaves@.contains(p) implies queue@.contains(p) by {
            let k = choose|k: int| 0 <= k < tree.len() && tree[k] == p;
            assert(queue@[k] == p);
        }
        assert forall|p: Patch| #[trigger] leaves@.contains(p) implies exists|q: Patch| start.contains(q) && p.descends_from(q) by {
            lemma_descends_refl(p);
        }
    }
    while queue.len() > 0
        invariant
            balancing(leaves@, tree, queue@, start, None),
            coarsest(leaves@, start),
            tree.len() >= before,
            before == old(selection).patches@.len(),
            start == old(selection).patches@.to_set(),
            *selection == *old(selection),
        decreases potential(tree), queue@.len(),
    {
        let ghost phi = potential(tree);
        let ghost q0 = queue@;
        let patch = queue.pop().unwrap();
        proof {
            assert(q0[q0.len() - 1] == patch);
            assert(patch.wf());
            assert forall|p: Patch| #[trigger] leaves@.contains(p) implies Some(patch) == Some(p) || queue@.contains(p) || level_ok(leaves@, p) by {
                if q0.contains(p) && p != patch {
                    let k = choose|k: int| 0 <= k < q0.len() && q0[k] == p;
                    assert(queue@[k] == p);
                }
            }
            assert(balancing(leaves@, tree, queue@, start, Some(patch)));
        }
        // The patch may have been subdivided while it waited in the queue.
        if patch.level >= 2 && leaves.contains(&patch) {
            let mut k: usize = 0;
            while k < 4
                invariant
                    k <= 4,
                    balancing(leaves@, tree, queue@, start, Some(patch)),
                    coarsest(leaves@, start),
                    patch.wf(),
                    patch.level >= 2,
                    leaves@.contains(patch),
                    forall|n: int| 0 <= n < k ==> #[trigger] edge_ok(leaves@, patch, edge_at(n)),
                    potential(tree) < phi || (potential(tree) == phi && queue@.len() < q0.len()),
                    tree.len() >= before,
                decreases 4 - k,
            {
                let edge = EDGES[k];
                assert(edge == edge_at(k as int));
                let cell = patch.neighbour(edge).patch;
                let mut done = false;
                // One subdivision reduces the difference by one level, and
                // the difference can be larger: loop until it is at most one.
                while !done
                    invariant
                        balancing(leaves@, tree, queue@, start, Some(patch)),
                        coarsest(leaves@, start),
                        patch.wf(),
                        patch.level >= 2,
                        leaves@.contains(patch),
                        cell == patch.neighbour_of(edge).patch,
                        cell.wf(),
                        cell.level == patch.level,
                        forall|n: int| 0 <= n < k ==> #[trigger] edge_ok(leaves@, patch, edge_at(n)),
                        done ==> edge_ok(leaves@, patch, edge),
                        potential(tree) < phi || (potential(tree) == phi && queue@.len() < q0.len()),
                        tree.len() >= before,
                    decreases (if done {
                        0
                    } else {
                        match covering_of(leaves@, cell) {
                            Some(q) => (patch.level - q.level + 1) as nat,
                            None => 1,
                        }
                    }),
                {
                    proof {
                        lemma_covering(leaves@, cell);
                    }
                    match covering(&leaves, cell) {
                        // The other side is finer than us -- its business.
                        None => done = true,
                        Some(coarse) => {
                            if patch.level - coarse.level < 2 {
                                done = true;
                            } else {
                                proof {
                                    assert forall|r: Set<Patch>|
                                        partition(r) && balanced(r) && refines(r, start) implies #[trigger] refines(
                                        r,
                                        split(leaves@, coarse),
                                    ) by {
                                        lemma_split_is_forced(leaves@, patch, edge, coarse, r);
                                        lemma_refines_split(leaves@, coarse, r);
                                    }
                                    lemma_split_covering(leaves@, coarse, cell);
                                    lemma_children(coarse);
                                    tree = lemma_balancing_split(
                                        leaves@,
                                        tree,
                                        queue@,
                                        start,
                                        patch,
                                        coarse,
                                    );
                                }
                                let ghost old_leaves = leaves@;
                                leaves.remove(&coarse);
                                let children = coarse.children();
                                leaves.insert(children[0]);
                                queue.push(children[0]);
                                leaves.insert(children[1]);
                                queue.push(children[1]);
                                leaves.insert(children[2]);
                                queue.push(children[2]);
                                leaves.insert(children[3]);
                                queue.push(children[3]);
                                proof {
                                    assert(leaves@ == split(old_leaves, coarse));
                                    assert forall|n: int| 0 <= n < k implies #[trigger] edge_ok(leaves@, patch, edge_at(n)) by {
                                        lemma_split_edge_ok(old_leaves, coarse, patch, edge_at(n));
                                    }
                                }
                            }
                        },
                    }
                }
                k = k + 1;
            }
            proof {
                assert forall|e: Edge| #[trigger] edge_ok(leaves@, patch, e) by {
                    assert(edge_ok(leaves@, patch, edge_at(0)));
                    assert(edge_ok(leaves@, patch, edge_at(1)));
                    assert(edge_ok(leaves@, patch, edge_at(2)));
                    assert(edge_ok(leaves@, patch, edge_at(3)));
                }
            }
        }
        proof {
            assert forall|p: Patch| #[trigger] leaves@.contains(p) implies queue@.contains(p) || level_ok(leaves@, p) by {
                if p == patch && !queue@.contains(p) {
                    assert forall|e: Edge| #[trigger] edge_ok(leaves@, patch, e) by {}
                }
            }
        }
    }
    proof {
        assert forall|p: Patch| #[trigger] leaves@.contains(p) implies level_ok(leaves@, p) by {
            assert(!queue@.contains(p));
        }
    }

    // The order is restored by traversal rather than by sorting.
    let ghost s = leaves@;
    let mut patches: Vec<Patch> = Vec::new();
    let mut face: usize = 0;
    while face < FACES
        invariant
            face <= FACES,
            leaves@ == s,
            partition(s),
            patches@ == traversal_prefix(s, face as nat),
        decreases FACES - face,
    {
        let root = Patch { face, level: 0, i: 0, j: 0 };
        proof {
            assert(root == Patch::root(face as nat));
            assert forall|q: Patch| s.contains(q) && root.descends_from(q) implies q == root by {
                lemma_descends_same_level(root, q);
            }
            lemma_reaches_leaf(s, root);
        }
        collect(root, &leaves, &mut patches);
        face = face + 1;
    }
    proof {
        lemma_traversal(s);
        reveal_with_fuel(traversal_prefix, 7);
        assert(patches@ =~= traversal(s));
        tree.unique_seq_to_set();
    }
    selection.patches = patches;
    selection.balanced = selection.patches.len() - before;
}

/// The traversal of the first `faces` faces.
pub open spec fn traversal_prefix(s: Set<Patch>, faces: nat) -> Seq<Patch>
    decreases faces,
{
    if faces == 0 {
        Seq::empty()
    } else {
        traversal_prefix(s, (faces - 1) as nat) + collect_of(s, Patch::root((faces - 1) as nat))
    }
}


/// No balanced partition that refines `leaves` can keep a leaf two or more
/// levels coarser than a neighbouring leaf of `leaves`: such a split is forced.
pub proof fn lemma_split_is_forced(
    leaves: Set<Patch>,
    patch: Patch,
    edge: Edge,
    coarse: Patch,
    r: Set<Patch>,
)
    requires
        leaf_set(leaves),
        leaves.contains(patch),
        covering_of(leaves, patch.neighbour_of(edge).patch) == Some(coarse),
        coarse.level + 2 <= patch.level,
        partition(r),
        balanced(r),
        refines(r, leaves),
    ensures
        !r.contains(coarse),
{
    let cell = patch.neighbour_of(edge).patch;
    lemma_neighbour_round_trip(patch, edge);
    lemma_covering(leaves, cell);
    if r.contains(coarse) {
        // The finest cell inside `patch` along `edge`, and the leaf of `r`
        // covering it.
        let m = (MAX_LEVEL - patch.level) as nat;
        lemma_toward_by(patch, edge, m, 0);
        let d = patch.toward_by(edge, m);
        lemma_covering(r, d);
        let q = covering_of(r, d)->0;
        let t = choose|t: Patch| leaves.contains(t) && q.descends_from(t);
        if q.level < patch.level {
            lemma_descends_comparable(d, q, patch);
            lemma_ancestor_at(q, t.level as nat);
            lemma_descends_trans(patch, q, t);
            assert(t == patch);
            lemma_descends_comparable(q, t, t);
            assert(false);
        }
        lemma_descends_comparable(d, patch, q);
        let k = (q.level - patch.level) as nat;
        lemma_toward_by(patch, edge, m, k);
        lemma_ancestor_at(d, q.level as nat);
        assert(q == patch.toward_by(edge, k));
        lemma_toward_by(patch, edge, k, 0);
        let n = q.neighbour_of(edge).patch;
        lemma_neighbour_round_trip(q, edge);
        lemma_descends_trans(n, cell, coarse);
        lemma_covering(r, n);
        assert(edge_ok(r, q, edge));
    }
}

/// A partition that refines `leaves` and does not keep `coarse` refines
/// `leaves` with `coarse` split.
pub proof fn lemma_refines_split(leaves: Set<Patch>, coarse: Patch, r: Set<Patch>)
    requires
        leaf_set(leaves),
        leaves.contains(coarse),
        coarse.level < MAX_LEVEL,
        leaf_set(r),
        refines(r, leaves),
        !r.contains(coarse),
    ensures
        refines(r, split(leaves, coarse)),
{
    lemma_children(coarse);
    assert forall|p: Patch| #[trigger] r.contains(p) implies exists|q: Patch|
        split(leaves, coarse).contains(q) && p.descends_from(q) by {
        let q = choose|q: Patch| leaves.contains(q) && p.descends_from(q);
        if q == coarse {
            lemma_descends_step(p, coarse);
            let c = p.ancestor_at((coarse.level + 1) as nat);
            assert(split(leaves, coarse).contains(c));
        } else {
            assert(split(leaves, coarse).contains(q));
        }
    }
}

/// `s` is refined by every balanced partition that refines `start`.
pub open spec fn coarsest(s: Set<Patch>, start: Set<Patch>) -> bool {
    forall|r: Set<Patch>|
        partition(r) && balanced(r) && refines(r, start) ==> #[trigger] refines(r, s)
}


/// Two sets of non-nested leaves that refine each other are the same set.
pub proof fn lemma_refines_antisymmetric(a: Set<Patch>, b: Set<Patch>)
    requires
        leaf_set(a),
        leaf_set(b),
        refines(a, b),
        refines(b, a),
    ensures
        a == b,
{
    assert forall|p: Patch| a.contains(p) implies b.contains(p) by {
        let q = choose|q: Patch| b.contains(q) && p.descends_from(q);
        let p2 = choose|p2: Patch| a.contains(p2) && q.descends_from(p2);
        lemma_descends_trans(p, q, p2);
        assert(p == p2);
        lemma_descends_same_level(q, p);
    }
    assert forall|p: Patch| b.contains(p) implies a.contains(p) by {
        let q = choose|q: Patch| a.contains(q) && p.descends_from(q);
        let p2 = choose|p2: Patch| b.contains(p2) && q.descends_from(p2);
        lemma_descends_trans(p, q, p2);
        assert(p == p2);
        lemma_descends_same_level(q, p);
    }
    assert(a =~= b);
}

/// Balancing a set that is already balanced keeps exactly its leaves: the
/// coarsest balanced refinement of a balanced partition is the partition
/// itself.
pub proof fn lemma_balanced_is_kept(input: Set<Patch>, result: Set<Patch>)
    requires
        partition(input),
        balanced(input),
        partition(result),
        refines(result, input),
        coarsest(result, input),
    ensures
        result == input,
{
    assert forall|p: Patch| #[trigger] input.contains(p) implies exists|q: Patch|
        input.contains(q) && p.descends_from(q) by {
        lemma_descends_refl(p);
    }
    assert(refines(input, input));
    assert(refines(input, result));
    lemma_refines_antisymmetric(input, result);
}

/// In a balanced set every coarser neighbour is exactly one level coarser,
/// which is what stitching needs.
pub proof fn lemma_balanced_steps(s: Set<Patch>)
    requires
        leaf_set(s),
        balanced(s),
    ensures
        one_level_steps(s),
{
    assert forall|p: Patch, edge: Edge| #[trigger]
        s.contains(p) && #[trigger] coarser_across(s, p, edge) implies covering_of(
        s,
        p.neighbour_of(edge).patch,
    )->0.level + 1 == p.level by {
        assert(edge_ok(s, p, edge));
    }
}


/// The level the selection does not descend below: the body's own floor, but
/// never past [`MAX_LEVEL`].
pub open spec fn level_cap(max_level: u32) -> nat {
    if max_level < MAX_LEVEL {
        max_level as nat
    } else {
        MAX_LEVEL as nat
    }
}

/// How many of `said` are `false`.
pub open spec fn count_false(said: Seq<bool>) -> nat
    decreases said.len(),
{
    if said.len() == 0 {
        0
    } else {
        count_false(said.drop_last()) + if said.last() {
            0nat
        } else {
            1nat
        }
    }
}

/// `leaves` is what the level selection keeps when it asks `fine` about the
/// patches from the six faces down and splits each patch that `fine` refuses
/// above level `cap`; `said[k]` is the answer `fine` gave for `leaves[k]`.
pub open spec fn chosen_by<F: Fn(Patch) -> bool>(
    fine: F,
    cap: nat,
    leaves: Seq<Patch>,
    said: Seq<bool>,
) -> bool {
    &&& leaves.len() == said.len()
    &&& leaves.no_duplicates()
    &&& partition(leaves.to_set())
    &&& forall|k: int|
        0 <= k < leaves.len() ==> {
            &&& call_ensures(fine, (#[trigger] leaves[k],), said[k])
            &&& leaves[k].level <= cap
            &&& (said[k] || leaves[k].level == cap)
        }
    &&& forall|k: int, q: Patch|
        0 <= k < leaves.len() && #[trigger] leaves[k].descends_from(q) && q != leaves[k] ==> q.level
            < cap && call_ensures(fine, (q,), false)
}

/// The weight of the six faces, each a full quadtree down to the floor.
proof fn lemma_root_weight()
    ensures
        weight(0) == 5592405,
{
    reveal_with_fuel(weight, 13);
}

/// The six faces cut the sphere into patches.
proof fn lemma_roots_partition(roots: Seq<Patch>)
    requires
        roots.len() == 6,
        forall|k: int| 0 <= k < 6 ==> #[trigger] roots[k] == Patch::root(k as nat),
    ensures
        partition(roots.to_set()),
        roots.no_duplicates(),
{
    let s = roots.to_set();
    assert forall|p: Patch| #[trigger] s.contains(p) implies p.wf() && p.level <= MAX_LEVEL by {
        let k = choose|k: int| 0 <= k < roots.len() && roots[k] == p;
        assert(roots[k] == Patch::root(k as nat));
    }
    assert forall|p: Patch, q: Patch|
        #[trigger] s.contains(p) && #[trigger] s.contains(q) && q.descends_from(p) implies p == q by {
        let a = choose|k: int| 0 <= k < roots.len() && roots[k] == p;
        let b = choose|k: int| 0 <= k < roots.len() && roots[k] == q;
        assert(roots[a] == Patch::root(a as nat));
        assert(roots[b] == Patch::root(b as nat));
        lemma_descends_same_level(q, p);
    }
    assert forall|c: Patch| c.wf() && c.level == MAX_LEVEL implies #[trigger] covering_of(s, c) is Some by {
        lemma_descends_from_root(c);
        let r = Patch::root(c.face as nat);
        assert(roots[c.face as int] == r);
        assert(s.contains(r));
        lemma_covering(s, c);
    }
    assert forall|a: int, b: int| 0 <= a < roots.len() && 0 <= b < roots.len() && a != b implies roots[a]
        != roots[b] by {
        assert(roots[a] == Patch::root(a as nat));
        assert(roots[b] == Patch::root(b as nat));
    }
}

/// The level cap is the smaller of the body's floor and [`MAX_LEVEL`].
pub proof fn lemma_level_cap(max_level: u32)
    ensures
        level_cap(max_level) <= max_level,
        level_cap(max_level) <= MAX_LEVEL,
        level_cap(max_level) == max_level || level_cap(max_level) == MAX_LEVEL,
{
}

/// A criterion that refuses every patch drives the selection down to the
/// level cap everywhere: every leaf stands at the smaller of the body's floor
/// and [`MAX_LEVEL`], and every leaf is counted as clamped.
pub proof fn lemma_refusing_criterion<F: Fn(Patch) -> bool>(
    fine: F,
    max_level: u32,
    leaves: Seq<Patch>,
    said: Seq<bool>,
)
    requires
        chosen_by(fine, level_cap(max_level), leaves, said),
        forall|p: Patch, b: bool| call_ensures(fine, (p,), b) ==> !b,
    ensures
        forall|k: int|
            0 <= k < leaves.len() ==> (#[trigger] leaves[k]).level == (if max_level < MAX_LEVEL {
                max_level
            } else {
                MAX_LEVEL
            }),
        count_false(said) == leaves.len(),
{
    lemma_level_cap(max_level);
    assert forall|k: int| 0 <= k < leaves.len() implies (#[trigger] leaves[k]).level == (if max_level
        < MAX_LEVEL {
        max_level
    } else {
        MAX_LEVEL
    }) by {
        assert(call_ensures(fine, (leaves[k],), said[k]));
    }
    assert forall|k: int| 0 <= k < said.len() implies !said[k] by {
        assert(call_ensures(fine, (leaves[k],), said[k]));
    }
    lemma_count_false_all(said);
}

/// Counting the `false` answers of a list with no `true` one gives its length.
proof fn lemma_count_false_all(said: Seq<bool>)
    requires
        forall|k: int| 0 <= k < said.len() ==> !said[k],
    ensures
        count_false(said) == said.len(),
    decreases said.len(),
{
    if said.len() > 0 {
        lemma_count_false_all(said.drop_last());
    }
}

/// The patch set for a body -- selected, balanced, stitched.
///
/// Selection starts from the six faces and asks `fine` of each patch: a
/// patch it accepts is kept, a patch it refuses is split into its four
/// children, unless it already stands at the level cap, where it is kept and
/// counted as clamped. `fine` is the error criterion; the set this gives is
/// then balanced and stitched.
pub fn select<F: Fn(Patch) -> bool>(fine: F, max_level: u32) -> (s: Selection)
    requires
        forall|p: Patch| p.wf() ==> call_requires(fine, (p,)),
    ensures
        exists|leaves: Seq<Patch>, said: Seq<bool>|
            {
                &&& #[trigger] chosen_by(fine, level_cap(max_level), leaves, said)
                &&& s.clamped == count_false(said)
                &&& refines(s.patches@.to_set(), leaves.to_set())
                &&& coarsest(s.patches@.to_set(), leaves.to_set())
                &&& s.balanced == s.patches@.len() - leaves.len()
                &&& forall|k: int|
                    0 <= k < leaves.len() ==> #[trigger] leaves[k].level <= max_level
                        && leaves[k].level <= MAX_LEVEL
                &&& forall|k: int|
                    0 <= k < leaves.len() && #[trigger] leaves[k].level < max_level
                        && leaves[k].level < MAX_LEVEL ==> call_ensures(fine, (leaves[k],), true)
                &&& forall|k: int, q: Patch|
                    0 <= k < leaves.len() && #[trigger] leaves[k].descends_from(q) && q
                        != leaves[k] ==> q.level < max_level && q.level < MAX_LEVEL
                        && call_ensures(fine, (q,), false)
            },
        s.patches@ == traversal(s.patches@.to_set()),
        s.patches@.no_duplicates(),
        partition(s.patches@.to_set()),
        balanced(s.patches@.to_set()),
        s.masks@.len() == s.patches@.len(),
        forall|k: int|
            0 <= k < s.patches@.len() ==> #[trigger] s.masks@[k] == mask_of(
                s.patches@.to_set(),
                s.patches@[k],
            ),
{
    let cap: u32 = if max_level < MAX_LEVEL {
        max_level
    } else {
        MAX_LEVEL
    };
    let mut out: Vec<Patch> = Vec::new();
    let mut stack: Vec<Patch> = Vec::new();
    let mut face: usize = FACES;
    while face > 0
        invariant
            face <= FACES,
            stack@.len() == FACES - face,
            forall|k: int| 0 <= k < stack@.len() ==> #[trigger] stack@[k] == Patch::root(
                (FACES - 1 - k) as nat,
            ),
        decreases face,
    {
        face = face - 1;
        stack.push(Patch { face, level: 0, i: 0, j: 0 });
    }
    let ghost mut said: Seq<bool> = Seq::empty();
    let mut clamped: usize = 0;
    proof {
        let roots = stack@.reverse();
        assert forall|k: int| 0 <= k < 6 implies #[trigger] roots[k] == Patch::root(k as nat) by {
            assert(roots[k] == stack@[5 - k]);
        }
        lemma_roots_partition(roots);
        assert(roots.to_set() =~= stack@.to_set()) by {
            assert forall|x: Patch| roots.contains(x) <==> stack@.contains(x) by {
                if roots.contains(x) {
                    let k = choose|k: int| 0 <= k < roots.len() && roots[k] == x;
                    assert(stack@[5 - k] == x);
                }
                if stack@.contains(x) {
                    let k = choose|k: int| 0 <= k < stack@.len() && stack@[k] == x;
                    assert(roots[5 - k] == x);
                }
            }
        }
        assert forall|a: int, b: int| 0 <= a < stack@.len() && 0 <= b < stack@.len() && a != b implies stack@[a]
            != stack@[b] by {
            assert(roots[5 - a] == stack@[a]);
            assert(roots[5 - b] == stack@[b]);
        }
        assert(out@.to_set() + stack@.to_set() =~= stack@.to_set());
        lemma_root_weight();
        reveal_with_fuel(potential, 7);
        assert(stack@.drop_last().drop_last().drop_last().drop_last().drop_last().drop_last().len() == 0);
        assert forall|k: int| 0 <= k < stack@.len() implies #[trigger] stack@[k].wf() && stack@[k].level
            <= cap by {
            assert(roots[5 - k] == stack@[k]);
        }
    }
    while stack.len() > 0
        invariant
            cap == level_cap(max_level),
            cap <= MAX_LEVEL,
            forall|p: Patch| p.wf() ==> call_requires(fine, (p,)),
            out@.no_duplicates(),
            stack@.no_duplicates(),
            forall|x: Patch| out@.contains(x) ==> !stack@.contains(x),
            partition(out@.to_set() + stack@.to_set()),
            said.len() == out@.len(),
            forall|k: int|
                0 <= k < out@.len() ==> {
                    &&& call_ensures(fine, (#[trigger] out@[k],), said[k])
                    &&& out@[k].level <= cap
                    &&& (said[k] || out@[k].level == cap)
                },
            forall|k: int| #![trigger stack@[k]] 0 <= k < stack@.len() ==> stack@[k].wf() && stack@[k].level <= cap,
            forall|k: int, q: Patch|
                0 <= k < out@.len() && #[trigger] out@[k].descends_from(q) && q != out@[k] ==> q.level
                    < cap && call_ensures(fine, (q,), false),
            forall|k: int, q: Patch|
                0 <= k < stack@.len() && #[trigger] stack@[k].descends_from(q) && q != stack@[k]
                    ==> q.level < cap && call_ensures(fine, (q,), false),
            clamped == count_false(said),
            clamped <= out@.len(),
            out@.len() + stack@.len() + 3 * potential(stack@) <= 100663296,
        decreases potential(stack@), stack@.len(),
    {
        let ghost before = stack@;
        let p = stack.pop().unwrap();
        proof {
            assert(before.last() == p);
            assert(before[before.len() - 1].wf() && before[before.len() - 1].level <= cap);
            assert(stack@ == before.drop_last());
            assert(before.contains(p));
            assert(potential(before) == potential(stack@) + weight(p.level as nat));
        }
        let ok = fine(p);
        if ok || p.level >= cap {
            if !ok {
                clamped = clamped + 1;
            }
            let ghost old_out = out@;
            out.push(p);
            proof {
                let said0 = said;
                said = said.push(ok);
                assert(said.drop_last() =~= said0);
                assert(out@.to_set() + stack@.to_set() =~= old_out.to_set() + before.to_set()) by {
                    assert forall|x: Patch| (out@.contains(x) || stack@.contains(x)) <==> (old_out.contains(x)
                        || before.contains(x)) by {
                        if out@.contains(x) {
                            let k = choose|k: int| 0 <= k < out@.len() && out@[k] == x;
                            if k < old_out.len() {
                                assert(old_out[k] == x);
                            }
                        }
                        if stack@.contains(x) {
                            let k = choose|k: int| 0 <= k < stack@.len() && stack@[k] == x;
                            assert(before[k] == x);
                        }
                        if old_out.contains(x) {
                            let k = choose|k: int| 0 <= k < old_out.len() && old_out[k] == x;
                            assert(out@[k] == x);
                        }
                        if before.contains(x) {
                            let k = choose|k: int| 0 <= k < before.len() && before[k] == x;
                            if k < stack@.len() {
                                assert(stack@[k] == x);
                            } else {
                                assert(out@[old_out.len() as int] == x);
                            }
                        }
                    }
                }
                assert forall|a: int, b: int| 0 <= a < out@.len() && 0 <= b < out@.len() && a != b implies out@[a]
                    != out@[b] by {
                    if a < old_out.len() {
                        assert(old_out.contains(out@[a]));
                    }
                    if b < old_out.len() {
                        assert(old_out.contains(out@[b]));
                    }
                }
                assert forall|x: Patch| out@.contains(x) implies !stack@.contains(x) by {
                    let k = choose|k: int| 0 <= k < out@.len() && out@[k] == x;
                    if stack@.contains(x) {
                        let m = choose|m: int| 0 <= m < stack@.len() && stack@[m] == x;
                        assert(before[m] == x);
                        assert(before[before.len() - 1] == p);
                        if k < old_out.len() {
                            assert(old_out.contains(x));
                        }
                    }
                }
                assert forall|k: int, q: Patch|
                    0 <= k < out@.len() && #[trigger] out@[k].descends_from(q) && q != out@[k] implies q.level
                        < cap && call_ensures(fine, (q,), false) by {
                    if k == old_out.len() {
                        assert(before[before.len() - 1].descends_from(q));
                    } else {
                        assert(old_out[k] == out@[k]);
                    }
                }
                assert forall|k: int, q: Patch|
                    0 <= k < stack@.len() && #[trigger] stack@[k].descends_from(q) && q != stack@[k]
                        implies q.level < cap && call_ensures(fine, (q,), false) by {
                    assert(before[k] == stack@[k]);
                }
                assert forall|k: int| 0 <= k < stack@.len() implies #[trigger] stack@[k].wf() && stack@[k].level
                    <= cap by {
                    assert(before[k] == stack@[k]);
                }
            }
        } else {
            proof {
                let u = out@.to_set() + before.to_set();
                assert(before[before.len() - 1] == p);
                assert(p.wf() && p.level < cap);
                assert(u.contains(p));
                lemma_children(p);
                lemma_split_partition(u, p);
                lemma_span_monotone(p.level as nat, 31);
                lemma_span_32();
                assert(span(31) == 0x8000_0000) by {
                    reveal_with_fuel(span, 32);
                }
            }
            let children = p.children();
            let ghost mid = stack@;
            stack.push(children[0]);
            stack.push(children[1]);
            stack.push(children[2]);
            stack.push(children[3]);
            proof {
                let u = out@.to_set() + before.to_set();
                let c = seq![p.child_at(0), p.child_at(1), p.child_at(2), p.child_at(3)];
                assert(stack@ =~= mid + c);
                assert forall|m: int| 0 <= m < 4 implies !u.contains(#[trigger] c[m]) by {
                    assert(c[m] == p.child_at(m));
                    if u.contains(c[m]) {
                        lemma_descends_same_level(c[m], p);
                    }
                }
                assert(out@.to_set() + stack@.to_set() =~= split(u, p)) by {
                    assert forall|x: Patch| (out@.contains(x) || stack@.contains(x)) <==> split(u, p).contains(x) by {
                        if stack@.contains(x) {
                            let k = choose|k: int| 0 <= k < stack@.len() && stack@[k] == x;
                            if k < mid.len() {
                                assert(before[k] == x);
                                assert(x != p);
                            } else {
                                assert(x == c[k - mid.len()]);
                            }
                        }
                        if out@.contains(x) {
                            assert(x != p);
                        }
                        if split(u, p).contains(x) {
                            if x == p.child_at(0) {
                                assert(stack@[mid.len() as int] == x);
                            } else if x == p.child_at(1) {
                                assert(stack@[mid.len() as int + 1] == x);
                            } else if x == p.child_at(2) {
                                assert(stack@[mid.len() as int + 2] == x);
                            } else if x == p.child_at(3) {
                                assert(stack@[mid.len() as int + 3] == x);
                            } else if before.contains(x) && !out@.contains(x) {
                                let k = choose|k: int| 0 <= k < before.len() && before[k] == x;
                                assert(k != before.len() - 1);
                                assert(stack@[k] == x);
                            }
                        }
                    }
                }
                assert forall|a: int, b: int| 0 <= a < stack@.len() && 0 <= b < stack@.len() && a != b implies stack@[a]
                    != stack@[b] by {
                    if a < mid.len() {
                        assert(before[a] == stack@[a]);
                        assert(u.contains(stack@[a]));
                    } else {
                        assert(stack@[a] == c[a - mid.len()]);
                    }
                    if b < mid.len() {
                        assert(before[b] == stack@[b]);
                        assert(u.contains(stack@[b]));
                    } else {
                        assert(stack@[b] == c[b - mid.len()]);
                    }
                }
                assert forall|x: Patch| out@.contains(x) implies !stack@.contains(x) by {
                    if stack@.contains(x) {
                        let k = choose|k: int| 0 <= k < stack@.len() && stack@[k] == x;
                        if k < mid.len() {
                            assert(before[k] == x);
                        } else {
                            assert(x == c[k - mid.len()]);
                            assert(u.contains(x));
                        }
                    }
                }
                assert forall|k: int| 0 <= k < stack@.len() implies #[trigger] stack@[k].wf() && stack@[k].level
                    <= cap by {
                    if k < mid.len() {
                        assert(before[k] == stack@[k]);
                    } else {
                        assert(stack@[k] == c[k - mid.len()]);
                    }
                }
                assert forall|k: int, q: Patch|
                    0 <= k < stack@.len() && #[trigger] stack@[k].descends_from(q) && q != stack@[k]
                        implies q.level < cap && call_ensures(fine, (q,), false) by {
                    if k < mid.len() {
                        assert(before[k] == stack@[k]);
                    } else {
                        let x = stack@[k];
                        assert(x == c[k - mid.len()]);
                        assert(x.descends_from(p));
                        if q.level == x.level {
                            lemma_descends_same_level(x, q);
                        }
                        lemma_descends_comparable(x, q, p);
                        if q != p {
                            assert(before[before.len() - 1].descends_from(q));
                        }
                    }
                }
                assert(weight(p.level as nat) == 1 + 4 * weight((p.level + 1) as nat));
                let w = weight((p.level + 1) as nat);
                assert(stack@.drop_last() =~= mid + seq![p.child_at(0), p.child_at(1), p.child_at(2)]);
                assert(stack@.drop_last().drop_last() =~= mid + seq![p.child_at(0), p.child_at(1)]);
                assert(stack@.drop_last().drop_last().drop_last() =~= mid + seq![p.child_at(0)]);
                assert(stack@.drop_last().drop_last().drop_last().drop_last() =~= mid);
                assert(potential(stack@) == potential(stack@.drop_last()) + w);
                assert(potential(stack@.drop_last()) == potential(stack@.drop_last().drop_last()) + w);
                assert(potential(stack@.drop_last().drop_last()) == potential(
                    stack@.drop_last().drop_last().drop_last(),
                ) + w);
                assert(potential(stack@.drop_last().drop_last().drop_last()) == potential(mid) + w);
            }
        }
    }
    proof {
        assert(out@.to_set() + stack@.to_set() =~= out@.to_set());
        assert forall|k: int| 0 <= k < out@.len() implies #[trigger] out@[k].level <= MAX_LEVEL by {
        }
        assert(chosen_by(fine, level_cap(max_level), out@, said));
    }
    let ghost leaves = out@;
    proof {
        lemma_level_cap(max_level);
    }
    let mut selection = Selection { patches: out, masks: Vec::new(), clamped, balanced: 0 };
    balance(&mut selection);
    proof {
        let set = selection.patches@.to_set();
        assert forall|k: int| 0 <= k < selection.patches@.len() implies (
        #[trigger] selection.patches@[k]).wf() by {
            assert(set.contains(selection.patches@[k]));
        }
        lemma_balanced_steps(set);
    }
    selection.masks = stitching(selection.patches.as_slice());
    selection
}

} // verus!
