use engine::cubesphere::{Edge, Patch, EDGES, FACES, SIDE};
use engine::lod::{balance, collect, covering, select, stitching, vertex_count, PatchSet, Selection, MAX_LEVEL};

fn patch(face: usize, level: u32, i: u32, j: u32) -> Patch {
    Patch { face, level, i, j }
}

fn roots() -> Vec<Patch> {
    (0..FACES).map(|face| patch(face, 0, 0, 0)).collect()
}

/// Replace `p` in `set` by its four children.
fn split(set: &mut Vec<Patch>, p: Patch) {
    let at = set.iter().position(|&q| q == p).expect("a leaf");
    set.remove(at);
    set.extend_from_slice(&p.children());
}

fn selection(patches: Vec<Patch>) -> Selection {
    Selection { patches, masks: vec![7, 7], clamped: 3, balanced: 0 }
}

/// The area of each patch in finest cells, summed: the whole sphere once.
fn area(patches: &[Patch]) -> u64 {
    patches.iter().map(|p| 1u64 << (2 * (MAX_LEVEL - p.level))).sum()
}

fn assert_balanced(patches: &[Patch]) {
    let set = PatchSet::from_patches(patches);
    for &p in patches {
        for edge in EDGES {
            if let Some(q) = covering(&set, p.neighbour(edge).patch) {
                assert!(p.level < q.level + 2, "{p:?} across {edge:?} meets {q:?}");
            }
        }
    }
}

/// A face refined down to level `depth` in its first corner.
fn corner(depth: u32) -> Vec<Patch> {
    let mut set = roots();
    for level in 0..depth {
        split(&mut set, patch(0, level, 0, 0));
    }
    set
}

#[test]
fn a_patch_set_holds_what_was_put_in() {
    let mut set = PatchSet::new();
    let a = patch(2, 3, 1, 7);
    assert!(!set.contains(&a));
    set.insert(a);
    assert!(set.contains(&a));
    assert!(!set.contains(&patch(2, 3, 7, 1)));
    set.remove(&a);
    assert!(!set.contains(&a));
}

#[test]
fn the_covering_leaf_is_the_nearest_ancestor() {
    let set = PatchSet::from_patches(&corner(2));
    assert_eq!(covering(&set, patch(0, 5, 31, 31)), Some(patch(0, 1, 1, 1)));
    assert_eq!(covering(&set, patch(0, 2, 1, 0)), Some(patch(0, 2, 1, 0)));
    assert_eq!(covering(&set, patch(3, 4, 9, 2)), Some(patch(3, 0, 0, 0)));
    // Finer on this side: nothing covers the coarse cell.
    assert_eq!(covering(&set, patch(0, 1, 0, 0)), None);
    assert_eq!(covering(&set, patch(0, 0, 0, 0)), None);
}

#[test]
fn collect_walks_children_by_i_then_j() {
    let set = PatchSet::from_patches(&corner(2));
    let mut out = vec![patch(5, 0, 0, 0)];
    collect(patch(0, 0, 0, 0), &set, &mut out);
    assert_eq!(
        out,
        vec![
            patch(5, 0, 0, 0),
            patch(0, 2, 0, 0),
            patch(0, 2, 0, 1),
            patch(0, 2, 1, 0),
            patch(0, 2, 1, 1),
            patch(0, 1, 0, 1),
            patch(0, 1, 1, 0),
            patch(0, 1, 1, 1),
        ]
    );
}

#[test]
fn a_balanced_set_is_only_reordered() {
    let mut input = corner(1);
    input.reverse();
    let mut s = selection(input.clone());
    balance(&mut s);
    assert_eq!(s.balanced, 0);
    assert_eq!(s.patches.len(), input.len());
    assert_eq!(s.patches[0..4].to_vec(), patch(0, 0, 0, 0).children().to_vec());
    assert_eq!(s.patches[4..].to_vec(), (1..FACES).map(|f| patch(f, 0, 0, 0)).collect::<Vec<_>>());
    assert_eq!(s.masks, vec![7, 7]);
    assert_eq!(s.clamped, 3);
}

#[test]
fn a_deep_corner_drags_its_neighbours_down() {
    let input = corner(5);
    let before = input.len();
    let mut s = selection(input.clone());
    balance(&mut s);
    assert!(s.balanced > 0);
    assert_eq!(s.balanced, s.patches.len() - before);
    assert_eq!(area(&s.patches), 6 << (2 * MAX_LEVEL));
    assert_balanced(&s.patches);
    // Every input leaf is kept or refined, never coarsened.
    let out = PatchSet::from_patches(&s.patches);
    for &p in &input {
        let mut finer_or_same = out.contains(&p);
        for &q in &s.patches {
            let mut up = q;
            while up.level > p.level {
                up = up.parent().unwrap();
            }
            finer_or_same |= up == p;
        }
        assert!(finer_or_same, "{p:?} was coarsened");
    }
    // The traversal order: faces in order.
    assert!(s.patches.windows(2).all(|w| w[0].face <= w[1].face));
    // Balancing again changes nothing.
    let again = s.patches.clone();
    balance(&mut s);
    assert_eq!(s.balanced, 0);
    assert_eq!(s.patches, again);
}

#[test]
fn balancing_refines_across_a_cube_edge() {
    let mut s = selection(corner(3));
    balance(&mut s);
    // The level-3 corner of +X touches -Y: -Y cannot stay whole.
    let set = PatchSet::from_patches(&s.patches);
    assert!(!set.contains(&patch(3, 0, 0, 0)));
    assert_balanced(&s.patches);
}

#[test]
fn masks_mark_the_coarser_sides() {
    let patches = corner(1);
    let masks = stitching(&patches);
    assert_eq!(masks.len(), patches.len());
    for (p, &mask) in patches.iter().zip(&masks) {
        if p.face == 0 {
            // Two of each child's edges are face edges, across which a whole face lies.
            let expected = match (p.i, p.j) {
                (0, 0) => Edge::AMin.bit() | Edge::BMin.bit(),
                (0, 1) => Edge::AMin.bit() | Edge::BMax.bit(),
                (1, 0) => Edge::AMax.bit() | Edge::BMin.bit(),
                _ => Edge::AMax.bit() | Edge::BMax.bit(),
            };
            assert_eq!(mask, expected, "{p:?}");
        } else {
            assert_eq!(mask, 0, "{p:?}");
        }
    }
}

#[test]
fn stitching_a_balanced_set_marks_one_level_steps_only() {
    let mut s = selection(corner(4));
    balance(&mut s);
    let masks = stitching(&s.patches);
    let set = PatchSet::from_patches(&s.patches);
    for (p, &mask) in s.patches.iter().zip(&masks) {
        for edge in EDGES {
            let coarser = match covering(&set, p.neighbour(edge).patch) {
                Some(q) => q.level < p.level,
                None => false,
            };
            assert_eq!(mask & edge.bit() != 0, coarser);
        }
    }
}

#[test]
fn a_patch_costs_its_grid_of_vertices() {
    let s = selection(roots());
    assert_eq!(vertex_count(&s), 6 * (SIDE + 1) * (SIDE + 1));
    assert_eq!(vertex_count(&selection(vec![])), 0);
}

#[test]
fn a_criterion_that_accepts_everything_keeps_the_faces() {
    let s = select(|_p: Patch| true, MAX_LEVEL);
    assert_eq!(s.patches, roots());
    assert_eq!(s.masks, vec![0; 6]);
    assert_eq!((s.clamped, s.balanced), (0, 0));
}

#[test]
fn a_uniform_criterion_gives_a_uniform_level() {
    let s = select(|p: Patch| p.level >= 2, MAX_LEVEL);
    assert_eq!(s.patches.len(), 6 * 16);
    assert!(s.patches.iter().all(|p| p.level == 2));
    assert_eq!(s.masks, vec![0; 6 * 16]);
    assert_eq!((s.clamped, s.balanced), (0, 0));
    // Traversal order: face by face, depth first, children by (i, j).
    assert_eq!(s.patches[0], patch(0, 2, 0, 0));
    assert_eq!(s.patches[1], patch(0, 2, 0, 1));
    assert_eq!(s.patches[2], patch(0, 2, 1, 0));
    assert_eq!(s.patches[4], patch(0, 2, 0, 2));
    assert_eq!(s.patches[16], patch(1, 2, 0, 0));
}

#[test]
fn a_refusing_criterion_stops_at_the_body_floor() {
    let s = select(|_p: Patch| false, 0);
    assert_eq!(s.patches, roots());
    assert_eq!(s.clamped, 6);
    let s = select(|_p: Patch| false, 1);
    assert_eq!(s.patches.len(), 24);
    assert!(s.patches.iter().all(|p| p.level == 1));
    assert_eq!(s.clamped, 24);
    assert_eq!(s.balanced, 0);
}

#[test]
fn a_refined_corner_is_balanced_and_stitched() {
    let deep = |p: Patch| !(p.face == 0 && p.i == 0 && p.j == 0 && p.level < 4);
    let s = select(deep, MAX_LEVEL);
    // What the criterion alone gives: the corner (4 + 3 * 3 patches on face 0)
    // and five whole faces.
    assert_eq!(s.balanced, s.patches.len() - (4 + 3 * 3 + 5));
    assert!(s.balanced > 0);
    assert_eq!(s.clamped, 0);
    assert_eq!(area(&s.patches), 6 << (2 * MAX_LEVEL));
    assert_balanced(&s.patches);
    assert_eq!(s.masks, stitching(&s.patches));
    assert!(s.masks.iter().any(|&m| m != 0));
    let mut copy = selection(s.patches.clone());
    balance(&mut copy);
    assert_eq!(copy.patches, s.patches);
}

#[test]
fn selecting_a_balanced_set_again_gives_it_back() {
    let first = select(|p: Patch| !(p.face == 2 && p.i == 1 && p.j == 1 && p.level < 3), 5);
    let set = PatchSet::from_patches(&first.patches);
    let again = select(|p: Patch| set.contains(&p), 5);
    assert_eq!(again.patches, first.patches);
    assert_eq!(again.masks, first.masks);
    assert_eq!(again.balanced, 0);
}
