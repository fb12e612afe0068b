use engine::cubesphere::{indices, Edge, Neighbour, Patch, EDGES, FACES, SIDE};

fn patch(face: usize, level: u32, i: u32, j: u32) -> Patch {
    Patch { face, level, i, j }
}

fn all_patches(max_level: u32) -> Vec<Patch> {
    let mut out = Vec::new();
    for face in 0..FACES {
        for level in 0..=max_level {
            let side = 1u32 << level;
            for i in 0..side {
                for j in 0..side {
                    out.push(patch(face, level, i, j));
                }
            }
        }
    }
    out
}

#[test]
fn each_edge_has_its_own_bit() {
    assert_eq!(Edge::AMin.bit(), 1);
    assert_eq!(Edge::AMax.bit(), 2);
    assert_eq!(Edge::BMin.bit(), 4);
    assert_eq!(Edge::BMax.bit(), 8);
    let total: u32 = EDGES.iter().map(|e| u32::from(e.bit())).sum();
    assert_eq!(total, 15);
}

#[test]
fn the_opposite_of_the_opposite_is_the_edge() {
    for edge in EDGES {
        assert_ne!(edge.opposite(), edge);
        assert_eq!(edge.opposite().opposite(), edge);
        assert_eq!(edge.opposite().along_a(), edge.along_a());
        assert_ne!(edge.opposite().positive(), edge.positive());
    }
    assert!(Edge::AMin.along_a() && Edge::AMax.along_a());
    assert!(!Edge::BMin.along_a() && !Edge::BMax.along_a());
    assert!(Edge::AMax.positive() && Edge::BMax.positive());
}

#[test]
fn face_nodes_double_with_every_level() {
    assert_eq!(Patch::face_nodes(0), 32);
    assert_eq!(Patch::face_nodes(1), 64);
    assert_eq!(Patch::face_nodes(12), 32 * 4096);
}

#[test]
fn a_node_is_placed_in_face_coordinates() {
    let p = patch(2, 3, 5, 6);
    assert_eq!(p.node(0, 0), (5 * SIDE, 6 * SIDE));
    assert_eq!(p.node(SIDE, 7), (6 * SIDE, 6 * SIDE + 7));
}

#[test]
fn level_zero_has_no_parent() {
    assert_eq!(patch(4, 0, 0, 0).parent(), None);
    assert_eq!(patch(4, 3, 5, 2).parent(), Some(patch(4, 2, 2, 1)));
}

#[test]
fn children_come_in_a_fixed_order_and_know_their_parent() {
    let p = patch(1, 2, 3, 1);
    let c = p.children();
    assert_eq!(c[0], patch(1, 3, 6, 2));
    assert_eq!(c[1], patch(1, 3, 6, 3));
    assert_eq!(c[2], patch(1, 3, 7, 2));
    assert_eq!(c[3], patch(1, 3, 7, 3));
    for child in c {
        assert_eq!(child.parent(), Some(p));
    }
}

#[test]
fn a_neighbour_inside_the_face_is_the_adjacent_cell() {
    let p = patch(0, 2, 1, 2);
    assert_eq!(p.neighbour(Edge::AMin), Neighbour { patch: patch(0, 2, 0, 2), edge: Edge::AMax });
    assert_eq!(p.neighbour(Edge::AMax), Neighbour { patch: patch(0, 2, 2, 2), edge: Edge::AMin });
    assert_eq!(p.neighbour(Edge::BMin), Neighbour { patch: patch(0, 2, 1, 1), edge: Edge::BMax });
    assert_eq!(p.neighbour(Edge::BMax), Neighbour { patch: patch(0, 2, 1, 3), edge: Edge::BMin });
}

#[test]
fn crossing_a_cube_edge_lands_on_the_right_face() {
    // +X leaving through y = +1 arrives on +Y at its x = +1 row.
    assert_eq!(
        patch(0, 1, 1, 0).neighbour(Edge::AMax),
        Neighbour { patch: patch(2, 1, 1, 0), edge: Edge::AMax }
    );
    // +X leaving through y = -1 arrives on -Y at its x = +1 row.
    assert_eq!(
        patch(0, 0, 0, 0).neighbour(Edge::AMin),
        Neighbour { patch: patch(3, 0, 0, 0), edge: Edge::AMax }
    );
    // +Z leaving through x = -1 arrives on -X at its z = +1 column.
    assert_eq!(
        patch(4, 2, 0, 3).neighbour(Edge::AMin),
        Neighbour { patch: patch(1, 2, 3, 3), edge: Edge::BMax }
    );
}

#[test]
fn every_crossing_comes_back() {
    for p in all_patches(3) {
        for edge in EDGES {
            let n = p.neighbour(edge);
            assert_eq!(n.patch.level, p.level);
            assert_eq!(n.patch.neighbour(n.edge), Neighbour { patch: p, edge }, "{p:?} {edge:?}");
        }
    }
}

#[test]
fn the_index_along_a_shared_edge_is_never_reversed() {
    let along = |p: Patch, e: Edge| if e.along_a() { p.j } else { p.i };
    for p in all_patches(3) {
        for edge in EDGES {
            let n = p.neighbour(edge);
            assert_eq!(along(n.patch, n.edge), along(p, edge));
        }
    }
}

#[test]
fn each_patch_has_four_different_neighbours() {
    for p in all_patches(3).into_iter().filter(|p| p.level > 0) {
        let mut seen: Vec<Patch> = EDGES.iter().map(|&e| p.neighbour(e).patch).collect();
        seen.sort_by_key(|q| (q.face, q.i, q.j));
        seen.dedup();
        assert_eq!(seen.len(), 4, "{p:?}");
        assert!(!seen.contains(&p));
    }
}

#[test]
fn the_halo_node_is_one_step_inside_the_neighbour() {
    let p = patch(0, 2, 1, 2);
    assert_eq!(p.halo_node(Edge::AMax, 5), (patch(0, 2, 2, 2), 1, 5));
    assert_eq!(p.halo_node(Edge::AMin, 5), (patch(0, 2, 0, 2), SIDE - 1, 5));
    assert_eq!(p.halo_node(Edge::BMax, 7), (patch(0, 2, 1, 3), 7, 1));
    assert_eq!(p.halo_node(Edge::BMin, 7), (patch(0, 2, 1, 1), 7, SIDE - 1));
    // Across a cube edge the neighbour's own edge decides.
    assert_eq!(patch(4, 2, 0, 3).halo_node(Edge::AMin, 9), (patch(1, 2, 3, 3), 9, SIDE - 1));
}

#[test]
fn without_stitching_the_grid_is_plain() {
    let list = indices(0);
    assert_eq!(list.len(), SIDE * SIDE * 6);
    assert_eq!(&list[0..6], &[0, 33, 1, 1, 33, 34]);
    let stride = (SIDE + 1) as u32;
    for a in 0..SIDE {
        for b in 0..SIDE {
            let at = (a * SIDE + b) * 6;
            let v00 = a as u32 * stride + b as u32;
            assert_eq!(
                &list[at..at + 6],
                &[v00, v00 + stride, v00 + 1, v00 + 1, v00 + stride, v00 + stride + 1]
            );
        }
    }
}

#[test]
fn every_index_is_in_range() {
    for mask in 0..16u8 {
        assert!(indices(mask).iter().all(|&v| (v as usize) < (SIDE + 1) * (SIDE + 1)));
    }
}

#[test]
fn a_stitched_edge_uses_only_even_nodes() {
    let stride = SIDE + 1;
    for mask in 0..16u8 {
        let list = indices(mask);
        for &v in &list {
            let (a, b) = (v as usize / stride, v as usize % stride);
            if a == 0 && mask & Edge::AMin.bit() != 0 {
                assert_eq!(b % 2, 0, "mask {mask}: node ({a}, {b})");
            }
            if a == SIDE && mask & Edge::AMax.bit() != 0 {
                assert_eq!(b % 2, 0, "mask {mask}: node ({a}, {b})");
            }
            if b == 0 && mask & Edge::BMin.bit() != 0 {
                assert_eq!(a % 2, 0, "mask {mask}: node ({a}, {b})");
            }
            if b == SIDE && mask & Edge::BMax.bit() != 0 {
                assert_eq!(a % 2, 0, "mask {mask}: node ({a}, {b})");
            }
        }
    }
}

#[test]
fn a_stitched_edge_costs_one_degenerate_triangle_per_cell() {
    for (mask, edges) in [(0u8, 0usize), (1, 1), (2, 1), (4, 1), (8, 1), (3, 2), (12, 2)] {
        let list = indices(mask);
        let degenerate = list
            .chunks_exact(3)
            .filter(|t| t[0] == t[1] || t[1] == t[2] || t[0] == t[2])
            .count();
        assert_eq!(degenerate, edges * SIDE / 2, "mask {mask}");
    }
}
