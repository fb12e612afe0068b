use engine::ship::{hull_indices, SEGMENTS};

#[test]
fn every_hull_index_is_a_hull_vertex() {
    let rings: u32 = 14;
    let base: u32 = 100;
    let indices = hull_indices(base, rings, SEGMENTS);
    assert_eq!(indices.len() as u32, (rings - 1) * SEGMENTS * 6);
    assert_eq!(indices.len() % 3, 0);
    let count = rings * (SEGMENTS + 1);
    for &i in &indices {
        assert!(i >= base && i < base + count, "index {i} outside {count} vertices from {base}");
    }
}

#[test]
fn two_triangles_join_neighbouring_rings() {
    let indices = hull_indices(0, 3, 4);
    assert_eq!(indices.len(), 2 * 4 * 6);
    // Ring 0 is vertices 0..5, ring 1 is 5..10.
    assert_eq!(&indices[0..6], &[0, 1, 5, 1, 6, 5]);
    assert_eq!(&indices[6..12], &[1, 2, 6, 2, 7, 6]);
    // The first quad between ring 1 and ring 2.
    assert_eq!(&indices[24..30], &[5, 6, 10, 6, 11, 10]);
    // The seam is a repeated vertex: the last segment ends at vertex 4, not 0.
    assert_eq!(&indices[18..24], &[3, 4, 8, 4, 9, 8]);
}

#[test]
fn a_single_ring_has_no_triangles() {
    assert!(hull_indices(7, 1, SEGMENTS).is_empty());
}
