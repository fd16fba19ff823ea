use ardh::skirt_grid::{skirt_axis_vertex_count, skirt_grid_indices, skirt_vertex, SkirtVertex};

#[test]
fn axis_vertex_count_adds_skirt() {
    assert_eq!(skirt_axis_vertex_count(0), 4);
    assert_eq!(skirt_axis_vertex_count(16), 20);
}

#[test]
fn indices_of_unsubdivided_grid() {
    let idx = skirt_grid_indices(0);
    assert_eq!(idx.len(), 6 * 3 * 3);
    assert_eq!(&idx[0..6], &[5, 1, 4, 0, 4, 1]);
    assert_eq!(&idx[6..12], &[6, 2, 5, 1, 5, 2]);
    assert_eq!(&idx[18..24], &[9, 5, 8, 4, 8, 5]);
    assert_eq!(&idx[48..54], &[15, 11, 14, 10, 14, 11]);
}

#[test]
fn indices_follow_quads_row_by_row() {
    let s = 16u32;
    let c = (s + 4) as usize;
    let idx = skirt_grid_indices(s);
    assert_eq!(idx.len(), 6 * (c - 1) * (c - 1));
    for y in 0..c - 1 {
        for x in 0..c - 1 {
            let q = (y * c + x) as u32;
            let w = c as u32;
            let at = 6 * (y * (c - 1) + x);
            assert_eq!(&idx[at..at + 6], &[q + w + 1, q + 1, q + w, q, q + w, q + 1]);
        }
    }
    assert!(idx.iter().all(|&i| (i as usize) < c * c));
}

#[test]
fn largest_accepted_subdivision_count() {
    let s: u32 = 26753;
    assert!(6u64 * (s as u64 + 1) * (s as u64 + 1) <= u32::MAX as u64);
    assert!(6u64 * (s as u64 + 2) * (s as u64 + 2) > u32::MAX as u64);
    assert_eq!(skirt_axis_vertex_count(s), s + 4);
}

#[test]
fn skirt_vertices_fold_onto_the_plane() {
    // four vertices per side: columns 0 and 3 are skirt, 1 and 2 are plane
    assert_eq!(skirt_vertex(0, 0, 0), SkirtVertex { x: 1, z: 1, skirt_x: true, skirt_z: true });
    assert_eq!(skirt_vertex(0, 1, 2), SkirtVertex { x: 1, z: 2, skirt_x: false, skirt_z: false });
    assert_eq!(skirt_vertex(0, 3, 1), SkirtVertex { x: 2, z: 1, skirt_x: true, skirt_z: false });
    assert_eq!(skirt_vertex(0, 2, 3), SkirtVertex { x: 2, z: 2, skirt_x: false, skirt_z: true });
    assert_eq!(skirt_vertex(16, 19, 0), SkirtVertex { x: 18, z: 1, skirt_x: true, skirt_z: true });
    assert_eq!(skirt_vertex(16, 10, 18), SkirtVertex { x: 10, z: 18, skirt_x: false, skirt_z: false });
}
