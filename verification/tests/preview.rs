use pinturapp::renderer::preview::{add_edge, edge_endpoints, edge_key_of, pick_triangle, unique_mesh_edges, NO_TRIANGLE};
use std::collections::HashSet;

#[test]
fn pick_reads_the_triangle_under_the_pixel() {
    // 2 x 2 buffer: triangle 1 at (1, 0), triangle 0 at (0, 1), the rest empty.
    let tri_ids = vec![NO_TRIANGLE, 1, 0, NO_TRIANGLE];
    let indices = vec![0, 1, 2, 2, 1, 3];
    assert_eq!(pick_triangle(&tri_ids, 2, 2, 1, 0, &indices), Some((1, [2, 1, 3])));
    assert_eq!(pick_triangle(&tri_ids, 2, 2, 0, 1, &indices), Some((2, [0, 1, 2])));
}

#[test]
fn pick_misses_outside_and_on_empty_pixels() {
    let tri_ids = vec![NO_TRIANGLE, 1, 0, NO_TRIANGLE];
    let indices = vec![0, 1, 2, 2, 1, 3];
    assert_eq!(pick_triangle(&tri_ids, 2, 2, 0, 0, &indices), None);
    assert_eq!(pick_triangle(&tri_ids, 2, 2, -1, 0, &indices), None);
    assert_eq!(pick_triangle(&tri_ids, 2, 2, 0, -3, &indices), None);
    assert_eq!(pick_triangle(&tri_ids, 2, 2, 2, 0, &indices), None);
    assert_eq!(pick_triangle(&tri_ids, 2, 2, 0, 2, &indices), None);
}

#[test]
fn pick_misses_a_triangle_the_mesh_lacks() {
    let tri_ids = vec![5];
    let indices = vec![0, 1, 2];
    assert_eq!(pick_triangle(&tri_ids, 1, 1, 0, 0, &indices), None);
    // A partial last triangle does not count either.
    let tri_ids = vec![1];
    assert_eq!(pick_triangle(&tri_ids, 1, 1, 0, 0, &vec![0, 1, 2, 3, 4]), None);
}

#[test]
fn edge_keys_ignore_direction() {
    assert_eq!(edge_key_of(3, 7), edge_key_of(7, 3));
    assert_eq!(edge_key_of(3, 7), (3u64 << 32) | 7);
    assert_eq!(edge_endpoints(edge_key_of(9, 2)), (2, 9));
    assert_eq!(edge_endpoints(edge_key_of(u32::MAX, 0)), (0, u32::MAX));
}

#[test]
fn add_edge_keeps_one_key_per_edge() {
    let mut edges = HashSet::new();
    add_edge(&mut edges, 1, 2);
    add_edge(&mut edges, 2, 1);
    add_edge(&mut edges, 2, 3);
    assert_eq!(edges.len(), 2);
    assert!(edges.contains(&edge_key_of(1, 2)));
    assert!(edges.contains(&edge_key_of(3, 2)));
}

#[test]
fn a_quad_of_two_triangles_has_five_edges() {
    let edges = unique_mesh_edges(&vec![0, 1, 2, 0, 2, 3]);
    assert_eq!(edges.len(), 5);
    let mut ends: Vec<(u32, u32)> = edges.iter().map(|k| edge_endpoints(*k)).collect();
    ends.sort();
    assert_eq!(ends, vec![(0, 1), (0, 2), (0, 3), (1, 2), (2, 3)]);
}

#[test]
fn trailing_indices_are_not_a_triangle() {
    assert_eq!(unique_mesh_edges(&vec![0, 1]).len(), 0);
    assert_eq!(unique_mesh_edges(&vec![0, 1, 2, 5]).len(), 3);
}
