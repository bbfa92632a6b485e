use ray_marching::mesh::face_corner_ranges;

#[test]
fn corner_ranges_follow_indices() {
    let r = face_corner_ranges(&vec![0, 2, 1, 3, 0, 2]);
    assert_eq!(r, vec![(0, 3), (6, 9), (3, 6), (9, 12), (0, 3), (6, 9)]);
}

#[test]
fn corner_ranges_of_empty_mesh() {
    assert!(face_corner_ranges(&vec![]).is_empty());
}
