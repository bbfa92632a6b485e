use ray_marching::camera::pixel_order;

#[test]
fn pixel_order_goes_column_by_column() {
    let p = pixel_order((2, 3));
    assert_eq!(p, vec![(0, 0, 2), (0, 1, 1), (0, 2, 0), (1, 0, 2), (1, 1, 1), (1, 2, 0)]);
}

#[test]
fn pixel_order_of_empty_image() {
    assert!(pixel_order((0, 4)).is_empty());
    assert!(pixel_order((4, 0)).is_empty());
}
