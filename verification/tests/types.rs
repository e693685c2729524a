use legacy_tx::Point;

#[test]
fn point_new_stores_coordinates() {
    let p = Point::new(3i64, -4i64);
    assert_eq!(p.x, 3);
    assert_eq!(p.y, -4);
}

#[test]
fn point_equality_is_structural() {
    assert_eq!(Point::new(1u32, 2u32), Point { x: 1, y: 2 });
    assert_ne!(Point::new(1u32, 2u32), Point { x: 2, y: 1 });
}
