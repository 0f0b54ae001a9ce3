use node_boxes::{Point, Square};

fn square(x1: i64, y1: i64, x2: i64, y2: i64) -> Square {
    Square::new(Point::new(x1, y1), Point::new(x2, y2))
}

#[test]
fn point_keeps_its_coordinates() {
    let p = Point::new(-3, 8);
    assert_eq!(p.x(), -3);
    assert_eq!(p.y(), 8);
}

#[test]
fn point_distance_adds_both_axes() {
    let p = Point::new(1, 2);
    let q = Point::new(4, -2);
    assert_eq!(p.manhattan_distance_point(&q), 7);
    assert_eq!(q.manhattan_distance_point(&p), 7);
}

#[test]
fn point_distance_is_zero_only_to_itself() {
    let p = Point::new(5, -9);
    assert_eq!(p.manhattan_distance_point(&p), 0);
    assert_ne!(p.manhattan_distance_point(&Point::new(5, -8)), 0);
}

#[test]
fn point_distance_across_the_whole_grid() {
    let low = Point::new(i64::MIN, i64::MIN);
    let high = Point::new(i64::MAX, i64::MAX);
    assert_eq!(low.manhattan_distance_point(&high), 2 * (u64::MAX as u128));
}

#[test]
fn new_puts_the_corners_in_order() {
    let s = square(3, 1, 0, 5);
    assert_eq!(s.lower(), Point::new(0, 1));
    assert_eq!(s.upper(), Point::new(3, 5));
}

#[test]
fn new_ignores_the_order_of_its_points() {
    assert_eq!(square(3, 1, 0, 5), square(0, 5, 3, 1));
    assert_eq!(square(0, 1, 3, 5), square(3, 5, 0, 1));
    assert_eq!(square(0, 1, 3, 5), square(0, 5, 3, 1));
}

#[test]
fn width_height_and_area() {
    let s = square(-2, 1, 5, 4);
    assert_eq!(s.width(), 7);
    assert_eq!(s.height(), 3);
    assert_eq!(s.area(), 21);
}

#[test]
fn area_of_a_line_or_a_point_is_zero() {
    assert_eq!(square(0, 0, 9, 0).area(), 0);
    assert_eq!(square(4, 4, 4, 4).area(), 0);
}

#[test]
fn measures_of_the_whole_grid() {
    let s = square(i64::MIN, i64::MIN, i64::MAX, i64::MAX);
    assert_eq!(s.width(), u64::MAX);
    assert_eq!(s.height(), u64::MAX);
    assert_eq!(s.area(), (u64::MAX as u128) * (u64::MAX as u128));
}

#[test]
fn dilated_box_has_area_thirty() {
    let mut s = square(0, 2, 1, 0);
    s.dilate(2);
    assert_eq!(s.lower(), Point::new(-2, -2));
    assert_eq!(s.upper(), Point::new(3, 4));
    assert_eq!(s.area(), 30);
}

#[test]
fn dilate_by_a_negative_amount_shrinks() {
    let mut s = square(0, 0, 10, 6);
    s.dilate(-3);
    assert_eq!(s, square(3, 3, 7, 3));
}

#[test]
fn erosion_moves_the_sides_inward() {
    let mut s = square(0, 0, 10, 6);
    s.erosion(1);
    assert_eq!(s, square(1, 1, 9, 5));
}

#[test]
fn erosion_undoes_dilate() {
    let start = square(-4, 2, 9, 11);
    let mut s = start;
    s.dilate(5);
    assert_ne!(s, start);
    s.erosion(5);
    assert_eq!(s, start);
    s.dilate(-1);
    s.erosion(-1);
    assert_eq!(s, start);
}

#[test]
fn intersection_of_overlapping_boxes() {
    let a = square(0, 0, 3, 3);
    let b = square(1, 1, 4, 4);
    assert_eq!(a.intersection(&b), square(1, 1, 3, 3));
}

#[test]
fn intersection_of_disjoint_boxes_is_the_origin_box() {
    let a = square(0, 0, 3, 3);
    let b = square(5, 5, 10, 10);
    assert_eq!(a.intersection(&b), square(0, 0, 0, 0));
}

#[test]
fn intersection_of_boxes_apart_on_one_axis_only() {
    let a = square(0, 0, 3, 3);
    let b = square(1, 7, 2, 9);
    assert_eq!(a.intersection(&b), square(0, 0, 0, 0));
}

#[test]
fn intersection_of_boxes_that_touch_is_a_point() {
    let a = square(0, 0, 2, 2);
    let b = square(2, 2, 4, 4);
    let common = a.intersection(&b);
    assert_eq!(common, square(2, 2, 2, 2));
    assert_eq!(common.area(), 0);
}

#[test]
fn intersection_commutes() {
    let a = square(-1, 0, 6, 3);
    let b = square(2, -5, 4, 8);
    assert_eq!(a.intersection(&b), b.intersection(&a));
    assert_eq!(a.intersection(&b), square(2, 0, 4, 3));
}

#[test]
fn union_is_the_hull() {
    let a = square(0, 0, 3, 3);
    let b = square(5, -1, 10, 2);
    assert_eq!(a.union(&b), square(0, -1, 10, 3));
    assert_eq!(a.union(&b), b.union(&a));
}

#[test]
fn union_holds_both_boxes() {
    let a = square(0, 0, 3, 3);
    let b = square(5, 5, 10, 10);
    let hull = a.union(&b);
    assert!(hull.has_square(&a));
    assert!(hull.has_square(&b));
}

#[test]
fn has_point_counts_the_boundary() {
    let s = square(0, 0, 4, 2);
    assert!(s.has_point(&Point::new(2, 1)));
    assert!(s.has_point(&Point::new(0, 0)));
    assert!(s.has_point(&Point::new(4, 2)));
    assert!(s.has_point(&Point::new(0, 2)));
    assert!(!s.has_point(&Point::new(5, 1)));
    assert!(!s.has_point(&Point::new(2, 3)));
    assert!(!s.has_point(&Point::new(-1, 0)));
    assert!(!s.has_point(&Point::new(2, -1)));
}

#[test]
fn has_square_of_nested_boxes() {
    let outer = square(0, 0, 4, 4);
    let inner = square(2, 2, 3, 3);
    assert!(outer.has_square(&inner));
    assert!(!inner.has_square(&outer));
}

#[test]
fn has_square_misses_boxes_that_cross() {
    let flat = square(0, 2, 10, 4);
    let tall = square(4, 0, 6, 10);
    assert!(!flat.has_square(&tall));
    assert!(!tall.has_square(&flat));
    assert_eq!(flat.intersection(&tall), square(4, 2, 6, 4));
}

#[test]
fn has_square_needs_one_corner_only() {
    let a = square(0, 0, 3, 3);
    assert!(a.has_square(&square(3, 3, 9, 9)));
    assert!(a.has_square(&square(-5, 1, 1, 20)));
    assert!(a.has_square(&square(2, -7, 8, 2)));
    assert!(!a.has_square(&square(4, 4, 9, 9)));
}

#[test]
fn manhattan_distance_of_boxes_apart_on_both_axes() {
    let a = square(0, 0, 1, 1);
    let b = square(2, 2, 3, 3);
    assert_eq!(a.manhattan_distance(&b), 2);
}

#[test]
fn manhattan_distance_is_zero_where_a_corner_is_held() {
    let outer = square(0, 0, 4, 4);
    let inner = square(2, 2, 3, 3);
    assert_eq!(outer.manhattan_distance(&inner), 0);
    assert_eq!(inner.manhattan_distance(&outer), 0);
    assert_eq!(outer.manhattan_distance(&square(4, 4, 6, 6)), 0);
}

#[test]
fn manhattan_distance_measures_the_lower_box_itself_when_it_ends_left() {
    let a = square(0, 0, 1, 3);
    let b = square(5, 10, 6, 11);
    assert_eq!(a.manhattan_distance(&b), 4);
    assert_eq!(a.distance_points(&b), Some((Point::new(1, 3), Point::new(0, 0))));
}

#[test]
fn manhattan_distance_between_facing_corners() {
    let a = square(5, 0, 6, 1);
    let b = square(0, 3, 2, 4);
    assert_eq!(a.distance_points(&b), Some((Point::new(5, 1), Point::new(2, 3))));
    assert_eq!(a.manhattan_distance(&b), 5);
    assert_eq!(b.manhattan_distance(&a), 5);
}

#[test]
fn distance_points_are_none_where_a_corner_is_held() {
    let a = square(0, 0, 4, 4);
    assert_eq!(a.distance_points(&square(1, 1, 2, 2)), None);
    assert_eq!(square(1, 1, 2, 2).distance_points(&a), None);
}
