use node_boxes::{
    default_fnz_id, find_intersections, node_box, select_intersecting, AttributeMap, BoxError,
    Node, Point, Square,
};

fn node(id: &str, entries: &[(&str, &str)]) -> Node {
    let mut a = AttributeMap::new();
    for (k, v) in entries {
        a.insert(k.to_string(), v.to_string());
    }
    Node { i: id.to_string(), fnz_id: default_fnz_id(), a }
}

fn boxed(id: &str, tp: &str, ht: &str, wh: &str) -> Node {
    node(id, &[("TP", tp), ("HT", ht), ("WH", wh)])
}

fn square(x1: i64, y1: i64, x2: i64, y2: i64) -> Square {
    Square::new(Point::new(x1, y1), Point::new(x2, y2))
}

fn ids(nodes: &[Node]) -> Vec<String> {
    nodes.iter().map(|n| n.i.clone()).collect()
}

#[test]
fn node_box_takes_tp_for_both_coordinates() {
    let b = node_box(&boxed("n", "10", "5", "20")).unwrap();
    assert_eq!(b.lower(), Point::new(10, 10));
    assert_eq!(b.upper(), Point::new(30, 15));
}

#[test]
fn node_box_puts_negative_extents_in_order() {
    let b = node_box(&boxed("n", "10", "2", "-4")).unwrap();
    assert_eq!(b, square(6, 10, 10, 12));
    let b = node_box(&boxed("n", "-3", "-2", "-4")).unwrap();
    assert_eq!(b, square(-7, -5, -3, -3));
}

#[test]
fn node_box_needs_all_three_attributes() {
    assert_eq!(node_box(&node("n", &[("HT", "5"), ("WH", "20")])), Err(BoxError::Missing));
    assert_eq!(node_box(&node("n", &[("TP", "5"), ("WH", "20")])), Err(BoxError::Missing));
    assert_eq!(node_box(&node("n", &[("TP", "5"), ("HT", "20")])), Err(BoxError::Missing));
    assert_eq!(node_box(&node("n", &[])), Err(BoxError::Missing));
}

#[test]
fn node_box_needs_decimal_integers() {
    assert_eq!(node_box(&boxed("n", "ten", "5", "20")), Err(BoxError::Malformed));
    assert_eq!(node_box(&boxed("n", "10", "", "20")), Err(BoxError::Malformed));
    assert_eq!(node_box(&boxed("n", "10", "5", "2.5")), Err(BoxError::Malformed));
}

#[test]
fn node_box_stays_on_the_grid() {
    assert_eq!(
        node_box(&boxed("n", "9223372036854775808", "5", "20")),
        Err(BoxError::OutOfRange)
    );
    assert_eq!(
        node_box(&boxed("n", "9223372036854775807", "0", "1")),
        Err(BoxError::OutOfRange)
    );
    assert_eq!(
        node_box(&boxed("n", "-9223372036854775808", "-1", "0")),
        Err(BoxError::OutOfRange)
    );
    assert_eq!(
        node_box(&boxed("n", "9223372036854775807", "0", "0")),
        Ok(square(i64::MAX, i64::MAX, i64::MAX, i64::MAX))
    );
}

#[test]
fn node_box_reports_the_first_attribute_that_fails() {
    assert_eq!(node_box(&node("n", &[("TP", "x"), ("WH", "1")])), Err(BoxError::Malformed));
    assert_eq!(node_box(&node("n", &[("TP", "1"), ("WH", "x")])), Err(BoxError::Missing));
    assert_eq!(
        node_box(&boxed("n", "1", "99999999999999999999", "x")),
        Err(BoxError::OutOfRange)
    );
}

#[test]
fn find_intersections_keeps_the_order_of_the_nodes() {
    let base = square(0, 0, 12, 12);
    let nodes = vec![
        boxed("far", "50", "5", "5"),
        boxed("in", "10", "5", "20"),
        boxed("edge", "12", "1", "1"),
        boxed("out", "13", "1", "1"),
        boxed("inner", "3", "2", "2"),
        boxed("in", "10", "5", "20"),
    ];
    let found = find_intersections(&base, &nodes).unwrap();
    assert_eq!(ids(&found), vec!["in", "edge", "inner", "in"]);
    assert_eq!(found[0], nodes[1]);
}

#[test]
fn find_intersections_goes_by_corners_only() {
    let base = square(4, 0, 6, 20);
    let crossing = node("crossing", &[("TP", "2"), ("HT", "2"), ("WH", "10")]);
    assert_eq!(node_box(&crossing), Ok(square(2, 2, 12, 4)));
    assert!(find_intersections(&base, &vec![crossing]).unwrap().is_empty());
}

#[test]
fn find_intersections_of_no_nodes_is_empty() {
    let base = square(0, 0, 1, 1);
    assert_eq!(find_intersections(&base, &Vec::new()), Ok(Vec::new()));
}

#[test]
fn find_intersections_fails_on_the_first_node_without_a_box() {
    let base = square(0, 0, 12, 12);
    let nodes = vec![
        boxed("in", "10", "5", "20"),
        node("bare", &[("TP", "1"), ("WH", "2")]),
        boxed("bad", "1", "x", "2"),
    ];
    assert_eq!(find_intersections(&base, &nodes), Err(BoxError::Missing));
    let nodes = vec![boxed("bad", "1", "x", "2"), node("bare", &[])];
    assert_eq!(find_intersections(&base, &nodes), Err(BoxError::Malformed));
    let nodes = vec![boxed("far", "9223372036854775807", "1", "1")];
    assert_eq!(find_intersections(&base, &nodes), Err(BoxError::OutOfRange));
}

#[test]
fn find_intersections_fails_though_the_node_would_not_be_kept() {
    let base = square(0, 0, 1, 1);
    let nodes = vec![boxed("far", "50", "5", "5"), boxed("bad", "50", "5", "five")];
    assert_eq!(find_intersections(&base, &nodes), Err(BoxError::Malformed));
}

#[test]
fn select_intersecting_pairs_nodes_with_boxes() {
    let base = square(0, 0, 10, 10);
    let nodes = vec![node("a", &[]), node("b", &[]), node("c", &[])];
    let boxes = vec![square(20, 20, 30, 30), square(5, 5, 50, 50), square(-3, -3, 0, 0)];
    let found = select_intersecting(&base, &nodes, &boxes);
    assert_eq!(ids(&found), vec!["b", "c"]);
    assert!(select_intersecting(&base, &Vec::new(), &Vec::new()).is_empty());
}
