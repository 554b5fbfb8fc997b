use n_particles::n_body::quadtree::{Node, Point2, QuadTree};
use n_particles::n_body::span::Span;

#[test]
fn test_node_contains() {
    let node = Node::new(Point2::new(0, 0), 100);
    let body_inside = Point2::new(25, 25);
    let body_outside = Point2::new(60, 60);

    assert!(node.contains(&body_inside));
    assert!(!node.contains(&body_outside));
}

#[test]
fn test_quadtree_insert() {
    let boundary = Node::new(Point2::new(0, 0), 100);
    let mut qt = QuadTree::new(boundary, 4);

    let body1 = Point2::new(10, 10);
    let body2 = Point2::new(20, 20);

    assert!(qt.insert(body1));
    assert!(qt.insert(body2));
    assert_eq!(qt.bodies.len(), 2);
}

#[test]
fn test_quadtree_subdivide() {
    let boundary = Node::new(Point2::new(0, 0), 100);
    let mut qt = QuadTree::new(boundary, 2);

    // Insert 3 bodies to trigger subdivision
    qt.insert(Point2::new(10, 10));
    qt.insert(Point2::new(20, 20));
    qt.insert(Point2::new(-10, -10));

    assert!(qt.divided);
    assert!(qt.nw.is_some());
    assert!(qt.ne.is_some());
    assert!(qt.sw.is_some());
    assert!(qt.se.is_some());
}

#[test]
fn test_quadtree_query() {
    let boundary = Node::new(Point2::new(0, 0), 100);
    let mut qt = QuadTree::new(boundary, 4);

    qt.insert(Point2::new(10, 10));
    qt.insert(Point2::new(20, 20));
    qt.insert(Point2::new(-30, -30));

    let query_range = Node::new(Point2::new(0, 0), 40);
    let mut found = Vec::new();
    qt.query(&query_range, &mut found);

    assert_eq!(found.len(), 2);
}

#[test]
fn test_quadtree_intersects() {
    let boundary = Node::new(Point2::new(0, 0), 100);
    let qt = QuadTree::new(boundary, 4);

    let overlapping_range = Node::new(Point2::new(30, 30), 40);
    let non_overlapping_range = Node::new(Point2::new(100, 100), 20);

    assert!(qt.intersects(&overlapping_range));
    assert!(!qt.intersects(&non_overlapping_range));
}

#[test]
fn test_insert_out_of_bounds() {
    let boundary = Node::new(Point2::new(0, 0), 100);
    let mut qt = QuadTree::new(boundary, 4);

    let body_outside = Point2::new(100, 100);
    assert!(!qt.insert(body_outside));
}

// ---- further cases ----

#[test]
fn node_edges_lower_in_upper_out() {
    let node = Node::new(Point2::new(0, 0), 100);
    assert!(node.contains(&Point2::new(-50, -50)));
    assert!(!node.contains(&Point2::new(50, 0)));
    assert!(!node.contains(&Point2::new(0, 50)));
    assert!(node.contains(&Point2::new(49, 49)));
    // A query range reaches its own border.
    assert!(node.reaches(&Point2::new(50, 50)));
    assert!(!node.reaches(&Point2::new(51, 0)));
}

#[test]
fn node_odd_size_is_exact() {
    // Side 5 around 0 spans [-2.5, 2.5): the integers -2..=2.
    let node = Node::new(Point2::new(0, 0), 5);
    assert!(node.contains(&Point2::new(-2, 2)));
    assert!(!node.contains(&Point2::new(-3, 0)));
    assert!(!node.contains(&Point2::new(3, 0)));
    // Side 1 holds only its centre; side 0 holds nothing.
    assert!(Node::new(Point2::new(7, 7), 1).contains(&Point2::new(7, 7)));
    assert!(!Node::new(Point2::new(7, 7), 0).contains(&Point2::new(7, 7)));
}

#[test]
fn subdivide_places_quadrants() {
    let mut qt = QuadTree::new(Node::new(Point2::new(0, 0), 100), 1);
    qt.subdivide();
    let nw = qt.nw.as_ref().unwrap();
    let ne = qt.ne.as_ref().unwrap();
    let sw = qt.sw.as_ref().unwrap();
    let se = qt.se.as_ref().unwrap();
    // [-50, 0) is kept as -100/2 to 0/2.
    let low = Span { lo: -100, hi: 0, shift: 1 };
    let high = Span { lo: 0, hi: 100, shift: 1 };
    assert_eq!((nw.boundary.x, nw.boundary.y), (low, low));
    assert_eq!((ne.boundary.x, ne.boundary.y), (high, low));
    assert_eq!((sw.boundary.x, sw.boundary.y), (low, high));
    assert_eq!((se.boundary.x, se.boundary.y), (high, high));
    assert!(qt.divided);
    assert!(nw.bodies.is_empty());
}

#[test]
fn odd_cells_split_exactly() {
    // Side 5 around 0 holds -2..=2 on each axis; its quadrants hold -2..=-1 and 0..=2.
    let mut qt = QuadTree::new(Node::new(Point2::new(0, 0), 5), 1);
    qt.subdivide();
    for x in -3..=3i64 {
        for y in -3..=3i64 {
            let p = Point2::new(x, y);
            let n = [&qt.nw, &qt.ne, &qt.sw, &qt.se]
                .iter()
                .filter(|c| c.as_ref().unwrap().boundary.contains(&p))
                .count();
            assert_eq!(n, if qt.boundary.contains(&p) { 1 } else { 0 });
        }
    }
}

#[test]
fn insert_fills_cell_then_quadrants_in_order() {
    let mut qt = QuadTree::new(Node::new(Point2::new(0, 0), 100), 1);
    assert!(qt.insert(Point2::new(1, 1)));
    assert!(!qt.divided);
    // The cell is full: (10, -10) goes to the north-east quadrant.
    assert!(qt.insert(Point2::new(10, -10)));
    assert!(qt.divided);
    assert_eq!(qt.bodies, vec![Point2::new(1, 1)]);
    assert_eq!(qt.ne.as_ref().unwrap().bodies, vec![Point2::new(10, -10)]);
    assert!(qt.nw.as_ref().unwrap().bodies.is_empty());
    // A point on the shared border x = 0, y = 0 belongs to the south-east quadrant.
    assert!(qt.insert(Point2::new(0, 0)));
    assert_eq!(qt.se.as_ref().unwrap().bodies, vec![Point2::new(0, 0)]);
}

#[test]
fn capacity_zero_takes_nothing() {
    let mut qt = QuadTree::new(Node::new(Point2::new(0, 0), 16), 0);
    assert!(!qt.insert(Point2::new(1, 1)));
    // A refused point leaves the tree as it was.
    assert!(!qt.divided);
    assert!(qt.nw.is_none());
    let mut found = Vec::new();
    qt.query(&Node::new(Point2::new(0, 0), 100), &mut found);
    assert!(found.is_empty());
}

#[test]
fn query_reports_in_storage_order_and_appends() {
    let mut qt = QuadTree::new(Node::new(Point2::new(0, 0), 100), 1);
    qt.insert(Point2::new(5, 5)); // own cell
    qt.insert(Point2::new(20, 20)); // south-east
    qt.insert(Point2::new(-20, -20)); // north-west
    let mut found = vec![Point2::new(99, 99)];
    qt.query(&Node::new(Point2::new(0, 0), 100), &mut found);
    assert_eq!(
        found,
        vec![Point2::new(99, 99), Point2::new(5, 5), Point2::new(-20, -20), Point2::new(20, 20)]
    );
    // A range away from everything finds nothing and leaves `found` as it was.
    let mut none = Vec::new();
    qt.query(&Node::new(Point2::new(1000, 1000), 10), &mut none);
    assert!(none.is_empty());
}

#[test]
fn inserted_point_is_found_again() {
    let mut qt = QuadTree::new(Node::new(Point2::new(0, 0), 64), 2);
    let pts = [(3, 4), (-7, 2), (30, -31), (-32, -32), (12, 12)];
    for &(x, y) in &pts {
        assert!(qt.insert(Point2::new(x, y)));
    }
    for &(x, y) in &pts {
        let mut found = Vec::new();
        qt.query(&Node::new(Point2::new(x, y), 0), &mut found);
        assert_eq!(found, vec![Point2::new(x, y)]);
    }
}

#[test]
fn dense_points_split_down_to_single_points() {
    // A side-2 cell holds the four points (-1|0, -1|0); with capacity 1 each further point
    // goes to the quadrant that covers it.
    let mut qt = QuadTree::new(Node::new(Point2::new(0, 0), 2), 1);
    assert!(qt.insert(Point2::new(-1, -1)));
    assert!(qt.insert(Point2::new(0, 0)));
    assert!(qt.insert(Point2::new(-1, 0)));
    assert!(qt.insert(Point2::new(0, -1)));
    assert_eq!(qt.bodies, vec![Point2::new(-1, -1)]);
    assert_eq!(qt.se.as_ref().unwrap().bodies, vec![Point2::new(0, 0)]);
    assert_eq!(qt.sw.as_ref().unwrap().bodies, vec![Point2::new(-1, 0)]);
    assert_eq!(qt.ne.as_ref().unwrap().bodies, vec![Point2::new(0, -1)]);
    // The same point again: the single-point cell divides again, and the copy goes below.
    assert!(qt.insert(Point2::new(0, 0)));
    let se = qt.se.as_ref().unwrap();
    assert!(se.divided);
    let mut found = Vec::new();
    qt.query(&Node::new(Point2::new(0, 0), 0), &mut found);
    assert_eq!(found, vec![Point2::new(0, 0), Point2::new(0, 0)]);
}

#[test]
fn insert_keeps_points_in_root_while_room() {
    let mut qt = QuadTree::new(Node::new(Point2::new(0, 0), 100), 2);
    assert!(qt.insert(Point2::new(10, 10)));
    assert!(qt.insert(Point2::new(20, 20)));
    assert!(!qt.divided);
    assert!(qt.insert(Point2::new(-10, -10)));
    assert_eq!(qt.bodies, vec![Point2::new(10, 10), Point2::new(20, 20)]);
    assert_eq!(qt.nw.as_ref().unwrap().bodies, vec![Point2::new(-10, -10)]);
    assert!(qt.ne.as_ref().unwrap().bodies.is_empty());
    assert!(qt.sw.as_ref().unwrap().bodies.is_empty());
    assert!(qt.se.as_ref().unwrap().bodies.is_empty());
}

#[test]
fn odd_side_splits_at_its_exact_middle() {
    // The south-east quadrant of a side-5 square at the origin is [0, 2.5) on each axis;
    // its own quadrants split at 1.25, so (1, 1) goes to their north-west one.
    let mut qt = QuadTree::new(Node::new(Point2::new(0, 0), 5), 1);
    assert!(qt.insert(Point2::new(1, 1)));
    assert!(qt.insert(Point2::new(2, 2)));
    assert!(qt.insert(Point2::new(1, 1)));
    let se = qt.se.as_ref().unwrap();
    assert_eq!(se.boundary.x, Span { lo: 0, hi: 5, shift: 1 });
    assert_eq!(se.bodies, vec![Point2::new(2, 2)]);
    let se_nw = se.nw.as_ref().unwrap();
    assert_eq!(se_nw.boundary.x, Span { lo: 0, hi: 5, shift: 2 });
    assert_eq!(se_nw.bodies, vec![Point2::new(1, 1)]);
    assert!(se.se.as_ref().unwrap().bodies.is_empty());
}

#[test]
fn stacked_points_keep_exact_cells() {
    // Equal points at the origin sink one level per point: first into the south-east
    // quadrant [0, 1/2), then always into the north-west one, [0, 2^-k). Every such cell is
    // kept exactly, however deep.
    let mut qt = QuadTree::new(Node::new(Point2::new(0, 0), 1), 1);
    for _ in 0..80 {
        assert!(qt.insert(Point2::new(0, 0)));
    }
    let mut cell = qt.se.as_ref().unwrap();
    let mut depth = 1;
    while cell.divided {
        cell = cell.nw.as_ref().unwrap();
        depth += 1;
    }
    assert_eq!(depth, 79);
    assert_eq!(cell.bodies, vec![Point2::new(0, 0)]);
    assert_eq!(cell.boundary.x, Span { lo: 0, hi: 1, shift: 79 });
}
