use n_particles::n_body::octree::{Node, Octree, Point3};
use n_particles::n_body::simulate::{build_octree, collision_pairs, collision_partners};
use n_particles::n_body::span::Span;

fn p(x: i64, y: i64, z: i64) -> Point3 {
    Point3::new(x, y, z)
}

#[test]
fn octree_node_contains_half_open() {
    let node = Node::new(p(0, 0, 0), 100);
    assert!(node.contains(&p(-50, -50, -50)));
    assert!(node.contains(&p(49, 0, 25)));
    assert!(!node.contains(&p(50, 0, 0)));
    assert!(!node.contains(&p(0, 0, 60)));
}

#[test]
fn octree_node_intersects() {
    let node = Node::new(p(0, 0, 0), 100);
    assert!(node.intersects(&Node::new(p(30, 30, 30), 40)));
    // Touching faces count as meeting.
    assert!(node.intersects(&Node::new(p(60, 0, 0), 20)));
    assert!(!node.intersects(&Node::new(p(61, 0, 0), 20)));
    assert!(!node.intersects(&Node::new(p(0, 0, 100), 20)));
}

#[test]
fn octree_subdivide_order() {
    let mut ot = Octree::new(Node::new(p(0, 0, 0), 100), 4);
    ot.subdivide();
    assert!(ot.divided);
    let kids = ot.children.as_ref().unwrap();
    assert_eq!(kids.len(), 8);
    let low = Span { lo: -100, hi: 0, shift: 1 };
    let high = Span { lo: 0, hi: 100, shift: 1 };
    let spans: Vec<(Span, Span, Span)> =
        kids.iter().map(|k| (k.boundary.x, k.boundary.y, k.boundary.z)).collect();
    assert_eq!(
        spans,
        vec![
            (low, low, low),
            (high, low, low),
            (low, high, low),
            (high, high, low),
            (low, low, high),
            (high, low, high),
            (low, high, high),
            (high, high, high),
        ]
    );
    assert!(kids.iter().all(|k| k.bodies.is_empty() && !k.divided));
}

#[test]
fn octree_second_index_goes_to_octant() {
    let bodies = vec![p(1, 1, 1), p(-1, -1, -1)];
    let mut ot = Octree::new(Node::new(p(0, 0, 0), 8), 1);
    assert!(ot.insert(0, &bodies));
    assert!(ot.insert(1, &bodies));
    assert_eq!(ot.bodies, vec![0]);
    assert!(ot.divided);
    let kids = ot.children.as_ref().unwrap();
    assert_eq!(kids[0].bodies, vec![1]);
    assert!(kids[1..].iter().all(|k| k.bodies.is_empty()));
    let mut found = Vec::new();
    ot.query(&Node::new(p(0, 0, 0), 4), &bodies, &mut found);
    assert_eq!(found, vec![0, 1]);
    ot.query(&Node::new(p(10, 10, 10), 2), &bodies, &mut found);
    assert_eq!(found, vec![0, 1]);
}

#[test]
fn octree_insert_and_query() {
    let bodies = vec![p(1, 1, 1), p(10, 10, 10), p(-20, 5, 5), p(30, -30, 30), p(200, 0, 0), p(2, 2, 2)];
    let mut ot = Octree::new(Node::new(p(0, 0, 0), 100), 2);
    assert!(ot.insert(0, &bodies));
    assert!(ot.insert(1, &bodies));
    assert!(!ot.divided);
    assert!(ot.insert(2, &bodies));
    assert!(ot.divided);
    assert!(ot.insert(3, &bodies));
    assert!(!ot.insert(4, &bodies)); // outside the cube
    assert!(ot.insert(5, &bodies));
    assert_eq!(ot.bodies, vec![0, 1]);

    let mut found = Vec::new();
    ot.query(&Node::new(p(0, 0, 0), 30), &bodies, &mut found);
    found.sort();
    assert_eq!(found, vec![0, 1, 5]);

    let mut all = Vec::new();
    ot.query(&Node::new(p(0, 0, 0), 1000), &bodies, &mut all);
    all.sort();
    assert_eq!(all, vec![0, 1, 2, 3, 5]);
}

#[test]
fn octree_query_uses_current_positions() {
    let mut bodies = vec![p(1, 1, 1), p(-10, -10, -10)];
    let mut ot = Octree::new(Node::new(p(0, 0, 0), 100), 4);
    ot.insert(0, &bodies);
    ot.insert(1, &bodies);
    bodies[1] = p(2, 2, 2);
    let mut found = Vec::new();
    ot.query(&Node::new(p(0, 0, 0), 10), &bodies, &mut found);
    assert_eq!(found, vec![0, 1]);
}

#[test]
fn build_octree_stores_covered_indices_once() {
    let bodies = vec![p(0, 0, 0), p(1, 2, 3), p(500, 0, 0), p(-3, -3, -3), p(4, 4, -4), p(7, 7, 7)];
    let tree = build_octree(Node::new(p(0, 0, 0), 64), 2, &bodies);
    let mut all = Vec::new();
    tree.query(&Node::new(p(0, 0, 0), 64), &bodies, &mut all);
    all.sort();
    assert_eq!(all, vec![0, 1, 3, 4, 5]);
}

#[test]
fn partners_are_later_neighbours() {
    let bodies = vec![p(0, 0, 0), p(5, 0, 0), p(100, 0, 0), p(-5, 0, 0), p(0, 30, 0)];
    let tree = build_octree(Node::new(p(0, 0, 0), 1000), 4, &bodies);
    let mut partners = collision_partners(&tree, 0, &bodies, 20);
    partners.sort();
    assert_eq!(partners, vec![1, 3]);
    assert_eq!(collision_partners(&tree, 3, &bodies, 20), Vec::<usize>::new());
    assert_eq!(collision_partners(&tree, 2, &bodies, 20), Vec::<usize>::new());
}

#[test]
fn pairs_in_order() {
    assert_eq!(collision_pairs(4), vec![(0, 1), (0, 2), (0, 3), (1, 2), (1, 3), (2, 3)]);
    assert_eq!(collision_pairs(1), vec![]);
    assert_eq!(collision_pairs(0), vec![]);
    assert_eq!(collision_pairs(30).len(), 435);
}

#[test]
fn octree_query_reports_storage_order() {
    // Capacity 1: index 0 stays in the root; the others go to octants 7, 0 and 1.
    let bodies = vec![p(0, 0, 0), p(10, 10, 10), p(-10, -10, -10), p(10, -10, -10)];
    let mut ot = Octree::new(Node::new(p(0, 0, 0), 64), 1);
    for i in 0..bodies.len() {
        assert!(ot.insert(i, &bodies));
    }
    let mut found = vec![42];
    ot.query(&Node::new(p(0, 0, 0), 64), &bodies, &mut found);
    assert_eq!(found, vec![42, 0, 2, 3, 1]);
}

#[test]
fn octree_capacity_zero_takes_nothing() {
    let bodies = vec![p(1, 1, 1)];
    let mut ot = Octree::new(Node::new(p(0, 0, 0), 16), 0);
    assert!(!ot.insert(0, &bodies));
    let mut found = Vec::new();
    ot.query(&Node::new(p(0, 0, 0), 100), &bodies, &mut found);
    assert!(found.is_empty());
}

#[test]
fn octree_small_cell_splits_exactly() {
    // A side-2 cube holds the eight points with coordinates in {-1, 0}; its octants have
    // side 1 and each holds one of them.
    let bodies = vec![p(0, 0, 0), p(-1, -1, -1), p(-1, 0, -1), p(0, -1, -1)];
    let mut ot = Octree::new(Node::new(p(0, 0, 0), 2), 1);
    for i in 0..bodies.len() {
        assert!(ot.insert(i, &bodies));
    }
    assert_eq!(ot.bodies, vec![0]);
    let kids = ot.children.as_ref().unwrap();
    assert_eq!(kids[0].boundary.x, Span { lo: -2, hi: 0, shift: 1 });
    assert_eq!(kids[0].bodies, vec![1]);
    assert_eq!(kids[1].bodies, vec![3]);
    assert_eq!(kids[2].bodies, vec![2]);
    assert!(kids[3..].iter().all(|k| k.bodies.is_empty()));
}
