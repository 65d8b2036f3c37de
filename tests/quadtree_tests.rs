use my_library::physics::UNIT;
use my_library::{QuadError, QuadNode, RandomNumberGenerator, Rect, StaticQuadTree, World};

fn sorted(mut v: Vec<Rect>) -> Vec<(i64, i64, i64, i64)> {
    let mut out: Vec<(i64, i64, i64, i64)> = v.drain(..).map(|r| (r.min_x, r.min_y, r.max_x, r.max_y)).collect();
    out.sort();
    out
}

fn brute(boxes: &[Rect], q: &Rect) -> Vec<Rect> {
    boxes.iter().copied().filter(|b| b.overlaps(q)).collect()
}

fn depth(n: &QuadNode) -> usize {
    match &n.children {
        Some(q) => 1 + depth(&q.nw).max(depth(&q.ne)).max(depth(&q.sw)).max(depth(&q.se)),
        None => 0,
    }
}

fn populated() -> (StaticQuadTree, Vec<Rect>) {
    let mut rng = RandomNumberGenerator::seeded(5);
    let world = World::new(200, 200, &mut rng).unwrap();
    let boxes = world.solid_boxes(24 * UNIT);
    let mut tree = StaticQuadTree::build(10240 * UNIT, 7680 * UNIT, 6).unwrap();
    for b in &boxes {
        tree.insert(*b);
    }
    (tree, boxes)
}

#[test]
fn query_matches_brute_force_on_generated_world() {
    let (tree, boxes) = populated();
    assert_eq!(boxes.len(), 40000 - 9);
    let regions = [
        Rect::new(-100 * UNIT, -100 * UNIT, 100 * UNIT, 100 * UNIT),
        Rect::new(-12 * UNIT, -12 * UNIT, 12 * UNIT, 12 * UNIT),
        Rect::new(-2500 * UNIT, -2500 * UNIT, -2300 * UNIT, 2500 * UNIT),
        Rect::new(0, 0, 1, 1),
        Rect::new(1000 * UNIT, -700 * UNIT, 1300 * UNIT, -650 * UNIT),
        Rect::new(-6000 * UNIT, -6000 * UNIT, 6000 * UNIT, 6000 * UNIT),
    ];
    for q in &regions {
        let found = tree.query(q);
        assert_eq!(sorted(found), sorted(brute(&boxes, q)), "region {q:?}");
    }
}

#[test]
fn query_around_the_spawn_clearing() {
    let (tree, _) = populated();
    // the clearing covers tiles 99..=101, i.e. x and y in [-36, 36) units around the origin
    let inside = Rect::new(-30 * UNIT, -30 * UNIT, 30 * UNIT, 30 * UNIT);
    assert!(tree.query(&inside).is_empty());
    let touching = Rect::new(-30 * UNIT, -30 * UNIT, 40 * UNIT, 30 * UNIT);
    assert_eq!(tree.query(&touching).len(), 3);
}

#[test]
fn query_outside_the_grid_is_empty() {
    let (tree, _) = populated();
    let far = Rect::new(3000 * UNIT, 3000 * UNIT, 4000 * UNIT, 4000 * UNIT);
    assert!(tree.query(&far).is_empty());
    let beyond_root = Rect::new(-90000 * UNIT, 0, -80000 * UNIT, 10);
    assert!(tree.query(&beyond_root).is_empty());
}

#[test]
fn boxes_outside_the_root_region_are_still_found() {
    let mut tree = StaticQuadTree::build(100, 100, 4).unwrap();
    let far = Rect::new(500, 500, 510, 510);
    let near = Rect::new(-10, -10, 10, 10);
    tree.insert(far);
    tree.insert(near);
    assert_eq!(tree.query(&Rect::new(505, 505, 600, 600)), vec![far]);
    assert_eq!(tree.query(&Rect::new(0, 0, 1, 1)), vec![near]);
}

#[test]
fn overlap_is_strict_at_shared_edges() {
    let mut tree = StaticQuadTree::build(100, 100, 4).unwrap();
    let b = Rect::new(0, 0, 10, 10);
    tree.insert(b);
    assert!(tree.query(&Rect::new(10, 0, 20, 10)).is_empty());
    assert_eq!(tree.query(&Rect::new(9, 9, 20, 20)), vec![b]);
}

#[test]
fn full_leaves_split_and_keep_every_box() {
    let mut tree = StaticQuadTree::build(64, 64, 3).unwrap();
    let mut boxes = Vec::new();
    for i in 0..8 {
        for j in 0..8 {
            boxes.push(Rect::new(-32 + 8 * i, -32 + 8 * j, -32 + 8 * i + 8, -32 + 8 * j + 8));
        }
    }
    for b in &boxes {
        tree.insert(*b);
    }
    assert!(tree.root.children.is_some());
    assert_eq!(sorted(tree.query(&Rect::new(-32, -32, 32, 32))), sorted(boxes.clone()));
    let q = Rect::new(-5, -5, 5, 20);
    assert_eq!(sorted(tree.query(&q)), sorted(brute(&boxes, &q)));
}

#[test]
fn depth_zero_keeps_everything_in_the_root() {
    let mut tree = StaticQuadTree::build(64, 64, 0).unwrap();
    for i in 0..20 {
        tree.insert(Rect::new(i, i, i + 1, i + 1));
    }
    assert!(tree.root.children.is_none());
    assert_eq!(tree.root.items.len(), 20);
}

#[test]
fn build_rejects_empty_extents() {
    assert_eq!(StaticQuadTree::build(0, 100, 6).err(), Some(QuadError::InvalidExtent));
    assert_eq!(StaticQuadTree::build(100, 0, 6).err(), Some(QuadError::InvalidExtent));
    assert_eq!(StaticQuadTree::build(-5, 100, 6).err(), Some(QuadError::InvalidExtent));
    let t = StaticQuadTree::build(10240, 7680, 6).unwrap();
    assert_eq!(t.root.region, Rect::new(-5120, -3840, 5120, 3840));
    assert!(t.query(&Rect::new(-10, -10, 10, 10)).is_empty());
}

#[test]
fn a_box_inserted_twice_is_stored_once() {
    let mut tree = StaticQuadTree::build(100, 100, 4).unwrap();
    let b = Rect::new(1, 1, 5, 5);
    let far = Rect::new(500, 500, 501, 501);
    assert!(!tree.contains(&b));
    tree.insert(b);
    tree.insert(b);
    tree.insert(far);
    tree.insert(far);
    assert!(tree.contains(&b));
    assert!(tree.contains(&far));
    assert!(!tree.contains(&Rect::new(1, 1, 5, 6)));
    assert_eq!(tree.query(&Rect::new(0, 0, 10, 10)), vec![b]);
    assert_eq!(tree.query(&Rect::new(400, 400, 600, 600)), vec![far]);
}

#[test]
fn query_results_hold_no_repeated_box() {
    let (tree, _) = populated();
    let found = tree.query(&Rect::new(-600 * UNIT, -600 * UNIT, 600 * UNIT, 600 * UNIT));
    let n = found.len();
    let unique = sorted(found);
    let mut deduped = unique.clone();
    deduped.dedup();
    assert_eq!(deduped.len(), n);
}

#[test]
fn splitting_moves_boxes_into_quadrants() {
    let mut tree = StaticQuadTree::build(64, 64, 3).unwrap();
    // nine small boxes, each inside one quadrant of the root
    let boxes: Vec<Rect> = (0..9).map(|i| Rect::new(-30 + 3 * i, 2, -29 + 3 * i, 3)).collect();
    for b in &boxes {
        tree.insert(*b);
    }
    assert!(tree.root.children.is_some());
    assert!(tree.root.items.is_empty());
    assert_eq!(sorted(tree.query(&Rect::new(-32, -32, 32, 32))), sorted(boxes));
}

#[test]
fn no_node_is_deeper_than_max_depth() {
    let (tree, _) = populated();
    assert!(depth(&tree.root) <= 6);
    let mut small = StaticQuadTree::build(64, 64, 2).unwrap();
    for i in 0..50 {
        small.insert(Rect::new(i % 7, i / 7, i % 7 + 1, i / 7 + 1));
    }
    assert!(depth(&small.root) <= 2);
}
