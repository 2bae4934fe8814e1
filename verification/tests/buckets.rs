use my_library::broad_phase::{fill_buckets, probe_contents};
use my_library::{AxisAlignedBoundingBox, Collider, OnCollision, Rect2D, StaticQuadTree, Vec2};

#[derive(Debug, PartialEq)]
struct Players;

#[derive(Debug, PartialEq)]
struct Walls;

type Hit = OnCollision<Players, Walls>;

fn collider(entity: u64, x: i64, y: i64, half_x: i64, half_y: i64) -> Collider {
    Collider::new(entity, Vec2::new(x, y), AxisAlignedBoundingBox::new(Vec2::new(half_x, half_y)))
}

fn rect(x0: i64, y0: i64, x1: i64, y1: i64) -> Rect2D {
    Rect2D::new(Vec2::new(x0, y0), Vec2::new(x1, y1))
}

#[test]
fn no_boxes_fill_no_bucket() {
    let tree = StaticQuadTree::new(Vec2::new(800, 600), 2);
    let buckets = fill_buckets(&tree, &Vec::new());
    for node in 0..tree.len() {
        assert!(buckets.get(node).is_none());
    }
}

#[test]
fn boxes_are_filed_under_their_smallest_node_in_order() {
    let tree = StaticQuadTree::new(Vec2::new(800, 600), 2);
    let group = vec![
        collider(1, 100, 100, 8, 8),
        collider(2, 0, 0, 8, 8),
        collider(3, 104, 104, 8, 8),
        collider(4, -300, -200, 8, 8),
        collider(5, 5, 5, 20, 20),
    ];
    let buckets = fill_buckets(&tree, &group);

    let leaf = tree.smallest_node(&rect(92, 92, 108, 108));
    assert_eq!(
        buckets.get(leaf),
        Some(&vec![(1, rect(92, 92, 108, 108)), (3, rect(96, 96, 112, 112))])
    );
    assert_eq!(
        buckets.get(0),
        Some(&vec![(2, rect(-8, -8, 8, 8)), (5, rect(-15, -15, 25, 25))])
    );
    let far = tree.smallest_node(&rect(-308, -208, -292, -192));
    assert_eq!(buckets.get(far), Some(&vec![(4, rect(-308, -208, -292, -192))]));

    let mut filled = 0;
    for node in 0..tree.len() {
        if buckets.get(node).is_some() {
            filled += 1;
        }
    }
    assert_eq!(filled, 3);
}

#[test]
fn probing_a_bucket_appends_the_overlaps_in_order() {
    let contents = vec![
        (7, rect(0, 0, 10, 10)),
        (1, rect(0, 0, 10, 10)),
        (8, rect(15, 0, 25, 10)),
        (9, rect(4, 4, 6, 6)),
    ];
    let mut events = vec![Hit::new(50, 51)];
    probe_contents(1, &rect(5, 5, 15, 15), &contents, &mut events);
    assert_eq!(
        events,
        vec![
            Hit::new(50, 51),
            Hit::new(1, 7),
            Hit::new(1, 9),
        ]
    );
}
