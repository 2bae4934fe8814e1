use my_library::static_quadtree::halve;
use my_library::{Rect2D, StaticQuadTree, Vec2};

fn rect(x0: i64, y0: i64, x1: i64, y1: i64) -> Rect2D {
    Rect2D::new(Vec2::new(x0, y0), Vec2::new(x1, y1))
}

fn depth_of(tree: &StaticQuadTree, index: usize) -> usize {
    let mut depth = 0;
    let mut current = index;
    while current != 0 {
        let mut parent = None;
        for i in 0..tree.len() {
            if let Some(children) = tree.node(i).children {
                if children.contains(&current) {
                    parent = Some(i);
                }
            }
        }
        current = parent.unwrap();
        depth += 1;
    }
    depth
}

#[test]
fn halve_rounds_towards_zero() {
    assert_eq!(halve(800), 400);
    assert_eq!(halve(7), 3);
    assert_eq!(halve(-7), -3);
    assert_eq!(halve(0), 0);
    assert_eq!(halve(i64::MIN), -4611686018427387904);
    assert_eq!(halve(i64::MAX), 4611686018427387903);
}

#[test]
fn can_build_follows_the_index_range() {
    for depth in 0..=my_library::MAX_DEPTH {
        assert!(StaticQuadTree::can_build(depth));
    }
    let last = (usize::BITS / 2 - 1) as usize;
    assert!(StaticQuadTree::can_build(last));
    assert!(!StaticQuadTree::can_build(last + 1));
    assert!(!StaticQuadTree::can_build(usize::MAX));
}

#[test]
fn depth_zero_is_a_single_leaf() {
    let tree = StaticQuadTree::new(Vec2::new(800, 600), 0);
    assert_eq!(tree.len(), 1);
    assert_eq!(tree.node(0).bounds, rect(-400, -300, 400, 300));
    assert!(tree.node(0).children.is_none());
}

#[test]
fn node_count_follows_the_formula() {
    let expected = [1usize, 5, 21, 85, 341, 1365, 5461];
    for (depth, count) in expected.iter().enumerate() {
        let tree = StaticQuadTree::new(Vec2::new(1024, 768), depth);
        assert_eq!(tree.len(), *count);
        assert_eq!(tree.len(), (4usize.pow(depth as u32 + 1) - 1) / 3);
    }
}

#[test]
fn root_is_centered_at_the_origin() {
    let tree = StaticQuadTree::new(Vec2::new(800, 600), 2);
    assert_eq!(tree.node(0).bounds, rect(-400, -300, 400, 300));
    let odd = StaticQuadTree::new(Vec2::new(7, 5), 1);
    assert_eq!(odd.node(0).bounds, rect(-3, -2, 3, 2));
}

#[test]
fn children_are_the_quadrants_of_their_parent() {
    let tree = StaticQuadTree::new(Vec2::new(800, 600), 3);
    for i in 0..tree.len() {
        let node = tree.node(i);
        if let Some(children) = node.children {
            let quads = node.bounds.quadrants();
            for k in 0..4 {
                assert!(children[k] > i);
                assert!(children[k] < tree.len());
                assert_eq!(tree.node(children[k]).bounds, quads[k]);
            }
        }
    }
}

#[test]
fn leaves_stand_at_the_maximum_depth() {
    let tree = StaticQuadTree::new(Vec2::new(800, 600), 2);
    for i in 0..tree.len() {
        let depth = depth_of(&tree, i);
        assert_eq!(tree.node(i).children.is_none(), depth == 2);
    }
}

#[test]
fn small_box_is_bucketed_in_a_leaf() {
    let tree = StaticQuadTree::new(Vec2::new(800, 600), 2);
    let target = rect(92, 92, 108, 108);
    let index = tree.smallest_node(&target);
    let node = tree.node(index);
    assert!(node.children.is_none());
    assert_eq!(node.bounds, rect(0, 0, 200, 150));
}

#[test]
fn straddling_box_is_bucketed_higher_up() {
    let tree = StaticQuadTree::new(Vec2::new(800, 600), 2);
    assert_eq!(tree.smallest_node(&rect(-5, -5, 5, 5)), 0);
    let index = tree.smallest_node(&rect(195, 10, 205, 20));
    assert_eq!(tree.node(index).bounds, rect(0, 0, 400, 300));
}

#[test]
fn box_outside_the_world_is_bucketed_at_the_root() {
    let tree = StaticQuadTree::new(Vec2::new(800, 600), 2);
    assert_eq!(tree.smallest_node(&rect(1000, 1000, 1010, 1010)), 0);
    assert_eq!(tree.intersecting_nodes(&rect(1000, 1000, 1010, 1010)).len(), 0);
}

#[test]
fn box_touching_a_split_line_stays_on_its_side() {
    let tree = StaticQuadTree::new(Vec2::new(800, 600), 1);
    let index = tree.smallest_node(&rect(0, 0, 10, 10));
    assert_eq!(tree.node(index).bounds, rect(0, 0, 400, 300));
}

#[test]
fn intersecting_nodes_are_those_that_overlap() {
    let tree = StaticQuadTree::new(Vec2::new(800, 600), 3);
    let targets = [
        rect(92, 92, 108, 108),
        rect(-5, -5, 5, 5),
        rect(-400, -300, 400, 300),
        rect(399, 299, 500, 500),
        rect(400, 300, 500, 500),
        rect(0, -300, 0, 300),
    ];
    for target in targets.iter() {
        let found = tree.intersecting_nodes(target);
        let mut count = 0;
        for i in 0..tree.len() {
            let overlaps = tree.node(i).bounds.intersect(target);
            assert_eq!(found.contains(i), overlaps);
            if overlaps {
                count += 1;
            }
        }
        assert_eq!(found.len(), count);
        let mut items = found.to_vec();
        items.sort();
        items.dedup();
        assert_eq!(items.len(), count);
    }
}

#[test]
fn intersecting_nodes_of_a_small_box() {
    let tree = StaticQuadTree::new(Vec2::new(800, 600), 2);
    let found = tree.intersecting_nodes(&rect(92, 92, 108, 108));
    assert_eq!(found.len(), 3);
    assert!(found.contains(0));
    let mut bounds: Vec<Rect2D> = found.to_vec().iter().map(|i| tree.node(*i).bounds).collect();
    bounds.sort_by_key(|b| b.max.x - b.min.x);
    assert_eq!(bounds, vec![rect(0, 0, 200, 150), rect(0, 0, 400, 300), rect(-400, -300, 400, 300)]);
}

#[test]
fn smallest_node_is_among_the_intersecting_nodes() {
    let tree = StaticQuadTree::new(Vec2::new(800, 600), 3);
    let mut x = -420;
    while x < 420 {
        let mut y = -320;
        while y < 320 {
            for size in [0, 1, 9, 60, 250] {
                let target = rect(x, y, x + size, y + size);
                if tree.node(0).bounds.intersect(&target) {
                    let bucket = tree.smallest_node(&target);
                    assert!(tree.intersecting_nodes(&target).contains(bucket));
                }
            }
            y += 37;
        }
        x += 41;
    }
}
