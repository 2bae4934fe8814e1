use my_library::{check_collisions, AxisAlignedBoundingBox, Collider, OnCollision, StaticQuadTree, Vec2};

#[derive(Debug, PartialEq)]
struct Players;

#[derive(Debug, PartialEq)]
struct Walls;

type Hit = OnCollision<Players, Walls>;

fn check(tree: &StaticQuadTree, group_a: &Vec<Collider>, group_b: &Vec<Collider>) -> Vec<Hit> {
    check_collisions::<Players, Walls>(tree, group_a, group_b)
}

fn collider(entity: u64, x: i64, y: i64, half_x: i64, half_y: i64) -> Collider {
    Collider::new(entity, Vec2::new(x, y), AxisAlignedBoundingBox::new(Vec2::new(half_x, half_y)))
}

fn brute_force(group_a: &Vec<Collider>, group_b: &Vec<Collider>) -> Vec<(u64, u64)> {
    let mut pairs = Vec::new();
    for a in group_a.iter() {
        for b in group_b.iter() {
            if a.entity != b.entity && a.bbox.as_rect(a.position).intersect(&b.bbox.as_rect(b.position)) {
                pairs.push((a.entity, b.entity));
            }
        }
    }
    pairs.sort();
    pairs
}

fn sorted_pairs(events: &Vec<Hit>) -> Vec<(u64, u64)> {
    let mut pairs: Vec<(u64, u64)> = events.iter().map(|e| (e.entity_a, e.entity_b)).collect();
    pairs.sort();
    pairs
}

struct Lcg(u64);

impl Lcg {
    fn next(&mut self, bound: i64) -> i64 {
        self.0 = self.0.wrapping_mul(6364136223846793005).wrapping_add(1442695040888963407);
        ((self.0 >> 33) % (bound as u64)) as i64
    }
}

fn scatter(rng: &mut Lcg, count: usize, first_entity: u64) -> Vec<Collider> {
    let mut group = Vec::new();
    for n in 0..count {
        let half_x = rng.next(40);
        let half_y = rng.next(40);
        let x = rng.next(800 - 2 * half_x + 1) - 400 + half_x;
        let y = rng.next(600 - 2 * half_y + 1) - 300 + half_y;
        group.push(collider(first_entity + n as u64, x, y, half_x, half_y));
    }
    group
}

#[test]
fn overlapping_pair_gives_one_event() {
    let tree = StaticQuadTree::new(Vec2::new(800, 600), 2);
    let group_a = vec![collider(1, 100, 100, 8, 8)];
    let group_b = vec![collider(2, 104, 104, 8, 8)];
    let events = check(&tree, &group_a, &group_b);
    assert_eq!(events, vec![Hit::new(1, 2)]);
}

#[test]
fn distant_pair_gives_no_event() {
    let tree = StaticQuadTree::new(Vec2::new(800, 600), 2);
    let group_a = vec![collider(1, 100, 100, 8, 8)];
    let group_b = vec![collider(2, 200, 200, 8, 8)];
    assert_eq!(check(&tree, &group_a, &group_b), vec![]);
}

#[test]
fn touching_pair_gives_no_event() {
    let tree = StaticQuadTree::new(Vec2::new(800, 600), 2);
    let group_a = vec![collider(1, 100, 100, 8, 8)];
    let group_b = vec![collider(2, 116, 100, 8, 8)];
    assert_eq!(check(&tree, &group_a, &group_b), vec![]);
    let closer = vec![collider(2, 115, 100, 8, 8)];
    assert_eq!(check(&tree, &group_a, &closer).len(), 1);
}

#[test]
fn empty_groups_give_no_event() {
    let tree = StaticQuadTree::new(Vec2::new(800, 600), 2);
    let some = vec![collider(1, 0, 0, 8, 8)];
    let none: Vec<Collider> = Vec::new();
    assert_eq!(check(&tree, &none, &some), vec![]);
    assert_eq!(check(&tree, &some, &none), vec![]);
    assert_eq!(check(&tree, &none, &none), vec![]);
}

#[test]
fn events_name_the_first_group_first() {
    let tree = StaticQuadTree::new(Vec2::new(800, 600), 2);
    let group_a = vec![collider(7, -50, -50, 10, 10)];
    let group_b = vec![collider(3, -45, -45, 10, 10)];
    assert_eq!(check(&tree, &group_a, &group_b), vec![Hit::new(7, 3)]);
    assert_eq!(check(&tree, &group_b, &group_a), vec![Hit::new(3, 7)]);
}

#[test]
fn several_boxes_in_one_bucket_are_all_found() {
    let tree = StaticQuadTree::new(Vec2::new(800, 600), 2);
    let group_a = vec![collider(1, 100, 100, 8, 8)];
    let group_b = vec![
        collider(2, 104, 104, 8, 8),
        collider(3, 96, 96, 8, 8),
        collider(4, 150, 100, 8, 8),
        collider(5, 100, 110, 8, 8),
    ];
    let events = check(&tree, &group_a, &group_b);
    assert_eq!(sorted_pairs(&events), vec![(1, 2), (1, 3), (1, 5)]);
}

#[test]
fn box_across_a_split_line_is_found_from_both_sides() {
    let tree = StaticQuadTree::new(Vec2::new(800, 600), 2);
    let group_b = vec![collider(9, 0, 0, 20, 20)];
    let group_a = vec![
        collider(1, 15, 15, 8, 8),
        collider(2, -15, 15, 8, 8),
        collider(3, -15, -15, 8, 8),
        collider(4, 15, -15, 8, 8),
        collider(5, 100, 100, 8, 8),
    ];
    let events = check(&tree, &group_a, &group_b);
    assert_eq!(sorted_pairs(&events), vec![(1, 9), (2, 9), (3, 9), (4, 9)]);
}

#[test]
fn entity_in_both_groups_is_not_paired_with_itself() {
    let tree = StaticQuadTree::new(Vec2::new(800, 600), 2);
    let shared = collider(1, 100, 100, 8, 8);
    let other = collider(2, 104, 104, 8, 8);
    let group_a = vec![shared, other];
    let group_b = vec![shared, other];
    let events = check(&tree, &group_a, &group_b);
    for event in events.iter() {
        assert_ne!(event.entity_a, event.entity_b);
    }
    assert_eq!(sorted_pairs(&events), vec![(1, 2), (2, 1)]);
}

#[test]
fn scattered_groups_match_pairwise_testing() {
    let mut rng = Lcg(42);
    for depth in 0..5 {
        let tree = StaticQuadTree::new(Vec2::new(800, 600), depth);
        for _ in 0..20 {
            let group_a = scatter(&mut rng, 40, 0);
            let group_b = scatter(&mut rng, 40, 30);
            let events = check(&tree, &group_a, &group_b);
            assert_eq!(sorted_pairs(&events), brute_force(&group_a, &group_b));
            for event in events.iter() {
                assert_ne!(event.entity_a, event.entity_b);
            }
        }
    }
}

#[test]
fn single_node_tree_is_a_flat_scan() {
    let tree = StaticQuadTree::new(Vec2::new(800, 600), 0);
    assert_eq!(tree.len(), 1);
    let mut rng = Lcg(7);
    for count in [0usize, 1, 5, 60] {
        let group_a = scatter(&mut rng, count, 0);
        let group_b = scatter(&mut rng, count + 3, 1000);
        let events = check(&tree, &group_a, &group_b);
        assert_eq!(sorted_pairs(&events), brute_force(&group_a, &group_b));
    }
}

#[test]
fn overlap_outside_the_world_is_not_reported() {
    let tree = StaticQuadTree::new(Vec2::new(800, 600), 2);
    let group_a = vec![collider(1, 1000, 1000, 8, 8)];
    let group_b = vec![collider(2, 1004, 1004, 8, 8)];
    assert_eq!(check(&tree, &group_a, &group_b), vec![]);
}

#[test]
fn events_carry_the_tags_of_their_groups() {
    let tree = StaticQuadTree::new(Vec2::new(800, 600), 2);
    let players = vec![collider(1, 100, 100, 8, 8)];
    let walls = vec![collider(2, 104, 104, 8, 8)];
    let forward: Vec<OnCollision<Players, Walls>> = check_collisions(&tree, &players, &walls);
    let backward: Vec<OnCollision<Walls, Players>> = check_collisions(&tree, &walls, &players);
    assert_eq!(forward, vec![OnCollision::new(1, 2)]);
    assert_eq!(backward, vec![OnCollision::new(2, 1)]);
}
