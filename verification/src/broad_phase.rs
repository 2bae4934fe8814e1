use vstd::prelude::*;
use vstd::seq_lib::lemma_multiset_commutative;
use core::marker::PhantomData;
use crate::aabb::AxisAlignedBoundingBox;
use crate::bucket_map::BucketMap;
use crate::rect2d::{Rect2D, Vec2};
use crate::static_quadtree::StaticQuadTree;

verus! {

/// One member of a collidable group: who it is, where it stands, and its shape.
#[derive(Clone, Copy, Debug, PartialEq, Eq, Structural)]
pub struct Collider {
    pub entity: u64,
    pub position: Vec2,
    pub bbox: AxisAlignedBoundingBox,
}

/// An overlap between a member of the first group and a member of the
/// second. The type parameters name the two groups, so that the events of
/// one pairing of groups cannot be taken for those of another; they hold no data.
#[derive(Debug, PartialEq, Eq)]
pub struct OnCollision<A, B> {
    pub entity_a: u64,
    pub entity_b: u64,
    pub marker: PhantomData<(A, B)>,
}

impl<A, B> OnCollision<A, B> {
    pub fn new(entity_a: u64, entity_b: u64) -> (event: OnCollision<A, B>)
        ensures
            event.entity_a == entity_a,
            event.entity_b == entity_b,
    {
        OnCollision { entity_a, entity_b, marker: PhantomData }
    }
}

impl Collider {
    /// The corners of the collider's box are representable coordinates.
    pub open spec fn fits(self) -> bool {
        self.bbox.fits(self.position)
    }

    /// The collider's box in world coordinates.
    pub open spec fn rect(self) -> Rect2D {
        self.bbox.spec_as_rect(self.position)
    }

    pub fn new(entity: u64, position: Vec2, bbox: AxisAlignedBoundingBox) -> (c: Collider)
        ensures
            c.entity == entity,
            c.position == position,
            c.bbox == bbox,
    {
        Collider { entity, position, bbox }
    }
}

/// All members of the group have boxes with representable corners.
pub open spec fn all_fit(group: Seq<Collider>) -> bool {
    forall|i: int| 0 <= i < group.len() ==> (#[trigger] group[i]).fits()
}

/// The events of one box against a bucket: one for each entry, in order,
/// that belongs to another entity and overlaps the box.
pub open spec fn probe_bucket<A, B>(entity_a: u64, rect_a: Rect2D, contents: Seq<(u64, Rect2D)>) -> Seq<
    OnCollision<A, B>,
>
    decreases contents.len(),
{
    if contents.len() == 0 {
        Seq::empty()
    } else {
        let rest = probe_bucket::<A, B>(entity_a, rect_a, contents.drop_last());
        let entry = contents.last();
        if entity_a != entry.0 && rect_a.spec_intersect(entry.1) {
            rest.push(OnCollision { entity_a, entity_b: entry.0, marker: PhantomData })
        } else {
            rest
        }
    }
}

/// The events of one box against the buckets of the given nodes, node by node.
pub open spec fn probe_nodes<A, B>(
    entity_a: u64,
    rect_a: Rect2D,
    nodes: Seq<usize>,
    buckets: Map<usize, Seq<(u64, Rect2D)>>,
) -> Seq<OnCollision<A, B>>
    decreases nodes.len(),
{
    if nodes.len() == 0 {
        Seq::empty()
    } else {
        let rest = probe_nodes::<A, B>(entity_a, rect_a, nodes.drop_last(), buckets);
        if buckets.dom().contains(nodes.last()) {
            rest + probe_bucket::<A, B>(entity_a, rect_a, buckets[nodes.last()])
        } else {
            rest
        }
    }
}

/// The node in which a member of the second group is bucketed.
pub open spec fn bucket_of(tree: StaticQuadTree, b: Collider) -> usize {
    tree.spec_smallest_node(b.rect()) as usize
}

/// The buckets after the members of `group_b` were filed one by one.
pub open spec fn buckets_of(tree: StaticQuadTree, group_b: Seq<Collider>) -> Map<
    usize,
    Seq<(u64, Rect2D)>,
>
    decreases group_b.len(),
{
    if group_b.len() == 0 {
        Map::empty()
    } else {
        let rest = buckets_of(tree, group_b.drop_last());
        let b = group_b.last();
        let node = bucket_of(tree, b);
        let filed = if rest.dom().contains(node) {
            rest[node]
        } else {
            Seq::empty()
        };
        rest.insert(node, filed.push((b.entity, b.rect())))
    }
}

/// The events of the box `rect_a` of `entity_a` against those members of
/// `group_b`, in order, that are bucketed in one of `nodes`.
pub open spec fn events_within<A, B>(
    tree: StaticQuadTree,
    entity_a: u64,
    rect_a: Rect2D,
    nodes: Set<usize>,
    group_b: Seq<Collider>,
) -> Seq<OnCollision<A, B>>
    decreases group_b.len(),
{
    if group_b.len() == 0 {
        Seq::empty()
    } else {
        let rest = events_within::<A, B>(tree, entity_a, rect_a, nodes, group_b.drop_last());
        let b = group_b.last();
        if entity_a != b.entity && rect_a.spec_intersect(b.rect()) && nodes.contains(
            bucket_of(tree, b),
        ) {
            rest.push(OnCollision { entity_a, entity_b: b.entity, marker: PhantomData })
        } else {
            rest
        }
    }
}

/// What one pass reports: for each member of `group_a` in turn, one event
/// for each member of `group_b` that is another entity, overlaps it, and is
/// bucketed in a node that is probed for it.
pub open spec fn broad_phase_events<A, B>(
    tree: StaticQuadTree,
    group_a: Seq<Collider>,
    group_b: Seq<Collider>,
) -> Seq<OnCollision<A, B>>
    decreases group_a.len(),
{
    if group_a.len() == 0 {
        Seq::empty()
    } else {
        let a = group_a.last();
        broad_phase_events::<A, B>(tree, group_a.drop_last(), group_b) + events_within::<A, B>(
            tree,
            a.entity,
            a.rect(),
            tree.spec_intersecting_nodes(a.rect()),
            group_b,
        )
    }
}

/// The events of one member of the first group under pairwise testing.
pub open spec fn brute_force_of<A, B>(a: Collider, group_b: Seq<Collider>) -> Seq<OnCollision<A, B>>
    decreases group_b.len(),
{
    if group_b.len() == 0 {
        Seq::empty()
    } else {
        let rest = brute_force_of::<A, B>(a, group_b.drop_last());
        let b = group_b.last();
        if a.entity != b.entity && a.rect().spec_intersect(b.rect()) {
            rest.push(OnCollision { entity_a: a.entity, entity_b: b.entity, marker: PhantomData })
        } else {
            rest
        }
    }
}

/// What testing every member of `group_a` against every member of
/// `group_b` reports: one event for each pair of different entities whose
/// boxes overlap.
pub open spec fn brute_force_events<A, B>(group_a: Seq<Collider>, group_b: Seq<Collider>) -> Seq<
    OnCollision<A, B>,
>
    decreases group_a.len(),
{
    if group_a.len() == 0 {
        Seq::empty()
    } else {
        brute_force_events::<A, B>(group_a.drop_last(), group_b) + brute_force_of::<A, B>(group_a.last(), group_b)
    }
}

/// No event pairs an entity with itself.
pub open spec fn no_self_pairs<A, B>(events: Seq<OnCollision<A, B>>) -> bool {
    forall|k: int| 0 <= k < events.len() ==> (#[trigger] events[k]).entity_a != events[k].entity_b
}

/// Files every member of `group_b` under the node that
/// [`StaticQuadTree::smallest_node`] gives for its box.
pub fn fill_buckets(quad_tree: &StaticQuadTree, group_b: &Vec<Collider>) -> (spatial_index:
    BucketMap)
    requires
        all_fit(group_b@),
    ensures
        spatial_index@ == buckets_of(*quad_tree, group_b@),
{
    let mut spatial_index = BucketMap::empty();
    assert(spatial_index@ =~= buckets_of(*quad_tree, group_b@.take(0)));
    let mut j: usize = 0;
    while j < group_b.len()
        invariant
            j <= group_b@.len(),
            all_fit(group_b@),
            spatial_index@ == buckets_of(*quad_tree, group_b@.take(j as int)),
        decreases group_b@.len() - j,
    {
        let b = group_b[j];
        let rect = b.bbox.as_rect(b.position);
        let in_node = quad_tree.smallest_node(&rect);
        assert(group_b@.take(j + 1).drop_last() =~= group_b@.take(j as int));
        assert(group_b@.take(j + 1).last() == b);
        match spatial_index.bucket_mut(in_node) {
            Some(contents) => {
                contents.push((b.entity, rect));
            },
            None => {
                let mut contents: Vec<(u64, Rect2D)> = Vec::new();
                contents.push((b.entity, rect));
                spatial_index.put(in_node, contents);
            },
        }
        assert(spatial_index@ =~= buckets_of(*quad_tree, group_b@.take(j + 1)));
        j += 1;
    }
    assert(group_b@.take(group_b@.len() as int) =~= group_b@);
    spatial_index
}

/// Tests the box `rect_a` of `entity_a` against every entry of one bucket
/// and appends an event for each entry of another entity that overlaps it.
pub fn probe_contents<A, B>(
    entity_a: u64,
    rect_a: &Rect2D,
    contents: &Vec<(u64, Rect2D)>,
    events: &mut Vec<OnCollision<A, B>>,
)
    ensures
        final(events)@ == old(events)@ + probe_bucket::<A, B>(entity_a, *rect_a, contents@),
{
    let mut u: usize = 0;
    assert(contents@.take(0) =~= Seq::empty());
    while u < contents.len()
        invariant
            u <= contents@.len(),
            events@ == old(events)@ + probe_bucket::<A, B>(entity_a, *rect_a, contents@.take(u as int)),
        decreases contents@.len() - u,
    {
        let entry = contents[u];
        assert(contents@.take(u + 1).drop_last() =~= contents@.take(u as int));
        assert(contents@.take(u + 1).last() == entry);
        if entity_a != entry.0 && rect_a.intersect(&entry.1) {
            events.push(OnCollision { entity_a, entity_b: entry.0, marker: PhantomData });
        }
        assert(events@ =~= old(events)@ + probe_bucket::<A, B>(
            entity_a,
            *rect_a,
            contents@.take(u + 1),
        ));
        u += 1;
    }
    assert(contents@.take(contents@.len() as int) =~= contents@);
}

/// One broad-phase pass. The members of `group_b` are bucketed in the tree;
/// then each member of `group_a` is tested against the buckets of the nodes
/// that its box overlaps. The events come in no particular order.
pub fn check_collisions<A, B>(
    quad_tree: &StaticQuadTree,
    group_a: &Vec<Collider>,
    group_b: &Vec<Collider>,
) -> (events: Vec<OnCollision<A, B>>)
    requires
        all_fit(group_a@),
        all_fit(group_b@),
    ensures
        events@.to_multiset() == broad_phase_events::<A, B>(
            *quad_tree,
            group_a@,
            group_b@,
        ).to_multiset(),
        events@.len() == broad_phase_events::<A, B>(*quad_tree, group_a@, group_b@).len(),
        no_self_pairs::<A, B>(events@),
        all_inside(*quad_tree, group_b@) ==> events@.to_multiset() == brute_force_events::<A, B>(
            group_a@,
            group_b@,
        ).to_multiset(),
{
    let spatial_index = fill_buckets(quad_tree, group_b);
    let mut events: Vec<OnCollision<A, B>> = Vec::new();
    let mut i: usize = 0;
    while i < group_a.len()
        invariant
            i <= group_a@.len(),
            all_fit(group_a@),
            spatial_index@ == buckets_of(*quad_tree, group_b@),
            events@.to_multiset() == broad_phase_events::<A, B>(
                *quad_tree,
                group_a@.take(i as int),
                group_b@,
            ).to_multiset(),
            no_self_pairs::<A, B>(events@),
        decreases group_a@.len() - i,
    {
        let a = group_a[i];
        let rect_a = a.bbox.as_rect(a.position);
        let nodes = quad_tree.intersecting_nodes(&rect_a).to_vec();
        let ghost start = events@;
        let mut t: usize = 0;
        assert(nodes@.take(0) =~= Seq::empty());
        while t < nodes.len()
            invariant
                t <= nodes@.len(),
                events@ == start + probe_nodes::<A, B>(
                    a.entity,
                    rect_a,
                    nodes@.take(t as int),
                    spatial_index@,
                ),
            decreases nodes@.len() - t,
        {
            let node = nodes[t];
            assert(nodes@.take(t + 1).drop_last() =~= nodes@.take(t as int));
            assert(nodes@.take(t + 1).last() == node);
            match spatial_index.bucket(node) {
                Some(contents) => {
                    probe_contents::<A, B>(a.entity, &rect_a, contents, &mut events);
                },
                None => {},
            }
            assert(events@ =~= start + probe_nodes::<A, B>(
                a.entity,
                rect_a,
                nodes@.take(t + 1),
                spatial_index@,
            ));
            t += 1;
        }
        proof {
            assert(nodes@.take(nodes@.len() as int) =~= nodes@);
            let probed = probe_nodes::<A, B>(a.entity, rect_a, nodes@, spatial_index@);
            let found = events_within::<A, B>(
                *quad_tree,
                a.entity,
                rect_a,
                quad_tree.spec_intersecting_nodes(rect_a),
                group_b@,
            );
            lemma_probe_finds_bucketed::<A, B>(*quad_tree, a.entity, rect_a, nodes@, group_b@);
            lemma_probe_has_no_self_pairs::<A, B>(a.entity, rect_a, nodes@, spatial_index@);
            let earlier = broad_phase_events::<A, B>(*quad_tree, group_a@.take(i as int), group_b@);
            lemma_multiset_commutative(start, probed);
            lemma_multiset_commutative(earlier, found);
            assert(group_a@.take(i + 1).drop_last() =~= group_a@.take(i as int));
            assert(group_a@.take(i + 1).last() == a);
        }
        i += 1;
    }
    proof {
        assert(group_a@.take(group_a@.len() as int) =~= group_a@);
        events@.to_multiset_ensures();
        broad_phase_events::<A, B>(*quad_tree, group_a@, group_b@).to_multiset_ensures();
        use_type_invariant(quad_tree);
        if all_inside(*quad_tree, group_b@) {
            lemma_broad_phase_is_brute_force::<A, B>(*quad_tree, group_a@, group_b@);
        }
    }
    events
}

/// A pass over a bucket reports no event that pairs an entity with itself.
pub proof fn lemma_bucket_has_no_self_pairs<A, B>(entity_a: u64, rect_a: Rect2D, contents: Seq<(u64, Rect2D)>)
    ensures
        no_self_pairs::<A, B>(probe_bucket::<A, B>(entity_a, rect_a, contents)),
    decreases contents.len(),
{
    if contents.len() > 0 {
        lemma_bucket_has_no_self_pairs::<A, B>(entity_a, rect_a, contents.drop_last());
    }
}

/// A pass over the buckets of some nodes reports no event that pairs an
/// entity with itself.
pub proof fn lemma_probe_has_no_self_pairs<A, B>(
    entity_a: u64,
    rect_a: Rect2D,
    nodes: Seq<usize>,
    buckets: Map<usize, Seq<(u64, Rect2D)>>,
)
    ensures
        no_self_pairs::<A, B>(probe_nodes::<A, B>(entity_a, rect_a, nodes, buckets)),
    decreases nodes.len(),
{
    if nodes.len() > 0 {
        lemma_probe_has_no_self_pairs::<A, B>(entity_a, rect_a, nodes.drop_last(), buckets);
        if buckets.dom().contains(nodes.last()) {
            lemma_bucket_has_no_self_pairs::<A, B>(entity_a, rect_a, buckets[nodes.last()]);
        }
    }
}

/// The event, if any, that one entry of a bucket gives against a box.
pub open spec fn entry_events<A, B>(entity_a: u64, rect_a: Rect2D, entry: (u64, Rect2D)) -> Seq<
    OnCollision<A, B>,
> {
    if entity_a != entry.0 && rect_a.spec_intersect(entry.1) {
        seq![OnCollision { entity_a, entity_b: entry.0, marker: PhantomData }]
    } else {
        Seq::empty()
    }
}

/// Filing one more entry under `node` adds to a pass over distinct nodes
/// the event of that entry, if `node` is among them, and nothing else.
pub proof fn lemma_probe_after_filing<A, B>(
    entity_a: u64,
    rect_a: Rect2D,
    nodes: Seq<usize>,
    buckets: Map<usize, Seq<(u64, Rect2D)>>,
    node: usize,
    entry: (u64, Rect2D),
)
    requires
        nodes.no_duplicates(),
    ensures
        ({
            let filed = if buckets.dom().contains(node) {
                buckets[node]
            } else {
                Seq::empty()
            };
            let after = buckets.insert(node, filed.push(entry));
            probe_nodes::<A, B>(entity_a, rect_a, nodes, after).to_multiset() == if nodes.contains(node) {
                probe_nodes::<A, B>(entity_a, rect_a, nodes, buckets).to_multiset().add(
                    entry_events::<A, B>(entity_a, rect_a, entry).to_multiset(),
                )
            } else {
                probe_nodes::<A, B>(entity_a, rect_a, nodes, buckets).to_multiset()
            }
        }),
    decreases nodes.len(),
{
    broadcast use vstd::multiset::group_multiset_axioms;
    broadcast use vstd::seq_lib::group_to_multiset_ensures;

    let filed = if buckets.dom().contains(node) {
        buckets[node]
    } else {
        Seq::empty()
    };
    let after = buckets.insert(node, filed.push(entry));
    if nodes.len() > 0 {
        let front = nodes.drop_last();
        let k = nodes.last();
        lemma_probe_after_filing::<A, B>(entity_a, rect_a, front, buckets, node, entry);
        let rest_after = probe_nodes::<A, B>(entity_a, rect_a, front, after);
        let rest_before = probe_nodes::<A, B>(entity_a, rect_a, front, buckets);
        assert forall|x: usize| front.contains(x) implies nodes.contains(x) by {
            let at = choose|at: int| 0 <= at < front.len() && front[at] == x;
            assert(nodes[at] == x);
        }
        if k == node {
            assert(!front.contains(node)) by {
                if front.contains(node) {
                    let at = choose|at: int| 0 <= at < front.len() && front[at] == node;
                    assert(nodes[at] == nodes[nodes.len() - 1]);
                }
            }
            assert(nodes[nodes.len() - 1] == node);
            let grown = filed.push(entry);
            assert(grown.drop_last() =~= filed);
            assert(grown.last() == entry);
            let old_events = probe_bucket::<A, B>(entity_a, rect_a, filed);
            let one = entry_events::<A, B>(entity_a, rect_a, entry);
            assert(probe_bucket::<A, B>(entity_a, rect_a, grown) =~= old_events + one);
            lemma_multiset_commutative(rest_after, old_events + one);
            lemma_multiset_commutative(old_events, one);
            lemma_multiset_commutative(rest_before, old_events);
            assert(probe_nodes::<A, B>(entity_a, rect_a, nodes, after).to_multiset() =~= probe_nodes::<A, B>(
                entity_a,
                rect_a,
                nodes,
                buckets,
            ).to_multiset().add(one.to_multiset()));
        } else {
            assert(nodes.contains(node) == front.contains(node)) by {
                if nodes.contains(node) {
                    let at = choose|at: int| 0 <= at < nodes.len() && nodes[at] == node;
                    assert(front[at] == node);
                }
            }
            if buckets.dom().contains(k) {
                let here = probe_bucket::<A, B>(entity_a, rect_a, buckets[k]);
                lemma_multiset_commutative(rest_after, here);
                lemma_multiset_commutative(rest_before, here);
            }
            assert(probe_nodes::<A, B>(entity_a, rect_a, nodes, after).to_multiset() =~= if nodes.contains(
                node,
            ) {
                probe_nodes::<A, B>(entity_a, rect_a, nodes, buckets).to_multiset().add(
                    entry_events::<A, B>(entity_a, rect_a, entry).to_multiset(),
                )
            } else {
                probe_nodes::<A, B>(entity_a, rect_a, nodes, buckets).to_multiset()
            });
        }
    } else {
        assert(!nodes.contains(node));
    }
}

/// A pass over empty buckets reports nothing.
pub proof fn lemma_probe_of_nothing<A, B>(entity_a: u64, rect_a: Rect2D, nodes: Seq<usize>)
    ensures
        probe_nodes::<A, B>(entity_a, rect_a, nodes, Map::empty()) == Seq::<OnCollision<A, B>>::empty(),
    decreases nodes.len(),
{
    if nodes.len() > 0 {
        lemma_probe_of_nothing::<A, B>(entity_a, rect_a, nodes.drop_last());
    }
}

/// Probing the buckets of distinct nodes reports, up to order, one event
/// for each member of `group_b` of another entity that overlaps the box and
/// is bucketed in one of those nodes.
pub proof fn lemma_probe_finds_bucketed<A, B>(
    tree: StaticQuadTree,
    entity_a: u64,
    rect_a: Rect2D,
    nodes: Seq<usize>,
    group_b: Seq<Collider>,
)
    requires
        nodes.no_duplicates(),
    ensures
        probe_nodes::<A, B>(entity_a, rect_a, nodes, buckets_of(tree, group_b)).to_multiset()
            == events_within::<A, B>(tree, entity_a, rect_a, nodes.to_set(), group_b).to_multiset(),
    decreases group_b.len(),
{
    broadcast use vstd::multiset::group_multiset_axioms;
    broadcast use vstd::seq_lib::group_to_multiset_ensures;

    if group_b.len() == 0 {
        lemma_probe_of_nothing::<A, B>(entity_a, rect_a, nodes);
    } else {
        let front = group_b.drop_last();
        let b = group_b.last();
        lemma_probe_finds_bucketed::<A, B>(tree, entity_a, rect_a, nodes, front);
        lemma_probe_after_filing::<A, B>(
            entity_a,
            rect_a,
            nodes,
            buckets_of(tree, front),
            bucket_of(tree, b),
            (b.entity, b.rect()),
        );
        let one = entry_events::<A, B>(entity_a, rect_a, (b.entity, b.rect()));
        let rest = events_within::<A, B>(tree, entity_a, rect_a, nodes.to_set(), front);
        assert(nodes.to_set().contains(bucket_of(tree, b)) == nodes.contains(bucket_of(tree, b)));
        if nodes.contains(bucket_of(tree, b)) {
            lemma_multiset_commutative(rest, one);
            assert(events_within::<A, B>(tree, entity_a, rect_a, nodes.to_set(), group_b) =~= rest + one);
        }
        assert(probe_nodes::<A, B>(entity_a, rect_a, nodes, buckets_of(tree, group_b)).to_multiset()
            =~= events_within::<A, B>(tree, entity_a, rect_a, nodes.to_set(), group_b).to_multiset());
    }
}

/// The box of every member of the group lies inside the world that the
/// tree covers, edges included.
pub open spec fn all_inside(tree: StaticQuadTree, group: Seq<Collider>) -> bool {
    forall|j: int|
        0 <= j < group.len() ==> tree@[0].bounds.contains_rect((#[trigger] group[j]).rect())
}

/// Against boxes inside the world, probing the tree for one box reports
/// what testing it against every one of them reports.
pub proof fn lemma_probe_is_brute_force<A, B>(tree: StaticQuadTree, a: Collider, group_b: Seq<Collider>)
    requires
        tree.wf(),
        all_inside(tree, group_b),
    ensures
        events_within::<A, B>(
            tree,
            a.entity,
            a.rect(),
            tree.spec_intersecting_nodes(a.rect()),
            group_b,
        ) == brute_force_of::<A, B>(a, group_b),
    decreases group_b.len(),
{
    if group_b.len() > 0 {
        let front = group_b.drop_last();
        let b = group_b.last();
        assert forall|j: int| 0 <= j < front.len() implies tree@[0].bounds.contains_rect(
            (#[trigger] front[j]).rect(),
        ) by {
            assert(front[j] == group_b[j]);
        }
        lemma_probe_is_brute_force::<A, B>(tree, a, front);
        assert(b == group_b[group_b.len() - 1]);
        if a.rect().spec_intersect(b.rect()) {
            tree.lemma_overlapping_box_is_found(b.rect(), a.rect());
        }
    }
}

/// Broad-phase equivalence: where the boxes of the second group lie inside
/// the world, a pass reports exactly what testing every pair reports.
pub proof fn lemma_broad_phase_is_brute_force<A, B>(
    tree: StaticQuadTree,
    group_a: Seq<Collider>,
    group_b: Seq<Collider>,
)
    requires
        tree.wf(),
        all_inside(tree, group_b),
    ensures
        broad_phase_events::<A, B>(tree, group_a, group_b) == brute_force_events::<A, B>(group_a, group_b),
    decreases group_a.len(),
{
    if group_a.len() > 0 {
        lemma_broad_phase_is_brute_force::<A, B>(tree, group_a.drop_last(), group_b);
        lemma_probe_is_brute_force::<A, B>(tree, group_a.last(), group_b);
    }
}

} // verus!
