use vstd::prelude::*;
use vstd::arithmetic::power::pow;
use crate::node_set::NodeSet;
use crate::rect2d::{Rect2D, Vec2};

verus! {

/// A depth at which a tree can be built on every target: its node indices
/// still fit a 32-bit `usize`.
pub const MAX_DEPTH: usize = 15;

/// One cell of the tree: the part of the world it covers and, unless it is
/// a leaf, the indices of its four children in quadrant order.
#[derive(Clone, Copy, Debug)]
pub struct StaticQuadTreeNode {
    pub bounds: Rect2D,
    pub children: Option<[usize; 4]>,
}

/// A quadtree over a fixed world, built once and never changed. The nodes
/// lie in one sequence and refer to each other by index; node 0 is the root.
#[derive(Debug)]
pub struct StaticQuadTree {
    nodes: Vec<StaticQuadTreeNode>,
}

/// The number of nodes of a tree with `depth` levels below its root.
pub open spec fn node_count(depth: nat) -> int {
    (pow(4, depth + 1) - 1) / 3
}

/// The node count again, by the way a tree is put together: a root and four
/// subtrees that are one level shallower.
pub open spec fn full_size(levels: nat) -> int
    decreases levels,
{
    if levels == 0 {
        1
    } else {
        4 * full_size((levels - 1) as nat) + 1
    }
}

/// Half of a world extent, rounded towards zero.
pub open spec fn half(extent: int) -> int {
    if extent >= 0 {
        extent / 2
    } else {
        -((-extent) / 2)
    }
}

/// The rectangle of the given extent that is centered at the origin.
pub open spec fn root_bounds(world_extent: Vec2) -> Rect2D {
    Rect2D {
        min: Vec2 { x: (-half(world_extent.x as int)) as i64, y: (-half(world_extent.y as int)) as i64 },
        max: Vec2 { x: half(world_extent.x as int) as i64, y: half(world_extent.y as int) as i64 },
    }
}

/// The index of child `k` of node `i`, which is taken to have children.
pub open spec fn child(nodes: Seq<StaticQuadTreeNode>, i: int, k: int) -> int {
    nodes[i].children.unwrap()@[k] as int
}

/// Child `k` of node `i` lies further on in the sequence and covers quadrant
/// `k` of the bounds of `i`.
pub open spec fn child_linked(nodes: Seq<StaticQuadTreeNode>, i: int, k: int) -> bool {
    &&& i < child(nodes, i, k) < nodes.len()
    &&& nodes[child(nodes, i, k)].bounds == nodes[i].bounds.quadrant(k)
}

pub open spec fn node_linked(nodes: Seq<StaticQuadTreeNode>, i: int) -> bool {
    nodes[i].children is Some ==> {
        &&& child_linked(nodes, i, 0)
        &&& child_linked(nodes, i, 1)
        &&& child_linked(nodes, i, 2)
        &&& child_linked(nodes, i, 3)
    }
}

/// Every node that has children is linked to them as [`child_linked`] says.
pub open spec fn linked(nodes: Seq<StaticQuadTreeNode>) -> bool {
    forall|i: int| 0 <= i < nodes.len() ==> #[trigger] node_linked(nodes, i)
}

/// Node `j` is a child of an earlier node.
pub open spec fn has_parent(nodes: Seq<StaticQuadTreeNode>, j: int) -> bool {
    exists|i: int, k: int|
        0 <= i < j && 0 <= k < 4 && nodes[i].children is Some && #[trigger] child(nodes, i, k) == j
}

/// Every node but the root is a child of an earlier node.
pub open spec fn parented(nodes: Seq<StaticQuadTreeNode>) -> bool {
    forall|j: int| 0 < j < nodes.len() ==> #[trigger] has_parent(nodes, j)
}

/// Node `i` heads a full subtree with `levels` levels below it: its leaves
/// all lie exactly `levels` steps down. The nodes of the subtree other than
/// `i` itself sit at index `lo` or beyond.
pub open spec fn full_below(nodes: Seq<StaticQuadTreeNode>, i: int, levels: nat, lo: int) -> bool
    decreases levels,
{
    &&& 0 <= i < nodes.len()
    &&& if levels == 0 {
        nodes[i].children is None
    } else {
        &&& nodes[i].children is Some
        &&& lo <= child(nodes, i, 0) && full_below(nodes, child(nodes, i, 0), (levels - 1) as nat, lo)
        &&& lo <= child(nodes, i, 1) && full_below(nodes, child(nodes, i, 1), (levels - 1) as nat, lo)
        &&& lo <= child(nodes, i, 2) && full_below(nodes, child(nodes, i, 2), (levels - 1) as nat, lo)
        &&& lo <= child(nodes, i, 3) && full_below(nodes, child(nodes, i, 3), (levels - 1) as nat, lo)
    }
}

/// Child `k` of node `i` overlaps `target`.
pub open spec fn child_hit(nodes: Seq<StaticQuadTreeNode>, i: int, k: int, target: Rect2D) -> bool {
    nodes[child(nodes, i, k)].bounds.spec_intersect(target)
}

/// How many of the four children of node `i` overlap `target`.
pub open spec fn hit_count(nodes: Seq<StaticQuadTreeNode>, i: int, target: Rect2D) -> int {
    (if child_hit(nodes, i, 0, target) { 1int } else { 0 })
        + (if child_hit(nodes, i, 1, target) { 1int } else { 0 })
        + (if child_hit(nodes, i, 2, target) { 1int } else { 0 })
        + (if child_hit(nodes, i, 3, target) { 1int } else { 0 })
}

/// The first child of node `i`, in quadrant order, that overlaps `target`.
pub open spec fn first_hit(nodes: Seq<StaticQuadTreeNode>, i: int, target: Rect2D) -> int {
    if child_hit(nodes, i, 0, target) {
        child(nodes, i, 0)
    } else if child_hit(nodes, i, 1, target) {
        child(nodes, i, 1)
    } else if child_hit(nodes, i, 2, target) {
        child(nodes, i, 2)
    } else {
        child(nodes, i, 3)
    }
}

/// Where a descent for `target` that starts at node `i` comes to rest: it
/// steps into a child as long as that child is the only one of the four
/// that overlaps `target`.
pub open spec fn descend(nodes: Seq<StaticQuadTreeNode>, i: int, target: Rect2D) -> int
    decreases nodes.len() - i,
{
    if 0 <= i < nodes.len() && nodes[i].children is Some && hit_count(nodes, i, target) == 1 && i
        < first_hit(nodes, i, target) < nodes.len() {
        descend(nodes, first_hit(nodes, i, target), target)
    } else {
        i
    }
}

/// The nodes that a pruned walk from child `k` of node `i` collects.
pub open spec fn hits_below(nodes: Seq<StaticQuadTreeNode>, i: int, k: int, target: Rect2D) -> Set<
    usize,
>
    decreases nodes.len() - i, 0int,
{
    if 0 <= i < child(nodes, i, k) < nodes.len() {
        subtree_hits(nodes, child(nodes, i, k), target)
    } else {
        Set::empty()
    }
}

/// The nodes that a pruned walk from node `i` collects: `i` itself if it
/// overlaps `target`, and then what the walks from its children collect.
/// Below a node that does not overlap `target` nothing is collected.
pub open spec fn subtree_hits(nodes: Seq<StaticQuadTreeNode>, i: int, target: Rect2D) -> Set<usize>
    decreases nodes.len() - i, 1int,
{
    if 0 <= i < nodes.len() && nodes[i].bounds.spec_intersect(target) {
        if nodes[i].children is Some {
            set![i as usize].union(hits_below(nodes, i, 0, target)).union(
                hits_below(nodes, i, 1, target),
            ).union(hits_below(nodes, i, 2, target)).union(hits_below(nodes, i, 3, target))
        } else {
            set![i as usize]
        }
    } else {
        Set::empty()
    }
}

impl View for StaticQuadTree {
    type V = Seq<StaticQuadTreeNode>;

    closed spec fn view(&self) -> Seq<StaticQuadTreeNode> {
        self.nodes@
    }
}

impl StaticQuadTree {
    /// The tree has a root, every node is linked to its children, and every
    /// node but the root is the child of an earlier one.
    #[verifier::type_invariant]
    pub open spec fn wf(self) -> bool {
        &&& 1 <= self@.len() <= usize::MAX
        &&& linked(self@)
        &&& parented(self@)
    }

    /// The node in which a box with the rectangle `target` is bucketed.
    pub open spec fn spec_smallest_node(self, target: Rect2D) -> int {
        descend(self@, 0, target)
    }

    /// The nodes that are probed for a box with the rectangle `target`.
    pub open spec fn spec_intersecting_nodes(self, target: Rect2D) -> Set<usize> {
        subtree_hits(self@, 0, target)
    }

    /// Decides whether the nodes of a tree with `max_depth` levels below the
    /// root can be indexed, that is, whether [`StaticQuadTree::new`] may be
    /// asked for it.
    pub fn can_build(max_depth: usize) -> (ok: bool)
        ensures
            ok == (node_count(max_depth as nat) <= usize::MAX),
            max_depth <= MAX_DEPTH ==> ok,
    {
        let mut size: usize = 1;
        let mut levels: usize = 0;
        while levels < max_depth
            invariant
                levels <= max_depth,
                size == full_size(levels as nat),
            decreases max_depth - levels,
        {
            proof {
                lemma_full_size_grows((levels + 1) as nat, max_depth as nat);
                lemma_full_size_is_node_count(max_depth as nat);
                if max_depth <= MAX_DEPTH {
                    lemma_full_size_bounded(max_depth as nat);
                }
                assert(full_size((levels + 1) as nat) == 4 * full_size(levels as nat) + 1);
            }
            match size.checked_mul(4) {
                Some(fourfold) => {
                    match fourfold.checked_add(1) {
                        Some(next) => {
                            size = next;
                        },
                        None => {
                            return false;
                        },
                    }
                },
                None => {
                    return false;
                },
            }
            levels += 1;
        }
        proof {
            lemma_full_size_is_node_count(max_depth as nat);
        }
        true
    }

    /// Builds the tree over the world of the given extent, centered at the
    /// origin, with `max_depth` levels below the root.
    pub fn new(world_extent: Vec2, max_depth: usize) -> (tree: StaticQuadTree)
        requires
            node_count(max_depth as nat) <= usize::MAX,
        ensures
            tree.wf(),
            tree@.len() == node_count(max_depth as nat),
            tree@[0].bounds == root_bounds(world_extent),
            world_extent.x >= 0 && world_extent.y >= 0 ==> tree@[0].bounds.is_valid(),
            full_below(tree@, 0, max_depth as nat, 1),
    {
        let mut nodes: Vec<StaticQuadTreeNode> = Vec::new();
        let half_x = halve(world_extent.x);
        let half_y = halve(world_extent.y);
        let top = StaticQuadTreeNode {
            bounds: Rect2D::new(Vec2::new(0 - half_x, 0 - half_y), Vec2::new(half_x, half_y)),
            children: None,
        };
        nodes.push(top);
        proof {
            lemma_full_size_is_node_count(max_depth as nat);
        }
        if max_depth > 0 {
            Self::subdivide(&mut nodes, 0, 1, max_depth);
        }
        StaticQuadTree { nodes }
    }

    /// How many nodes the tree has.
    pub fn len(&self) -> (n: usize)
        ensures
            n == self@.len(),
    {
        self.nodes.len()
    }

    /// The node at `index`.
    pub fn node(&self, index: usize) -> (node: StaticQuadTreeNode)
        requires
            index < self@.len(),
        ensures
            node == self@[index as int],
    {
        self.nodes[index]
    }

    /// Splits node `index`, a leaf at depth `depth - 1`, and then its
    /// children in turn, until the leaves stand at depth `max_depth`.
    fn subdivide(nodes: &mut Vec<StaticQuadTreeNode>, index: usize, depth: usize, max_depth: usize)
        requires
            1 <= depth <= max_depth,
            index < old(nodes)@.len(),
            old(nodes)@[index as int].children is None,
            linked(old(nodes)@),
            parented(old(nodes)@),
            old(nodes)@.len() + full_size((max_depth - depth + 1) as nat) - 1 <= usize::MAX,
        ensures
            final(nodes)@.len() == old(nodes)@.len() + full_size((max_depth - depth + 1) as nat) - 1,
            linked(final(nodes)@),
            parented(final(nodes)@),
            forall|i: int|
                0 <= i < old(nodes)@.len() && i != index ==> final(nodes)@[i] == old(nodes)@[i],
            final(nodes)@[index as int].bounds == old(nodes)@[index as int].bounds,
            full_below(
                final(nodes)@,
                index as int,
                (max_depth - depth + 1) as nat,
                old(nodes)@.len() as int,
            ),
        decreases max_depth - depth,
    {
        let ghost levels = (max_depth - depth) as nat;
        let ghost step = full_size(levels) - 1;
        proof {
            lemma_full_size_positive(levels);
        }
        let bounds = nodes[index].bounds;
        let quads = bounds.quadrants();
        let base = nodes.len();
        let child_index = [base, base + 1, base + 2, base + 3];
        nodes.set(index, StaticQuadTreeNode { bounds, children: Some(child_index) });
        nodes.push(StaticQuadTreeNode { bounds: quads[0], children: None });
        nodes.push(StaticQuadTreeNode { bounds: quads[1], children: None });
        nodes.push(StaticQuadTreeNode { bounds: quads[2], children: None });
        nodes.push(StaticQuadTreeNode { bounds: quads[3], children: None });
        proof {
            assert forall|i: int| 0 <= i < nodes@.len() implies #[trigger] node_linked(nodes@, i) by {
                if i < base && i != index {
                    assert(node_linked(old(nodes)@, i));
                }
            }
            assert forall|j: int| 0 < j < nodes@.len() implies #[trigger] has_parent(nodes@, j) by {
                if j < base {
                    assert(has_parent(old(nodes)@, j));
                    let (i, k) = choose|i: int, k: int|
                        0 <= i < j && 0 <= k < 4 && old(nodes)@[i].children is Some && #[trigger] child(
                            old(nodes)@,
                            i,
                            k,
                        ) == j;
                    assert(child(nodes@, i, k) == j);
                } else {
                    assert(child(nodes@, index as int, j - base) == j);
                }
            }
        }
        if depth < max_depth {
            let mut k: usize = 0;
            while k < 4
                invariant
                    k <= 4,
                    depth < max_depth,
                    levels == max_depth - depth,
                    step == full_size(levels) - 1,
                    step >= 0,
                    base == old(nodes)@.len(),
                    index < base,
                    child_index@ == seq![base, (base + 1) as usize, (base + 2) as usize, (base + 3) as usize],
                    base + 4 * full_size(levels) <= usize::MAX,
                    nodes@.len() == base + 4 + k * step,
                    linked(nodes@),
                    parented(nodes@),
                    forall|i: int| 0 <= i < base && i != index ==> nodes@[i] == old(nodes)@[i],
                    nodes@[index as int].bounds == old(nodes)@[index as int].bounds,
                    nodes@[index as int].children == Some(child_index),
                    forall|j: int| k <= j < 4 ==> (#[trigger] nodes@[base + j]).children is None,
                    forall|j: int|
                        0 <= j < k ==> full_below(nodes@, #[trigger] (base + j), levels, base + 4),
                decreases 4 - k,
            {
                let ghost before = nodes@;
                assert((k + 1) * step == k * step + step) by (nonlinear_arith);
                assert(k * step <= 3 * step) by (nonlinear_arith)
                    requires
                        k <= 3,
                        step >= 0,
                ;
                assert(before[base + k].children is None);
                Self::subdivide(nodes, child_index[k], depth + 1, max_depth);
                proof {
                    lemma_full_below_from_earlier(nodes@, base + k, levels, before.len() as int, base + 4);
                    assert forall|j: int| 0 <= j < k implies full_below(
                        nodes@,
                        #[trigger] (base + j),
                        levels,
                        base + 4,
                    ) by {
                        lemma_full_below_kept(before, nodes@, base + j, levels, base + 4);
                    }
                    assert forall|j: int| k + 1 <= j < 4 implies (#[trigger] nodes@[base
                        + j]).children is None by {
                        assert(before[base + j].children is None);
                    }
                }
                k += 1;
            }
            proof {
                assert(full_below(nodes@, base + 0, levels, base + 4));
                assert(full_below(nodes@, base + 1, levels, base + 4));
                assert(full_below(nodes@, base + 2, levels, base + 4));
                assert(full_below(nodes@, base + 3, levels, base + 4));
                lemma_full_below_from_earlier(nodes@, base + 0, levels, base + 4, base as int);
                lemma_full_below_from_earlier(nodes@, base + 1, levels, base + 4, base as int);
                lemma_full_below_from_earlier(nodes@, base + 2, levels, base + 4, base as int);
                lemma_full_below_from_earlier(nodes@, base + 3, levels, base + 4, base as int);
            }
        } else {
            assert(full_below(nodes@, base + 0, 0, base as int));
            assert(full_below(nodes@, base + 1, 0, base as int));
            assert(full_below(nodes@, base + 2, 0, base as int));
            assert(full_below(nodes@, base + 3, 0, base as int));
        }
        assert(child(nodes@, index as int, 0) == base + 0);
        assert(child(nodes@, index as int, 1) == base + 1);
        assert(child(nodes@, index as int, 2) == base + 2);
        assert(child(nodes@, index as int, 3) == base + 3);
    }

    /// Of the four `children` of a node, the one that overlaps `target`,
    /// if it is the only one that does.
    fn sole_hit(&self, index: usize, children: &[usize; 4], target: &Rect2D) -> (found: Option<usize>)
        requires
            index < self@.len(),
            self@[index as int].children == Some(*children),
        ensures
            found.is_some() == (hit_count(self@, index as int, *target) == 1),
            found.is_some() ==> found.unwrap() == first_hit(self@, index as int, *target)
                && index < found.unwrap() < self@.len(),
    {
        proof {
            use_type_invariant(self);
            assert(node_linked(self@, index as int));
        }
        let mut count: usize = 0;
        let mut first: usize = children[3];
        if self.nodes[children[3]].bounds.intersect(target) {
            count += 1;
        }
        if self.nodes[children[2]].bounds.intersect(target) {
            count += 1;
            first = children[2];
        }
        if self.nodes[children[1]].bounds.intersect(target) {
            count += 1;
            first = children[1];
        }
        if self.nodes[children[0]].bounds.intersect(target) {
            count += 1;
            first = children[0];
        }
        if count == 1 {
            Some(first)
        } else {
            None
        }
    }

    /// Finds the node in which to bucket a box with the rectangle `target`:
    /// from the root, the walk steps into a child as long as exactly one
    /// child overlaps `target`, and stops where none or several do.
    pub fn smallest_node(&self, target: &Rect2D) -> (index: usize)
        ensures
            index == self.spec_smallest_node(*target),
            index < self@.len(),
            self@[0].bounds.spec_intersect(*target) ==> self.spec_intersecting_nodes(
                *target,
            ).contains(index),
            self@[0].bounds.contains_rect(*target) ==> self@[index as int].bounds.contains_rect(
                *target,
            ),
    {
        proof {
            use_type_invariant(self);
            if self@[0].bounds.spec_intersect(*target) {
                self.lemma_smallest_node_is_intersecting(*target);
            }
            if self@[0].bounds.contains_rect(*target) {
                lemma_bucket_holds_box(self@, 0, *target);
            }
        }
        let mut current: usize = 0;
        loop
            invariant
                self.wf(),
                current < self@.len(),
                descend(self@, current as int, *target) == descend(self@, 0, *target),
            ensures
                current < self@.len(),
                current == descend(self@, 0, *target),
            decreases self@.len() - current,
        {
            match self.nodes[current].children {
                Some(children) => {
                    match self.sole_hit(current, &children, target) {
                        Some(next) => {
                            current = next;
                        },
                        None => {
                            break ;
                        },
                    }
                },
                None => {
                    break ;
                },
            }
        }
        current
    }

    /// Collects every node that overlaps `target` and whose ancestors all
    /// do: the nodes whose buckets can hold a box that overlaps `target`.
    pub fn intersecting_nodes(&self, target: &Rect2D) -> (result: NodeSet)
        ensures
            result@ == self.spec_intersecting_nodes(*target),
            self@[0].bounds.is_valid() ==> forall|i: usize|
                result@.contains(i) <==> i < self@.len() && (#[trigger] self@[i as int]).bounds.spec_intersect(
                    *target,
                ),
    {
        proof {
            use_type_invariant(self);
            if self@[0].bounds.is_valid() {
                self.lemma_intersecting_nodes_are_the_overlapping(*target);
            }
        }
        let mut result = NodeSet::empty();
        self.intersect(0, &mut result, target);
        assert(result@ =~= self.spec_intersecting_nodes(*target));
        result
    }

    /// Adds to `result` what the pruned walk from node `index` collects.
    fn intersect(&self, index: usize, result: &mut NodeSet, target: &Rect2D)
        requires
            index < self@.len(),
        ensures
            final(result)@ == old(result)@.union(subtree_hits(self@, index as int, *target)),
        decreases self@.len() - index,
    {
        proof {
            use_type_invariant(self);
            assert(node_linked(self@, index as int));
        }
        if self.nodes[index].bounds.intersect(target) {
            result.add(index);
            if let Some(children) = self.nodes[index].children {
                self.intersect(children[0], result, target);
                self.intersect(children[1], result, target);
                self.intersect(children[2], result, target);
                self.intersect(children[3], result, target);
            }
        }
        assert(result@ =~= old(result)@.union(subtree_hits(self@, index as int, *target)));
    }
}

/// Half of `extent`, rounded towards zero.
pub fn halve(extent: i64) -> (h: i64)
    ensures
        h == half(extent as int),
        -0x4000_0000_0000_0000 <= h <= 0x4000_0000_0000_0000,
{
    if extent >= 0 {
        extent / 2
    } else {
        let size: i128 = 0 - extent as i128;
        (0 - size / 2) as i64
    }
}

pub proof fn lemma_full_size_positive(levels: nat)
    ensures
        full_size(levels) >= 1,
    decreases levels,
{
    if levels > 0 {
        lemma_full_size_positive((levels - 1) as nat);
    }
}

/// A deeper tree has at least as many nodes.
pub proof fn lemma_full_size_grows(shallow: nat, deep: nat)
    requires
        shallow <= deep,
    ensures
        full_size(shallow) <= full_size(deep),
    decreases deep,
{
    if shallow < deep {
        lemma_full_size_grows(shallow, (deep - 1) as nat);
        lemma_full_size_positive((deep - 1) as nat);
    }
}

/// Three times the size of a full tree, and one more, is a power of four;
/// so the size is the node count `(4^(levels+1) - 1) / 3`.
pub proof fn lemma_full_size_is_node_count(levels: nat)
    ensures
        3 * full_size(levels) + 1 == pow(4, levels + 1),
        full_size(levels) == node_count(levels),
    decreases levels,
{
    reveal(pow);
    if levels == 0 {
        assert(pow(4, 1) == 4 * pow(4, 0));
    } else {
        lemma_full_size_is_node_count((levels - 1) as nat);
        assert(pow(4, levels + 1) == 4 * pow(4, levels));
    }
}

/// A tree of at most [`MAX_DEPTH`] levels has its node indices within 32 bits.
pub proof fn lemma_full_size_bounded(levels: nat)
    requires
        levels <= MAX_DEPTH,
    ensures
        full_size(levels) <= 1431655765,
        full_size(levels) <= usize::MAX,
        node_count(levels) <= usize::MAX,
{
    lemma_full_size_grows(levels, 15);
    lemma_full_size_is_node_count(levels);
    assert(full_size(15) == 1431655765) by {
        reveal_with_fuel(full_size, 17);
    }
}

/// A full subtree stays full when its nodes keep their values, whatever
/// else changes in the sequence or is appended to it.
pub proof fn lemma_full_below_kept(
    before: Seq<StaticQuadTreeNode>,
    after: Seq<StaticQuadTreeNode>,
    i: int,
    levels: nat,
    lo: int,
)
    requires
        full_below(before, i, levels, lo),
        linked(before),
        before.len() <= after.len(),
        after[i] == before[i],
        forall|x: int| lo <= x < before.len() ==> after[x] == before[x],
    ensures
        full_below(after, i, levels, lo),
    decreases levels,
{
    if levels > 0 {
        assert(node_linked(before, i));
        lemma_full_below_kept(before, after, child(before, i, 0), (levels - 1) as nat, lo);
        lemma_full_below_kept(before, after, child(before, i, 1), (levels - 1) as nat, lo);
        lemma_full_below_kept(before, after, child(before, i, 2), (levels - 1) as nat, lo);
        lemma_full_below_kept(before, after, child(before, i, 3), (levels - 1) as nat, lo);
    }
}

/// A subtree whose nodes sit at `lo` or beyond sits at any earlier index or beyond.
pub proof fn lemma_full_below_from_earlier(
    nodes: Seq<StaticQuadTreeNode>,
    i: int,
    levels: nat,
    lo: int,
    earlier: int,
)
    requires
        full_below(nodes, i, levels, lo),
        earlier <= lo,
    ensures
        full_below(nodes, i, levels, earlier),
    decreases levels,
{
    if levels > 0 {
        lemma_full_below_from_earlier(nodes, child(nodes, i, 0), (levels - 1) as nat, lo, earlier);
        lemma_full_below_from_earlier(nodes, child(nodes, i, 1), (levels - 1) as nat, lo, earlier);
        lemma_full_below_from_earlier(nodes, child(nodes, i, 2), (levels - 1) as nat, lo, earlier);
        lemma_full_below_from_earlier(nodes, child(nodes, i, 3), (levels - 1) as nat, lo, earlier);
    }
}

/// Where the descent for `r` from a node that overlaps `r` comes to rest
/// is a node that the pruned walk for `r` from the same node collects.
pub proof fn lemma_descent_is_collected(nodes: Seq<StaticQuadTreeNode>, i: int, r: Rect2D)
    requires
        linked(nodes),
        0 <= i < nodes.len(),
        nodes[i].bounds.spec_intersect(r),
    ensures
        0 <= descend(nodes, i, r) < nodes.len(),
        subtree_hits(nodes, i, r).contains(descend(nodes, i, r) as usize),
    decreases nodes.len() - i,
{
    assert(node_linked(nodes, i));
    if nodes[i].children is Some && hit_count(nodes, i, r) == 1 {
        let next = first_hit(nodes, i, r);
        lemma_descent_is_collected(nodes, next, r);
        lemma_child_walk_is_part(nodes, i, r);
    }
}

/// What the pruned walk collects from a child is part of what it collects
/// from the parent, provided the parent overlaps the target.
pub proof fn lemma_child_walk_is_part(nodes: Seq<StaticQuadTreeNode>, i: int, target: Rect2D)
    requires
        0 <= i < nodes.len(),
        node_linked(nodes, i),
        nodes[i].children is Some,
        nodes[i].bounds.spec_intersect(target),
    ensures
        forall|k: int|
            0 <= k < 4 ==> (#[trigger] subtree_hits(nodes, child(nodes, i, k), target)).subset_of(
                subtree_hits(nodes, i, target),
            ),
{
    assert(hits_below(nodes, i, 0, target) == subtree_hits(nodes, child(nodes, i, 0), target));
    assert(hits_below(nodes, i, 1, target) == subtree_hits(nodes, child(nodes, i, 1), target));
    assert(hits_below(nodes, i, 2, target) == subtree_hits(nodes, child(nodes, i, 2), target));
    assert(hits_below(nodes, i, 3, target) == subtree_hits(nodes, child(nodes, i, 3), target));
}

/// A box that lies within the bounds of node `i` is bucketed, by the
/// descent from `i`, in a node whose bounds it lies within.
pub proof fn lemma_bucket_holds_box(nodes: Seq<StaticQuadTreeNode>, i: int, filed: Rect2D)
    requires
        linked(nodes),
        0 <= i < nodes.len(),
        nodes[i].bounds.contains_rect(filed),
    ensures
        0 <= descend(nodes, i, filed) < nodes.len(),
        nodes[descend(nodes, i, filed)].bounds.contains_rect(filed),
    decreases nodes.len() - i,
{
    assert(node_linked(nodes, i));
    if nodes[i].children is Some && hit_count(nodes, i, filed) == 1 {
        lemma_bucket_holds_box(nodes, first_hit(nodes, i, filed), filed);
    }
}

/// A box that lies within the bounds of node `i` is bucketed, by the
/// descent from `i`, in a node whose bounds it lies within; and the pruned
/// walk from `i` for any rectangle that overlaps the box collects that node.
pub proof fn lemma_bucket_is_probed(
    nodes: Seq<StaticQuadTreeNode>,
    i: int,
    filed: Rect2D,
    probe: Rect2D,
)
    requires
        linked(nodes),
        0 <= i < nodes.len(),
        nodes[i].bounds.contains_rect(filed),
        probe.spec_intersect(filed),
    ensures
        0 <= descend(nodes, i, filed) < nodes.len(),
        nodes[descend(nodes, i, filed)].bounds.contains_rect(filed),
        subtree_hits(nodes, i, probe).contains(descend(nodes, i, filed) as usize),
    decreases nodes.len() - i,
{
    assert(node_linked(nodes, i));
    if nodes[i].children is Some && hit_count(nodes, i, filed) == 1 {
        let next = first_hit(nodes, i, filed);
        lemma_bucket_is_probed(nodes, next, filed, probe);
        lemma_child_walk_is_part(nodes, i, probe);
    }
}

impl StaticQuadTree {
    /// Bucket soundness: the node in which a box is bucketed is among the
    /// nodes probed for the same rectangle, wherever the rectangle overlaps
    /// the world at all.
    pub proof fn lemma_smallest_node_is_intersecting(self, r: Rect2D)
        requires
            self.wf(),
            self@[0].bounds.spec_intersect(r),
        ensures
            0 <= self.spec_smallest_node(r) < self@.len(),
            self.spec_intersecting_nodes(r).contains(self.spec_smallest_node(r) as usize),
    {
        lemma_descent_is_collected(self@, 0, r);
    }

    /// A box inside the world is bucketed in a node whose bounds it lies
    /// within, and that node is probed for every rectangle that overlaps the box.
    pub proof fn lemma_overlapping_box_is_found(self, filed: Rect2D, probe: Rect2D)
        requires
            self.wf(),
            self@[0].bounds.contains_rect(filed),
            probe.spec_intersect(filed),
        ensures
            0 <= self.spec_smallest_node(filed) < self@.len(),
            self@[self.spec_smallest_node(filed)].bounds.contains_rect(filed),
            self.spec_intersecting_nodes(probe).contains(self.spec_smallest_node(filed) as usize),
    {
        lemma_bucket_is_probed(self@, 0, filed, probe);
    }
}

/// What the pruned walk from node `i` collects are nodes from `i` on that
/// overlap the target.
pub proof fn lemma_collected_overlap(nodes: Seq<StaticQuadTreeNode>, i: int, target: Rect2D)
    requires
        linked(nodes),
        nodes.len() <= usize::MAX,
    ensures
        forall|x: usize| #[trigger]
            subtree_hits(nodes, i, target).contains(x) ==> i <= x < nodes.len()
                && nodes[x as int].bounds.spec_intersect(target),
    decreases nodes.len() - i,
{
    if 0 <= i < nodes.len() && nodes[i].bounds.spec_intersect(target) && nodes[i].children is Some {
        assert(node_linked(nodes, i));
        lemma_collected_overlap(nodes, child(nodes, i, 0), target);
        lemma_collected_overlap(nodes, child(nodes, i, 1), target);
        lemma_collected_overlap(nodes, child(nodes, i, 2), target);
        lemma_collected_overlap(nodes, child(nodes, i, 3), target);
        assert(hits_below(nodes, i, 0, target) == subtree_hits(nodes, child(nodes, i, 0), target));
        assert(hits_below(nodes, i, 1, target) == subtree_hits(nodes, child(nodes, i, 1), target));
        assert(hits_below(nodes, i, 2, target) == subtree_hits(nodes, child(nodes, i, 2), target));
        assert(hits_below(nodes, i, 3, target) == subtree_hits(nodes, child(nodes, i, 3), target));
        assert forall|x: usize| #[trigger]
            subtree_hits(nodes, i, target).contains(x) implies i <= x < nodes.len()
            && nodes[x as int].bounds.spec_intersect(target) by {
            if x != i {
                assert(hits_below(nodes, i, 0, target).contains(x) || hits_below(
                    nodes,
                    i,
                    1,
                    target,
                ).contains(x) || hits_below(nodes, i, 2, target).contains(x) || hits_below(
                    nodes,
                    i,
                    3,
                    target,
                ).contains(x));
            }
        }
    }
}

/// A walk that collects node `p` also collects what the walk from `p` collects.
pub proof fn lemma_walk_goes_on(nodes: Seq<StaticQuadTreeNode>, i: int, p: int, target: Rect2D)
    requires
        linked(nodes),
        nodes.len() <= usize::MAX,
        0 <= p < nodes.len(),
        subtree_hits(nodes, i, target).contains(p as usize),
    ensures
        subtree_hits(nodes, p, target).subset_of(subtree_hits(nodes, i, target)),
    decreases nodes.len() - i,
{
    if p != i {
        assert(node_linked(nodes, i));
        lemma_child_walk_is_part(nodes, i, target);
        if hits_below(nodes, i, 0, target).contains(p as usize) {
            lemma_walk_goes_on(nodes, child(nodes, i, 0), p, target);
        } else if hits_below(nodes, i, 1, target).contains(p as usize) {
            lemma_walk_goes_on(nodes, child(nodes, i, 1), p, target);
        } else if hits_below(nodes, i, 2, target).contains(p as usize) {
            lemma_walk_goes_on(nodes, child(nodes, i, 2), p, target);
        } else {
            lemma_walk_goes_on(nodes, child(nodes, i, 3), p, target);
        }
    }
}

/// In a tree over a world with `min` at or below `max`, every node has such
/// bounds, and the walk from the root collects every node that overlaps the target.
pub proof fn lemma_overlapping_node_is_collected(
    nodes: Seq<StaticQuadTreeNode>,
    j: int,
    target: Rect2D,
)
    requires
        linked(nodes),
        parented(nodes),
        nodes.len() <= usize::MAX,
        0 <= j < nodes.len(),
        nodes[0].bounds.is_valid(),
    ensures
        nodes[j].bounds.is_valid(),
        nodes[j].bounds.spec_intersect(target) ==> subtree_hits(nodes, 0, target).contains(
            j as usize,
        ),
    decreases j,
{
    if j > 0 {
        assert(has_parent(nodes, j));
        let (i, k) = choose|i: int, k: int|
            0 <= i < j && 0 <= k < 4 && nodes[i].children is Some && #[trigger] child(nodes, i, k)
                == j;
        lemma_overlapping_node_is_collected(nodes, i, target);
        assert(node_linked(nodes, i));
        crate::rect2d::lemma_quadrants_tile_parent(nodes[i].bounds);
        assert(nodes[j].bounds == nodes[i].bounds.quadrant(k));
        if nodes[j].bounds.spec_intersect(target) {
            lemma_walk_goes_on(nodes, 0, i, target);
            lemma_child_walk_is_part(nodes, i, target);
            assert(subtree_hits(nodes, child(nodes, i, k), target).subset_of(
                subtree_hits(nodes, i, target),
            ));
        }
    }
}

impl StaticQuadTree {
    /// In a tree over a world with `min` at or below `max`, the nodes probed
    /// for a rectangle are all the nodes, at every depth, that overlap it.
    pub proof fn lemma_intersecting_nodes_are_the_overlapping(self, target: Rect2D)
        requires
            self.wf(),
            self@[0].bounds.is_valid(),
        ensures
            forall|i: usize|
                self.spec_intersecting_nodes(target).contains(i) <==> i < self@.len() && (
                #[trigger] self@[i as int]).bounds.spec_intersect(target),
    {
        lemma_collected_overlap(self@, 0, target);
        assert forall|i: usize|
            i < self@.len() && (#[trigger] self@[i as int]).bounds.spec_intersect(
                target,
            ) implies self.spec_intersecting_nodes(target).contains(i) by {
            lemma_overlapping_node_is_collected(self@, i as int, target);
        }
    }
}

} // verus!
