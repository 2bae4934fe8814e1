use vstd::prelude::*;

verus! {

/// A point or a displacement in the plane, in whole world units.
#[derive(Clone, Copy, Debug, PartialEq, Eq, Structural)]
pub struct Vec2 {
    pub x: i64,
    pub y: i64,
}

impl Vec2 {
    pub fn new(x: i64, y: i64) -> (v: Vec2)
        ensures
            v.x == x,
            v.y == y,
    {
        Vec2 { x, y }
    }
}

/// The coordinate halfway between two others, rounded towards the smaller one.
pub open spec fn midpoint(a: int, b: int) -> int {
    if a <= b {
        a + (b - a) / 2
    } else {
        b + (a - b) / 2
    }
}

/// An axis-aligned rectangle given by two opposite corners.
///
/// A rectangle is meant to have `min` at or below `max` on both axes
/// ([`Rect2D::is_valid`]); one of zero width or height is a legal value.
#[derive(Clone, Copy, Debug, PartialEq, Eq, Structural)]
pub struct Rect2D {
    pub min: Vec2,
    pub max: Vec2,
}

impl Rect2D {
    /// `min` is at or below `max` on both axes.
    pub open spec fn is_valid(self) -> bool {
        self.min.x <= self.max.x && self.min.y <= self.max.y
    }

    pub open spec fn width(self) -> int {
        self.max.x - self.min.x
    }

    pub open spec fn height(self) -> int {
        self.max.y - self.min.y
    }

    pub open spec fn area(self) -> int {
        self.width() * self.height()
    }

    /// The point `(x, y)` lies in the rectangle, edges included.
    pub open spec fn contains_point(self, x: int, y: int) -> bool {
        self.min.x <= x <= self.max.x && self.min.y <= y <= self.max.y
    }

    /// `inner` lies in the rectangle, shared edges allowed.
    pub open spec fn contains_rect(self, inner: Rect2D) -> bool {
        &&& self.min.x <= inner.min.x
        &&& inner.max.x <= self.max.x
        &&& self.min.y <= inner.min.y
        &&& inner.max.y <= self.max.y
    }

    /// Strict overlap: the rectangles share interior, not just an edge or a corner.
    pub open spec fn spec_intersect(self, other: Rect2D) -> bool {
        &&& self.min.x < other.max.x
        &&& self.max.x > other.min.x
        &&& self.min.y < other.max.y
        &&& self.max.y > other.min.y
    }

    /// The rectangles have a point in common, edges and corners included.
    pub open spec fn meets(self, other: Rect2D) -> bool {
        &&& self.min.x <= other.max.x
        &&& self.max.x >= other.min.x
        &&& self.min.y <= other.max.y
        &&& self.max.y >= other.min.y
    }

    /// The rectangles meet, but only where an edge of one lies on an edge of
    /// the other: along that edge, or at a corner.
    pub open spec fn touches(self, other: Rect2D) -> bool {
        &&& self.meets(other)
        &&& (self.max.x == other.min.x || other.max.x == self.min.x || self.max.y == other.min.y
            || other.max.y == self.min.y)
    }

    pub open spec fn center(self) -> Vec2 {
        Vec2 {
            x: midpoint(self.min.x as int, self.max.x as int) as i64,
            y: midpoint(self.min.y as int, self.max.y as int) as i64,
        }
    }

    /// Quadrant `k` of the split at [`Rect2D::center`]: 0 is north-west,
    /// 1 north-east, 2 south-west, 3 south-east, with north at larger `y`.
    pub open spec fn quadrant(self, k: int) -> Rect2D {
        let c = self.center();
        if k == 0 {
            Rect2D { min: Vec2 { x: self.min.x, y: c.y }, max: Vec2 { x: c.x, y: self.max.y } }
        } else if k == 1 {
            Rect2D { min: c, max: self.max }
        } else if k == 2 {
            Rect2D { min: self.min, max: c }
        } else {
            Rect2D { min: Vec2 { x: c.x, y: self.min.y }, max: Vec2 { x: self.max.x, y: c.y } }
        }
    }

    pub open spec fn spec_quadrants(self) -> Seq<Rect2D> {
        seq![self.quadrant(0), self.quadrant(1), self.quadrant(2), self.quadrant(3)]
    }

    pub fn new(min: Vec2, max: Vec2) -> (r: Rect2D)
        ensures
            r.min == min,
            r.max == max,
    {
        Rect2D { min, max }
    }

    pub fn intersect(&self, other: &Rect2D) -> (hit: bool)
        ensures
            hit == self.spec_intersect(*other),
    {
        self.min.x < other.max.x && self.max.x > other.min.x && self.min.y < other.max.y
            && self.max.y > other.min.y
    }

    /// Splits the rectangle at its center into four quadrants, in the order
    /// north-west, north-east, south-west, south-east.
    pub fn quadrants(&self) -> (quads: [Rect2D; 4])
        ensures
            quads@ == self.spec_quadrants(),
    {
        let c = Vec2::new(halfway(self.min.x, self.max.x), halfway(self.min.y, self.max.y));
        let quads = [
            Rect2D::new(Vec2::new(self.min.x, c.y), Vec2::new(c.x, self.max.y)),
            Rect2D::new(c, self.max),
            Rect2D::new(self.min, c),
            Rect2D::new(Vec2::new(c.x, self.min.y), Vec2::new(self.max.x, c.y)),
        ];
        assert(quads@ =~= self.spec_quadrants());
        quads
    }
}

/// The midpoint of two coordinates, computed without overflow.
pub fn halfway(a: i64, b: i64) -> (m: i64)
    ensures
        m == midpoint(a as int, b as int),
        a <= b ==> a <= m <= b,
        b <= a ==> b <= m <= a,
{
    if a <= b {
        let span: i128 = b as i128 - a as i128;
        (a as i128 + span / 2) as i64
    } else {
        let span: i128 = a as i128 - b as i128;
        (b as i128 + span / 2) as i64
    }
}

/// Overlap does not depend on which rectangle is asked.
pub proof fn lemma_intersect_symmetric(r1: Rect2D, r2: Rect2D)
    ensures
        r1.spec_intersect(r2) == r2.spec_intersect(r1),
{
}

/// Rectangles that share only an edge or a corner do not overlap.
pub proof fn lemma_touching_is_not_intersecting(r1: Rect2D, r2: Rect2D)
    requires
        r1.touches(r2),
    ensures
        !r1.spec_intersect(r2),
        !r2.spec_intersect(r1),
{
}

/// The four quadrants tile their parent: each lies inside it, no two of them
/// overlap, every point of the parent lies in one of them, and their areas
/// add up to the parent's. Where the parent's width and height are even,
/// each quadrant has a quarter of its area.
pub proof fn lemma_quadrants_tile_parent(r: Rect2D)
    requires
        r.is_valid(),
    ensures
        forall|k: int| 0 <= k < 4 ==> (#[trigger] r.quadrant(k)).is_valid() && r.contains_rect(r.quadrant(k)),
        forall|j: int, k: int|
            0 <= j < 4 && 0 <= k < 4 && j != k ==> !(#[trigger] r.quadrant(j)).spec_intersect(
                #[trigger] r.quadrant(k),
            ),
        forall|x: int, y: int| #[trigger]
            r.contains_point(x, y) ==> exists|k: int|
                0 <= k < 4 && (#[trigger] r.quadrant(k)).contains_point(x, y),
        r.quadrant(0).area() + r.quadrant(1).area() + r.quadrant(2).area() + r.quadrant(3).area()
            == r.area(),
        r.width() % 2 == 0 && r.height() % 2 == 0 ==> forall|k: int|
            0 <= k < 4 ==> 4 * (#[trigger] r.quadrant(k)).area() == r.area(),
{
    let c = r.center();
    let w0 = c.x - r.min.x;
    let w1 = r.max.x - c.x;
    let h0 = c.y - r.min.y;
    let h1 = r.max.y - c.y;
    assert forall|x: int, y: int| #[trigger] r.contains_point(x, y) implies exists|k: int|
        0 <= k < 4 && (#[trigger] r.quadrant(k)).contains_point(x, y) by {
        if x <= c.x {
            if y >= c.y {
                assert(r.quadrant(0).contains_point(x, y));
            } else {
                assert(r.quadrant(2).contains_point(x, y));
            }
        } else {
            if y >= c.y {
                assert(r.quadrant(1).contains_point(x, y));
            } else {
                assert(r.quadrant(3).contains_point(x, y));
            }
        }
    }
    assert((w0 + w1) * (h0 + h1) == w0 * h1 + w1 * h1 + w0 * h0 + w1 * h0) by (nonlinear_arith);
    if r.width() % 2 == 0 && r.height() % 2 == 0 {
        assert(w0 == w1 && h0 == h1);
        assert(4 * (w0 * h0) == (w0 + w0) * (h0 + h0)) by (nonlinear_arith);
    }
}

} // verus!
