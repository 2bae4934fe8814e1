use vstd::prelude::*;
use crate::rect2d::{Rect2D, Vec2};

verus! {

/// The shape of an entity: a box that reaches `half_extent` to each side of
/// wherever the entity currently stands.
#[derive(Clone, Copy, Debug, PartialEq, Eq, Structural)]
pub struct AxisAlignedBoundingBox {
    pub half_extent: Vec2,
}

impl AxisAlignedBoundingBox {
    /// The corners of the box around `position` are representable coordinates.
    pub open spec fn fits(self, position: Vec2) -> bool {
        &&& i64::MIN <= position.x - self.half_extent.x <= i64::MAX
        &&& i64::MIN <= position.y - self.half_extent.y <= i64::MAX
        &&& i64::MIN <= position.x + self.half_extent.x <= i64::MAX
        &&& i64::MIN <= position.y + self.half_extent.y <= i64::MAX
    }

    /// The box around `position`, as a rectangle in world coordinates.
    pub open spec fn spec_as_rect(self, position: Vec2) -> Rect2D {
        Rect2D {
            min: Vec2 {
                x: (position.x - self.half_extent.x) as i64,
                y: (position.y - self.half_extent.y) as i64,
            },
            max: Vec2 {
                x: (position.x + self.half_extent.x) as i64,
                y: (position.y + self.half_extent.y) as i64,
            },
        }
    }

    pub fn new(half_extent: Vec2) -> (bbox: AxisAlignedBoundingBox)
        ensures
            bbox.half_extent == half_extent,
    {
        AxisAlignedBoundingBox { half_extent }
    }

    /// Decides whether [`AxisAlignedBoundingBox::as_rect`] may be asked for `position`.
    pub fn can_place(&self, position: Vec2) -> (ok: bool)
        ensures
            ok == self.fits(position),
    {
        position.x.checked_sub(self.half_extent.x).is_some()
            && position.y.checked_sub(self.half_extent.y).is_some()
            && position.x.checked_add(self.half_extent.x).is_some()
            && position.y.checked_add(self.half_extent.y).is_some()
    }

    pub fn as_rect(&self, position: Vec2) -> (r: Rect2D)
        requires
            self.fits(position),
        ensures
            r == self.spec_as_rect(position),
            r.min.x == position.x - self.half_extent.x,
            r.min.y == position.y - self.half_extent.y,
            r.max.x == position.x + self.half_extent.x,
            r.max.y == position.y + self.half_extent.y,
    {
        Rect2D::new(
            Vec2::new(position.x - self.half_extent.x, position.y - self.half_extent.y),
            Vec2::new(position.x + self.half_extent.x, position.y + self.half_extent.y),
        )
    }
}

} // verus!
