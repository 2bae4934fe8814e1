//! Helpers for games on a fixed rectangular world, with broad-phase
//! collision detection at their core.
//!
//! The world is indexed once by a [`StaticQuadTree`]. Every tick,
//! [`check_collisions`] buckets one group of axis-aligned boxes into the
//! tree and probes the buckets with a second group, reporting each
//! overlapping pair once. Coordinates are whole numbers of world units.
//!
//! * [`rect2d`]: rectangles, the overlap test, the split into quadrants.
//! * [`aabb`]: the box of an entity, placed at a position on demand.
//! * [`static_quadtree`]: the tree, bucket lookup and the gathering of candidates.
//! * [`broad_phase`]: the pass itself, and what it reports.
//! * [`node_set`], [`bucket_map`]: the hash collections that the tree and
//!   the pass keep their indices and buckets in.
//! * [`random`]: the marker by which an application asks for a random
//!   number generator.

pub mod rect2d;
pub mod aabb;
pub mod node_set;
pub mod bucket_map;
pub mod static_quadtree;
pub mod broad_phase;
pub mod random;

pub use rect2d::{Rect2D, Vec2};
pub use aabb::AxisAlignedBoundingBox;
pub use node_set::NodeSet;
pub use bucket_map::BucketMap;
pub use static_quadtree::{StaticQuadTree, StaticQuadTreeNode, MAX_DEPTH};
pub use broad_phase::{check_collisions, Collider, OnCollision};
pub use random::RandomPlugin;
