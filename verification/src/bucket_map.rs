use vstd::prelude::*;
use bevy::utils::HashMap;
use crate::rect2d::Rect2D;

verus! {

/// The boxes filed under each node of the tree for one pass, held in a
/// `bevy::utils::HashMap` from node index to the entities bucketed there,
/// each with its rectangle, in the order in which they were filed.
#[verifier::external_body]
pub struct BucketMap {
    inner: HashMap<usize, Vec<(u64, Rect2D)>>,
}

/// What a [`BucketMap`] holds: for each node that has a bucket, its entries in order.
pub uninterp spec fn bucket_map_contents(map: BucketMap) -> Map<usize, Seq<(u64, Rect2D)>>;

impl View for BucketMap {
    type V = Map<usize, Seq<(u64, Rect2D)>>;

    open spec fn view(&self) -> Map<usize, Seq<(u64, Rect2D)>> {
        bucket_map_contents(*self)
    }
}

impl BucketMap {
    /// `HashMap::new`: a map without any bucket. Believed, not proved.
    #[verifier::external_body]
    pub(crate) fn empty() -> (map: BucketMap)
        ensures
            bucket_map_contents(map).dom() == Set::<usize>::empty(),
    {
        BucketMap { inner: HashMap::new() }
    }

    /// `HashMap::get`: the bucket of `node`, if it has one. Believed, not proved.
    #[verifier::external_body]
    pub(crate) fn bucket(&self, node: usize) -> (found: Option<&Vec<(u64, Rect2D)>>)
        ensures
            found.is_some() == bucket_map_contents(*self).dom().contains(node),
            found.is_some() ==> found.unwrap()@ == bucket_map_contents(*self)[node],
    {
        self.inner.get(&node)
    }

    /// `HashMap::get_mut`: the bucket of `node`, if it has one, to be changed
    /// in place; what the caller leaves there is the bucket afterwards, and
    /// no other bucket changes. Believed, not proved.
    #[verifier::external_body]
    pub(crate) fn bucket_mut(&mut self, node: usize) -> (found: Option<&mut Vec<(u64, Rect2D)>>)
        ensures
            found.is_some() == bucket_map_contents(*old(self)).dom().contains(node),
            found.is_some() ==> found.unwrap()@ == bucket_map_contents(*old(self))[node]
                && bucket_map_contents(*final(self)) == bucket_map_contents(*old(self)).insert(
                node,
                final(found.unwrap())@,
            ),
            found.is_none() ==> bucket_map_contents(*final(self)) == bucket_map_contents(
                *old(self),
            ),
    {
        self.inner.get_mut(&node)
    }

    /// `HashMap::insert`: afterwards `node` has the bucket `entries` and the
    /// other buckets are as before; the answer is the bucket that `node` had.
    /// Believed, not proved.
    #[verifier::external_body]
    pub(crate) fn put(&mut self, node: usize, entries: Vec<(u64, Rect2D)>) -> (before: Option<
        Vec<(u64, Rect2D)>,
    >)
        ensures
            bucket_map_contents(*final(self)) == bucket_map_contents(*old(self)).insert(
                node,
                entries@,
            ),
            before.is_some() == bucket_map_contents(*old(self)).dom().contains(node),
            before.is_some() ==> before.unwrap()@ == bucket_map_contents(*old(self))[node],
    {
        self.inner.insert(node, entries)
    }

    /// The entries filed under `node`, in the order in which they were
    /// filed, if any were.
    pub fn get(&self, node: usize) -> (found: Option<&Vec<(u64, Rect2D)>>)
        ensures
            found.is_some() == self@.dom().contains(node),
            found.is_some() ==> found.unwrap()@ == self@[node],
    {
        self.bucket(node)
    }
}

} // verus!
