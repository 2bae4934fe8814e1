use vstd::prelude::*;
use bevy::utils::HashSet;

verus! {

/// A set of node indices, held in a `bevy::utils::HashSet<usize>`.
#[verifier::external_body]
pub struct NodeSet {
    inner: HashSet<usize>,
}

/// The indices that a [`NodeSet`] holds.
pub uninterp spec fn node_set_contents(set: NodeSet) -> Set<usize>;

impl View for NodeSet {
    type V = Set<usize>;

    open spec fn view(&self) -> Set<usize> {
        node_set_contents(*self)
    }
}

impl NodeSet {
    /// `HashSet::new`: a set that holds nothing. Believed, not proved.
    #[verifier::external_body]
    pub(crate) fn empty() -> (set: NodeSet)
        ensures
            node_set_contents(set) == Set::<usize>::empty(),
    {
        NodeSet { inner: HashSet::new() }
    }

    /// `HashSet::insert`: afterwards the set holds `index` besides what it
    /// held, and the answer is whether `index` was new. Believed, not proved.
    #[verifier::external_body]
    pub(crate) fn add(&mut self, index: usize) -> (fresh: bool)
        ensures
            node_set_contents(*final(self)) == node_set_contents(*old(self)).insert(index),
            fresh == !node_set_contents(*old(self)).contains(index),
    {
        self.inner.insert(index)
    }

    /// `HashSet::contains`: whether the set holds `index`. Believed, not proved.
    #[verifier::external_body]
    pub(crate) fn holds(&self, index: usize) -> (found: bool)
        ensures
            found == node_set_contents(*self).contains(index),
    {
        self.inner.contains(&index)
    }

    /// `HashSet::iter`: every index of the set exactly once, in an order
    /// that is left open. Believed, not proved.
    #[verifier::external_body]
    pub(crate) fn members(&self) -> (items: Vec<usize>)
        ensures
            items@.no_duplicates(),
            items@.to_set() == node_set_contents(*self),
    {
        self.inner.iter().copied().collect()
    }

    /// Whether `index` is in the set.
    pub fn contains(&self, index: usize) -> (found: bool)
        ensures
            found == self@.contains(index),
    {
        self.holds(index)
    }

    /// The indices of the set, each once, in no particular order.
    pub fn to_vec(&self) -> (items: Vec<usize>)
        ensures
            items@.no_duplicates(),
            items@.to_set() == self@,
    {
        self.members()
    }

    /// How many indices the set holds.
    pub fn len(&self) -> (n: usize)
        ensures
            self@.finite(),
            n == self@.len(),
    {
        let items = self.members();
        proof {
            items@.unique_seq_to_set();
        }
        items.len()
    }
}

} // verus!
