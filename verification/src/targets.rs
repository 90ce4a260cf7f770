use vstd::prelude::*;

verus! {

/// The targets that one new node picks, kept in a `hashbrown::HashSet`.
/// The field is opaque to the proofs: the set's type carries an allocator
/// parameter bounded by a trait of another crate, so it cannot be declared
/// as an outside type.
#[verifier::external_body]
pub struct TargetSet {
    set: hashbrown::HashSet<usize>,
}

/// The nodes that a `TargetSet` holds.
pub uninterp spec fn target_set_items(s: TargetSet) -> Set<usize>;

impl TargetSet {
    /// Calls `HashSet::with_capacity`: an empty set.
    #[verifier::external_body]
    pub(crate) fn with_capacity(m: usize) -> (s: Self)
        ensures
            target_set_items(s) == Set::<usize>::empty(),
    {
        TargetSet { set: hashbrown::HashSet::with_capacity(m) }
    }

    /// Calls `HashSet::insert`: the node is in the set afterwards, and
    /// nothing else changed.
    #[verifier::external_body]
    pub(crate) fn insert(&mut self, x: usize)
        ensures
            target_set_items(*final(self)) == target_set_items(*old(self)).insert(x),
    {
        self.set.insert(x);
    }

    /// Calls `HashSet::len`: the number of nodes in the set.
    #[verifier::external_body]
    pub(crate) fn len(&self) -> (r: usize)
        ensures
            r == target_set_items(*self).len(),
    {
        self.set.len()
    }

    /// Walks `HashSet::iter` into a vector: every node of the set once, in
    /// the order of the walk, which the set's randomly seeded hasher decides.
    #[verifier::external_body]
    pub(crate) fn to_vec(&self) -> (v: Vec<usize>)
        ensures
            v@.no_duplicates(),
            v@.to_set() == target_set_items(*self),
    {
        self.set.iter().copied().collect()
    }
}

} // verus!
