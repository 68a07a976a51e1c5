//! Sets of vertex indexes, kept in a `hashbrown` set.

use vstd::prelude::*;

verus! {

/// A set of vertex indexes.
#[verifier::external_body]
pub struct VertexSet {
    inner: hashbrown::HashSet<usize>,
}

/// The vertices that a set holds.
pub uninterp spec fn members(s: VertexSet) -> Set<usize>;

/// The set as one flag for each of the first `n` vertices.
pub open spec fn flags(s: VertexSet, n: nat) -> Seq<bool> {
    Seq::new(n, |v: int| members(s).contains(v as usize))
}

impl VertexSet {
    /// Relies on `hashbrown::HashSet::new`: a set that holds nothing.
    #[verifier::external_body]
    pub(crate) fn new() -> (r: VertexSet)
        ensures
            members(r) == Set::<usize>::empty(),
    {
        VertexSet { inner: hashbrown::HashSet::new() }
    }

    /// Relies on `hashbrown::HashSet::insert`: afterwards the set also holds `v`.
    #[verifier::external_body]
    pub(crate) fn insert(&mut self, v: usize)
        ensures
            members(*final(self)) == members(*old(self)).insert(v),
    {
        self.inner.insert(v);
    }

    /// Relies on `hashbrown::HashSet::contains`: whether the set holds `v`.
    #[verifier::external_body]
    pub(crate) fn contains(&self, v: usize) -> (r: bool)
        ensures
            r == members(*self).contains(v),
    {
        self.inner.contains(&v)
    }
}

} // verus!
