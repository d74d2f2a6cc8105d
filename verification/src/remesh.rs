//! The set of chunks whose geometry has to be rebuilt.

use crate::coords::DD;
use vstd::prelude::*;

verus! {

/// Chunk coordinates marked for remeshing, kept in a hash set of
/// `bevy::utils`. Verus sees the set only through `remesh_coords`.
#[verifier::external_body]
pub struct RemeshSet {
    set: bevy::utils::HashSet<DD>,
}

/// The chunk coordinates that a remesh set holds.
pub uninterp spec fn remesh_coords(s: RemeshSet) -> Set<DD>;

impl View for RemeshSet {
    type V = Set<DD>;

    open spec fn view(&self) -> Set<DD> {
        remesh_coords(*self)
    }
}

impl RemeshSet {
    /// `HashSet::default` of hashbrown, through `bevy::utils`: a set without
    /// elements.
    #[verifier::external_body]
    fn empty() -> (s: RemeshSet)
        ensures
            remesh_coords(s) == Set::<DD>::empty(),
    {
        RemeshSet { set: bevy::utils::HashSet::default() }
    }

    /// `HashSet::insert` of hashbrown: afterwards the set holds the value
    /// beside what it held before; the result is `true` where the value was
    /// not in the set yet.
    #[verifier::external_body]
    fn add(&mut self, cc: DD) -> (fresh: bool)
        ensures
            remesh_coords(*final(self)) == remesh_coords(*old(self)).insert(cc),
            fresh == !remesh_coords(*old(self)).contains(cc),
    {
        self.set.insert(cc)
    }

    /// `HashSet::contains` of hashbrown: whether the set holds the value.
    #[verifier::external_body]
    fn holds(&self, cc: DD) -> (r: bool)
        ensures
            r == remesh_coords(*self).contains(cc),
    {
        self.set.contains(&cc)
    }

    /// `HashSet::iter` of hashbrown, collected: every element of the set
    /// once, in an order that is not determined.
    #[verifier::external_body]
    fn elements(&self) -> (r: Vec<DD>)
        ensures
            r@.to_set() == remesh_coords(*self),
            r@.no_duplicates(),
    {
        self.set.iter().copied().collect()
    }

    /// A set that marks no chunk.
    pub fn new() -> (s: RemeshSet)
        ensures
            s@ == Set::<DD>::empty(),
    {
        RemeshSet::empty()
    }

    /// Marks the chunk at `cc`; says whether it was unmarked before.
    pub fn insert(&mut self, cc: DD) -> (fresh: bool)
        ensures
            final(self)@ == old(self)@.insert(cc),
            fresh == !old(self)@.contains(cc),
    {
        self.add(cc)
    }

    /// Whether the chunk at `cc` is marked.
    pub fn contains(&self, cc: DD) -> (r: bool)
        ensures
            r == self@.contains(cc),
    {
        self.holds(cc)
    }

    /// The marked chunks, each once, in no particular order.
    pub fn to_vec(&self) -> (r: Vec<DD>)
        ensures
            r@.to_set() == self@,
            r@.no_duplicates(),
    {
        self.elements()
    }

    /// Number of marked chunks.
    pub fn len(&self) -> (n: usize)
        ensures
            self@.finite(),
            n == self@.len(),
    {
        let all = self.elements();
        proof {
            all@.unique_seq_to_set();
        }
        all.len()
    }
}

} // verus!
