use vstd::prelude::*;
use smallvec::SmallVec;

verus! {

/// The ids of the cells adjacent to one cell, stored inline for the
/// usual case of at most fourteen entries.
#[verifier::external_body]
pub struct CellList {
    ids: SmallVec<[usize; 14]>,
}

/// The cell ids held by an adjacency list, in insertion order.
pub uninterp spec fn cell_ids(v: CellList) -> Seq<usize>;

impl CellList {
    /// Relies on `SmallVec::new`: a new vector is empty.
    #[verifier::external_body]
    pub(crate) fn new() -> (r: CellList)
        ensures
            cell_ids(r) == Seq::<usize>::empty(),
    {
        CellList { ids: SmallVec::new() }
    }

    /// Relies on `SmallVec::push`: appends one item at the end; it panics
    /// only when the length overflows.
    #[verifier::external_body]
    pub(crate) fn push(&mut self, id: usize)
        requires
            cell_ids(*old(self)).len() < 1024,
        ensures
            cell_ids(*final(self)) == cell_ids(*old(self)).push(id),
    {
        self.ids.push(id)
    }

    /// Relies on `SmallVec::len`: the number of items held.
    #[verifier::external_body]
    pub(crate) fn len(&self) -> (r: usize)
        ensures
            r == cell_ids(*self).len(),
    {
        self.ids.len()
    }

    /// Relies on indexing a `SmallVec` (through its slice): the item at `k`.
    #[verifier::external_body]
    pub(crate) fn get(&self, k: usize) -> (r: usize)
        requires
            k < cell_ids(*self).len(),
        ensures
            r == cell_ids(*self)[k as int],
    {
        self.ids[k]
    }
}

} // verus!
