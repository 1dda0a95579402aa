//! The growable store under a table of points.
//!
//! The cells live in a `ConcurrentVec`, whose fragments never move once they
//! are allocated. A table reads its store through a shared borrow and
//! changes it only through an exclusive one, and never hands it out: under
//! a shared borrow the cells of a store do not change.

use crate::invalid::InvaPrimVal;
use orx_concurrent_vec::ConcurrentVec;
use vstd::prelude::*;

verus! {

/// The cells of one table, in the order of their identifiers.
#[verifier::external_body]
pub struct CellStore {
    inner: ConcurrentVec<InvaPrimVal>,
}

/// The cells that a store holds, in the order in which they were pushed.
pub uninterp spec fn store_cells(s: CellStore) -> Seq<InvaPrimVal>;

/// The number of cells that a store can reach by pushing alone: what
/// `ConcurrentVec::maximum_capacity` returns. Pushing and overwriting do not
/// change it.
pub uninterp spec fn store_limit(s: CellStore) -> nat;

impl CellStore {
    /// `ConcurrentVec::new`: a store without cells. It grows by fragments
    /// of 4, 8, 16, ... cells and reserves room for 29 of them on a 32-bit
    /// target, for 32 on a 64-bit one: `push` works up to 4 + 8 + ... + 2^30
    /// cells at least.
    #[verifier::external_body]
    pub(crate) fn new() -> (s: CellStore)
        ensures
            store_cells(s) == Seq::<InvaPrimVal>::empty(),
            store_limit(s) >= 0x7fff_fffc,
    {
        CellStore { inner: ConcurrentVec::new() }
    }

    /// `ConcurrentVec::len`: the number of cells pushed so far.
    #[verifier::external_body]
    pub(crate) fn len(&self) -> (n: usize)
        ensures
            n == store_cells(*self).len(),
    {
        self.inner.len()
    }

    /// `ConcurrentVec::get_copied`: a copy of the cell at `i`, or `None`
    /// where `i` is not below the length.
    #[verifier::external_body]
    pub(crate) fn get_copied(&self, i: usize) -> (r: Option<InvaPrimVal>)
        ensures
            r == (if i < store_cells(*self).len() {
                Some(store_cells(*self)[i as int])
            } else {
                None
            }),
    {
        self.inner.get_copied(i)
    }

    /// `ConcurrentVec::push`: appends `cell` and returns its position, the
    /// length before the call. It panics at the maximum capacity, which the
    /// precondition leaves out.
    #[verifier::external_body]
    pub(crate) fn push(&mut self, cell: InvaPrimVal) -> (i: usize)
        requires
            store_cells(*old(self)).len() < store_limit(*old(self)),
        ensures
            i == store_cells(*old(self)).len(),
            store_cells(*final(self)) == store_cells(*old(self)).push(cell),
            store_limit(*final(self)) == store_limit(*old(self)),
    {
        self.inner.push(cell)
    }

    /// `ConcurrentElement::set` on the element at `i`: overwrites that cell
    /// and no other. Indexing panics where `i` is not below the length,
    /// which the precondition leaves out.
    #[verifier::external_body]
    pub(crate) fn set(&mut self, i: usize, cell: InvaPrimVal)
        requires
            i < store_cells(*old(self)).len(),
        ensures
            store_cells(*final(self)) == store_cells(*old(self)).update(i as int, cell),
            store_limit(*final(self)) == store_limit(*old(self)),
    {
        self.inner[i].set(cell)
    }
}

} // verus!
