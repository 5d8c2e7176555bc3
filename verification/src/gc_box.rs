use crate::model::CellModel;
use vstd::prelude::*;

verus! {

/// One managed cell: the payload together with the collector's per-cell
/// header (root count, mark bit, intrusive-list link) and the slot indices of
/// the handles embedded in the payload, recorded when the cell is built.
pub struct GcBox<T> {
    roots: usize,
    marked: bool,
    next: Option<usize>,
    refs: Vec<usize>,
    data: T,
}

impl<T> View for GcBox<T> {
    type V = CellModel<T>;

    closed spec fn view(&self) -> CellModel<T> {
        CellModel { roots: self.roots as nat, marked: self.marked, refs: self.refs@, data: self.data }
    }
}

impl<T> GcBox<T> {
    /// The intrusive-list link to the next cell's slot.
    pub closed spec fn next_spec(&self) -> Option<usize> {
        self.next
    }

    /// A cell is born with one root: the handle its allocation returns.
    pub fn new(value: T, refs: Vec<usize>, next: Option<usize>) -> (b: Self)
        ensures
            b@ == (CellModel { roots: 1nat, marked: false, refs: refs@, data: value }),
            b.next_spec() == next,
    {
        GcBox { roots: 1, marked: false, next, refs, data: value }
    }

    pub(crate) fn next(&self) -> (r: Option<usize>)
        ensures
            r == self.next_spec(),
    {
        self.next
    }

    pub(crate) fn set_next(&mut self, next: Option<usize>)
        ensures
            final(self)@ == old(self)@,
            final(self).next_spec() == next,
    {
        self.next = next;
    }

    pub fn roots(&self) -> (r: usize)
        ensures
            r == self@.roots,
    {
        self.roots
    }

    pub(crate) fn inc_roots(&mut self)
        requires
            old(self)@.roots < usize::MAX,
        ensures
            final(self)@.roots == old(self)@.roots + 1,
            final(self)@.marked == old(self)@.marked,
            final(self)@.refs == old(self)@.refs,
            final(self)@.data == old(self)@.data,
            final(self).next_spec() == old(self).next_spec(),
    {
        self.roots = self.roots + 1;
    }

    pub(crate) fn dec_roots(&mut self)
        requires
            old(self)@.roots >= 1,
        ensures
            final(self)@.roots == old(self)@.roots - 1,
            final(self)@.marked == old(self)@.marked,
            final(self)@.refs == old(self)@.refs,
            final(self)@.data == old(self)@.data,
            final(self).next_spec() == old(self).next_spec(),
    {
        self.roots = self.roots - 1;
    }

    pub(crate) fn mark(&mut self)
        ensures
            final(self)@.marked == true,
            final(self)@.roots == old(self)@.roots,
            final(self)@.refs == old(self)@.refs,
            final(self)@.data == old(self)@.data,
            final(self).next_spec() == old(self).next_spec(),
    {
        self.marked = true;
    }

    pub(crate) fn unmark(&mut self)
        ensures
            final(self)@.marked == false,
            final(self)@.roots == old(self)@.roots,
            final(self)@.refs == old(self)@.refs,
            final(self)@.data == old(self)@.data,
            final(self).next_spec() == old(self).next_spec(),
    {
        self.marked = false;
    }

    pub fn is_marked(&self) -> (b: bool)
        ensures
            b == self@.marked,
    {
        self.marked
    }

    pub(crate) fn ref_count(&self) -> (n: usize)
        ensures
            n == self@.refs.len(),
    {
        self.refs.len()
    }

    pub(crate) fn ref_at(&self, k: usize) -> (r: usize)
        requires
            k < self@.refs.len(),
        ensures
            r == self@.refs[k as int],
    {
        self.refs[k]
    }

    pub fn as_ref(&self) -> (r: &T)
        ensures
            *r == self@.data,
    {
        &self.data
    }

    pub fn as_mut(&mut self) -> (r: &mut T)
        ensures
            *r == old(self)@.data,
            final(self)@.data == *final(r),
            final(self)@.roots == old(self)@.roots,
            final(self)@.marked == old(self)@.marked,
            final(self)@.refs == old(self)@.refs,
            final(self).next_spec() == old(self).next_spec(),
    {
        &mut self.data
    }

    /// Swap the payload and its recorded handle indices for new ones, handing
    /// the old payload back; the root count and mark bit stay.
    pub(crate) fn replace_payload(&mut self, value: T, refs: Vec<usize>) -> (r: (T, Vec<usize>))
        ensures
            r.0 == old(self)@.data,
            r.1@ == old(self)@.refs,
            final(self)@.data == value,
            final(self)@.refs == refs@,
            final(self)@.roots == old(self)@.roots,
            final(self)@.marked == old(self)@.marked,
            final(self).next_spec() == old(self).next_spec(),
    {
        let mut value = value;
        let mut refs = refs;
        core::mem::swap(&mut self.data, &mut value);
        core::mem::swap(&mut self.refs, &mut refs);
        (value, refs)
    }
}

} // verus!
