use crate::gc_mark::GcMark;
use crate::gc_state::GcState;
use crate::model::cell_size;
use vstd::prelude::*;

verus! {

/// A handle to a managed cell: the user-facing smart pointer. It names the
/// cell's slot in its collector; whether it currently counts as a root is
/// tracked in the cell's root count, not in the handle.
pub struct Gc {
    id: usize,
}

impl View for Gc {
    type V = usize;

    closed spec fn view(&self) -> usize {
        self.id
    }
}

impl Gc {
    pub(crate) fn from_gc_box(id: usize) -> (h: Gc)
        ensures
            h@ == id,
    {
        Gc { id }
    }

    /// The slot index of the cell this handle refers to.
    pub fn id(&self) -> (r: usize)
        ensures
            r == self@,
    {
        self.id
    }

    /// Allocate `value` in the given collector and hand back the root handle
    /// of its fresh cell. The payload's own `gc_refs` report names the cells
    /// whose handles it embeds; when that report is inconsistent with the
    /// collector (a handle of another collector, or more occurrences than the
    /// cell has roots: the caller broke the root-counting discipline) nothing
    /// is allocated and `None` comes back. For whatever report came back, a
    /// consistent one leads to exactly the allocation that
    /// `GcState::allocate_with_refs` promises for it.
    pub fn new_with_gc_state<T: GcMark>(gc_state: &mut GcState<T>, value: T) -> (r: Option<Gc>)
        requires
            old(gc_state).inv(),
            old(gc_state)@.bytes + cell_size::<T>() <= usize::MAX,
        ensures
            final(gc_state).inv(),
            match r {
                Some(h) => exists|refs: Seq<usize>|
                    old(gc_state)@.refs_ok(refs) && final(gc_state)@ == old(
                        gc_state,
                    )@.after_trigger().alloc_model(value, refs) && h@ == old(
                        gc_state,
                    )@.slots.len(),
                None => final(gc_state)@ == old(gc_state)@,
            },
    {
        let refs = value.gc_refs();
        let ghost r0 = refs@;
        if gc_state.refs_valid(&refs) {
            let h = gc_state.allocate_with_refs(value, refs);
            proof {
                assert(old(gc_state)@.refs_ok(r0) && gc_state@ == old(
                    gc_state,
                )@.after_trigger().alloc_model(value, r0));
            }
            Some(h)
        } else {
            None
        }
    }

    /// Shared read-only access to the payload. A handle must not be used
    /// after its cell has been swept; the root-counting discipline prevents
    /// a live root handle's cell from being collected.
    pub fn as_ref<'a, T>(&self, gc_state: &'a GcState<T>) -> (r: &'a T)
        requires
            gc_state@.live(self@),
        ensures
            *r == gc_state@.cell(self@).data,
    {
        gc_state.payload(self.id())
    }

    /// Clone the handle: the copy is a fresh root, so the cell's root count
    /// rises by one.
    pub fn clone_in<T>(&self, gc_state: &mut GcState<T>) -> (h: Gc)
        requires
            old(gc_state).inv(),
            old(gc_state)@.live(self@),
            old(gc_state)@.cell(self@).roots < usize::MAX,
        ensures
            final(gc_state).inv(),
            h@ == self@,
            final(gc_state)@ == old(gc_state)@.set_roots(
                self@,
                (old(gc_state)@.cell(self@).roots + 1) as nat,
            ),
    {
        let id = self.id();
        gc_state.inc_root(id);
        Gc { id }
    }

    /// Give the handle up: it stops being a root, so the cell's root count
    /// falls by one. The count of a cell with a live root handle is at least
    /// one, so the subtraction cannot underflow.
    pub fn drop_in<T>(self, gc_state: &mut GcState<T>)
        requires
            old(gc_state).inv(),
            old(gc_state)@.live(self@),
            old(gc_state)@.cell(self@).roots >= 1,
        ensures
            final(gc_state).inv(),
            final(gc_state)@ == old(gc_state)@.set_roots(
                self@,
                (old(gc_state)@.cell(self@).roots - 1) as nat,
            ),
    {
        let id = self.id();
        gc_state.dec_root(id);
    }
}

} // verus!
