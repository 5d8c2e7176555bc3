use crate::gc::Gc;
use vstd::prelude::*;

verus! {

/// Tracing protocol: every type that can become a payload reports the slot
/// indices of the handles it directly owns. The collector records them when
/// the payload enters a cell; they are the edges the mark phase follows and
/// the handles the immediate-unroot rule adjusts. Leaf types own no handles,
/// which the default supplies; composite types forward to their fields.
pub trait GcMark {
    fn gc_refs(&self) -> Vec<usize> {
        Vec::new()
    }
}

impl GcMark for u8 {

}

impl GcMark for u16 {

}

impl GcMark for u32 {

}

impl GcMark for u64 {

}

impl GcMark for usize {

}

impl GcMark for i8 {

}

impl GcMark for i16 {

}

impl GcMark for i32 {

}

impl GcMark for i64 {

}

impl GcMark for isize {

}

impl GcMark for bool {

}

impl GcMark for char {

}

impl GcMark for String {

}

impl<'a> GcMark for &'a str {

}

impl<T: GcMark> GcMark for Box<T> {
    fn gc_refs(&self) -> Vec<usize> {
        (**self).gc_refs()
    }
}

impl<T: GcMark> GcMark for Option<T> {
    fn gc_refs(&self) -> Vec<usize> {
        match self {
            Some(value) => value.gc_refs(),
            None => Vec::new(),
        }
    }
}

/// A handle owns exactly one edge: the cell it points at.
impl GcMark for Gc {
    fn gc_refs(&self) -> Vec<usize> {
        let mut v: Vec<usize> = Vec::new();
        v.push(self.id());
        v
    }
}

} // verus!
