pub mod gc;
pub mod gc_box;
pub mod gc_mark;
pub mod gc_state;
pub mod laws;
pub mod model;

pub use gc::Gc;
pub use gc_box::GcBox;
pub use gc_mark::GcMark;
pub use gc_state::GcState;
