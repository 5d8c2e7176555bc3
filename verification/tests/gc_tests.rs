use gc::{Gc, GcBox, GcMark, GcState};
use std::cell::Cell;
use std::mem::size_of;
use std::rc::Rc;

#[test]
fn test_simple() {
    let cell = size_of::<GcBox<char>>();
    let mut gc_state = GcState::new();

    let a = Gc::new_with_gc_state(&mut gc_state, 'a').unwrap();

    {
        let b = Gc::new_with_gc_state(&mut gc_state, 'b').unwrap();
        assert_eq!(gc_state.bytes_allocated(), 2 * cell);
        assert_eq!(*b.as_ref(&gc_state), 'b');
        b.drop_in(&mut gc_state);
    }

    gc_state.mark_and_sweep();

    assert_eq!(gc_state.bytes_allocated(), cell);
    assert_eq!(*a.as_ref(&gc_state), 'a');
    assert!(gc_state.contains(&a));
    assert!(!gc_state.is_marked(&a));
}

enum Item {
    Ch(char),
    Int(i32),
    Foo(Gc),
}

impl GcMark for Item {
    fn gc_refs(&self) -> Vec<usize> {
        match self {
            Item::Ch(_) => Vec::new(),
            Item::Int(_) => Vec::new(),
            Item::Foo(bar) => vec![bar.id()],
        }
    }
}

fn read_through(foo: &Gc, gc_state: &GcState<Item>) -> char {
    match foo.as_ref(gc_state) {
        Item::Foo(bar) => match bar.as_ref(gc_state) {
            Item::Ch(c) => *c,
            _ => panic!("expected a character cell"),
        },
        _ => panic!("expected a container cell"),
    }
}

#[test]
fn test_comple() {
    let cell = size_of::<GcBox<Item>>();
    let mut gc_state = GcState::new();

    let a = Gc::new_with_gc_state(&mut gc_state, Item::Ch('a')).unwrap();
    let gc_a = Gc::new_with_gc_state(&mut gc_state, Item::Foo(a)).unwrap();

    {
        let gc_b = gc_a.clone_in(&mut gc_state);
        assert_eq!(gc_state.bytes_allocated(), 2 * cell);
        assert_eq!(read_through(&gc_b, &gc_state), 'a');
        gc_b.drop_in(&mut gc_state);
    }

    gc_state.mark_and_sweep();

    assert_eq!(gc_state.bytes_allocated(), 2 * cell);
    assert_eq!(read_through(&gc_a, &gc_state), 'a');
}

/// Mirrors the collector's own trigger arithmetic so the test can predict
/// the accounting exactly, whatever the size of a cell is on this target.
fn expect_alloc(bytes: &mut usize, threshold: &mut usize, live_after_collect: usize, cell: usize) {
    if *bytes > *threshold {
        *bytes = live_after_collect * cell;
        let b10 = (*bytes as u128) * 10;
        let t7 = (*threshold as u128) * 7;
        if b10 > t7 {
            let nt = b10 / 7;
            *threshold = if nt > usize::MAX as u128 {
                usize::MAX
            } else {
                nt as usize
            };
        }
    }
    *bytes += cell;
}

#[test]
fn test_thrashing() {
    let cell = size_of::<GcBox<Item>>();
    let mut gc_state = GcState::new();
    let mut count: i32 = 0;
    let mut sim_bytes = 0usize;
    let mut sim_threshold = 128usize;

    for i in 0..32 {
        expect_alloc(&mut sim_bytes, &mut sim_threshold, 0, cell);
        let bar = Gc::new_with_gc_state(&mut gc_state, Item::Int(i)).unwrap();

        for _ in 0..32 {
            let bar_again = bar.clone_in(&mut gc_state);
            expect_alloc(&mut sim_bytes, &mut sim_threshold, 1, cell);
            let foo = Gc::new_with_gc_state(&mut gc_state, Item::Foo(bar_again)).unwrap();

            for _ in 0..32 {
                count += match foo.as_ref(&gc_state) {
                    Item::Foo(inner) => match inner.as_ref(&gc_state) {
                        Item::Int(v) => *v,
                        _ => panic!("expected an integer cell"),
                    },
                    _ => panic!("expected a container cell"),
                };
            }
            foo.drop_in(&mut gc_state);
        }
        bar.drop_in(&mut gc_state);
    }

    assert_eq!(gc_state.bytes_allocated(), sim_bytes);
    gc_state.mark_and_sweep();
    assert_eq!(gc_state.bytes_allocated(), 0);

    assert_eq!(count, 507904);
}

#[test]
fn test_immediate_unroot() {
    let mut gc_state = GcState::new();

    let bar = Gc::new_with_gc_state(&mut gc_state, Item::Int(7)).unwrap();
    assert_eq!(gc_state.roots_of(&bar), 1);

    let bar_again = bar.clone_in(&mut gc_state);
    assert_eq!(gc_state.roots_of(&bar), 2);

    // Moving the clone into a managed payload unroots it: the root count
    // drops back by one per embedded occurrence.
    let foo = Gc::new_with_gc_state(&mut gc_state, Item::Foo(bar_again)).unwrap();
    assert_eq!(gc_state.roots_of(&bar), 1);
    assert_eq!(gc_state.roots_of(&foo), 1);

    foo.drop_in(&mut gc_state);
    bar.drop_in(&mut gc_state);
}

enum Node {
    Empty,
    Next(Gc),
}

impl GcMark for Node {
    fn gc_refs(&self) -> Vec<usize> {
        match self {
            Node::Empty => Vec::new(),
            Node::Next(next) => vec![next.id()],
        }
    }
}

#[test]
fn test_unreachable_cycle() {
    let cell = size_of::<GcBox<Node>>();
    let mut gc_state = GcState::new();

    let a = Gc::new_with_gc_state(&mut gc_state, Node::Empty).unwrap();
    let a_again = a.clone_in(&mut gc_state);
    let b = Gc::new_with_gc_state(&mut gc_state, Node::Next(a_again)).unwrap();

    // Close the cycle: store a handle to the younger cell inside the older.
    let b_again = b.clone_in(&mut gc_state);
    let b_id = b_again.id();
    let old = gc_state.replace(&a, Node::Next(b_again), vec![b_id]);
    assert!(matches!(old, Node::Empty));

    assert_eq!(gc_state.bytes_allocated(), 2 * cell);
    assert_eq!(gc_state.roots_of(&a), 1);
    assert_eq!(gc_state.roots_of(&b), 1);

    a.drop_in(&mut gc_state);
    b.drop_in(&mut gc_state);

    // No external root remains; one collection reclaims both cells even
    // though each is still named by the other.
    gc_state.mark_and_sweep();
    assert_eq!(gc_state.bytes_allocated(), 0);
}

#[test]
fn test_threshold_bounds_memory() {
    let cell = size_of::<GcBox<u64>>();
    let mut gc_state = GcState::new();

    for i in 0..100u64 {
        let h = Gc::new_with_gc_state(&mut gc_state, i).unwrap();
        h.drop_in(&mut gc_state);
        assert!(gc_state.bytes_allocated() <= gc_state.threshold() + cell);
    }

    // Collection is idempotent: a second sweep with no allocation in
    // between changes the accounting no further.
    gc_state.mark_and_sweep();
    let after_first = gc_state.bytes_allocated();
    gc_state.mark_and_sweep();
    assert_eq!(gc_state.bytes_allocated(), after_first);
    assert_eq!(after_first, 0);
}

#[test]
fn test_threshold_raised_by_used_space_rule() {
    let cell = size_of::<GcBox<u64>>();
    let mut gc_state = GcState::new();
    let mut handles = Vec::new();
    let mut sim_bytes = 0usize;
    let mut sim_threshold = 128usize;

    // Keep every handle rooted, so each triggered collection frees nothing
    // and must raise the threshold to bytes * 10 / 7.
    for i in 0..64u64 {
        expect_alloc(&mut sim_bytes, &mut sim_threshold, handles.len(), cell);
        handles.push(Gc::new_with_gc_state(&mut gc_state, i).unwrap());
        assert_eq!(gc_state.bytes_allocated(), sim_bytes);
        assert_eq!(gc_state.threshold(), sim_threshold);
    }
    assert!(gc_state.threshold() > 128);

    for h in handles {
        h.drop_in(&mut gc_state);
    }
    gc_state.mark_and_sweep();
    assert_eq!(gc_state.bytes_allocated(), 0);
}

enum Report {
    Leaf,
    Twice(Gc),
}

impl GcMark for Report {
    fn gc_refs(&self) -> Vec<usize> {
        match self {
            Report::Leaf => Vec::new(),
            // A broken trace impl: one embedded handle reported twice.
            Report::Twice(h) => vec![h.id(), h.id()],
        }
    }
}

#[test]
fn test_inconsistent_refs_rejected() {
    let mut gc_state = GcState::new();

    // Two occurrences reported, but the cell has only one root: the
    // allocation is refused rather than underflowing the root count.
    let leaf = Gc::new_with_gc_state(&mut gc_state, Report::Leaf).unwrap();
    let before = gc_state.bytes_allocated();
    assert!(Gc::new_with_gc_state(&mut gc_state, Report::Twice(leaf)).is_none());
    assert_eq!(gc_state.bytes_allocated(), before);
}

#[test]
fn test_foreign_handle_rejected() {
    let mut first = GcState::new();
    let h0 = Gc::new_with_gc_state(&mut first, Item::Int(1)).unwrap();
    let h1 = Gc::new_with_gc_state(&mut first, Item::Int(2)).unwrap();
    assert_eq!(h0.id(), 0);
    assert_eq!(h1.id(), 1);

    // A handle of another collector names a slot this collector never
    // allocated; storing it is refused.
    let mut second = GcState::new();
    assert!(Gc::new_with_gc_state(&mut second, Item::Foo(h1)).is_none());
    assert_eq!(second.bytes_allocated(), 0);

    h0.drop_in(&mut first);
}

struct Counted {
    tick: Rc<Cell<usize>>,
}

impl Drop for Counted {
    fn drop(&mut self) {
        self.tick.set(self.tick.get() + 1);
    }
}

impl GcMark for Counted {}

#[test]
fn test_destructor_runs_once_per_cell() {
    let tick = Rc::new(Cell::new(0usize));
    let mut gc_state = GcState::new();

    for _ in 0..5 {
        let h = Gc::new_with_gc_state(&mut gc_state, Counted { tick: tick.clone() }).unwrap();
        h.drop_in(&mut gc_state);
    }
    gc_state.mark_and_sweep();
    assert_eq!(tick.get(), 5);

    // A cell still live when the collector is dropped is destroyed by the
    // collector's own destruction, exactly once.
    let _kept = Gc::new_with_gc_state(&mut gc_state, Counted { tick: tick.clone() }).unwrap();
    drop(gc_state);
    assert_eq!(tick.get(), 6);
}

#[test]
fn test_gc_box_accessors() {
    let mut b = GcBox::new('z', Vec::new(), None);
    assert_eq!(b.roots(), 1);
    assert!(!b.is_marked());
    assert_eq!(*b.as_ref(), 'z');
    *b.as_mut() = 'y';
    assert_eq!(*b.as_ref(), 'y');
}
