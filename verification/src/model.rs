use crate::gc_box::GcBox;
use vstd::prelude::*;

verus! {

/// Threshold at which a fresh collector first considers running a collection.
pub const INITIAL_THRESHOLD: usize = 128;

/// After a triggered collection the threshold is raised so that the surviving
/// bytes stay below `USED_SPACE_RATIO_NUM / USED_SPACE_RATIO_DEN` (that is,
/// 7/10) of the threshold.
pub const USED_SPACE_RATIO_NUM: usize = 7;

pub const USED_SPACE_RATIO_DEN: usize = 10;

/// Abstract view of one managed cell: its root count, mark bit, the slot
/// indices of the handles embedded in its payload, and the payload itself.
/// The intrusive-list link is not part of the abstraction; the collector's
/// model carries the whole list order instead.
#[verifier::ext_equal]
pub struct CellModel<T> {
    pub roots: nat,
    pub marked: bool,
    pub refs: Seq<usize>,
    pub data: T,
}

/// Abstract view of a collector: the slot arena (`None` marks a slot whose
/// cell has been swept), the intrusive list order (head first, so in reverse
/// allocation order), the allocation accounting, and the collection threshold.
#[verifier::ext_equal]
pub struct StateModel<T> {
    pub slots: Seq<Option<CellModel<T>>>,
    pub order: Seq<usize>,
    pub bytes: nat,
    pub threshold: nat,
}

/// Bytes that one cell contributes to the collector's accounting.
pub open spec fn cell_size<T>() -> nat {
    vstd::layout::size_of::<GcBox<T>>()
}

/// How many times `x` occurs in `s`; allocation decrements a root count once
/// per occurrence of its handle in the new payload.
pub open spec fn occurrences(s: Seq<usize>, x: usize) -> nat
    decreases s.len(),
{
    if s.len() == 0 {
        0
    } else {
        occurrences(s.drop_last(), x) + if s.last() == x {
            1nat
        } else {
            0nat
        }
    }
}

/// No index of `s` repeats.
pub open spec fn distinct(s: Seq<usize>) -> bool {
    forall|k1: int, k2: int| 0 <= k1 < k2 < s.len() ==> s[k1] != s[k2]
}

/// The members of a filtered sequence are exactly the members that satisfy
/// the predicate.
pub proof fn lemma_filter_members(o: Seq<usize>, pred: spec_fn(usize) -> bool)
    ensures
        forall|x: usize| #[trigger] o.filter(pred).contains(x) ==> o.contains(x) && pred(x),
        forall|x: usize| o.contains(x) && pred(x) ==> #[trigger] o.filter(pred).contains(x),
    decreases o.len(),
{
    reveal(Seq::filter);
    broadcast use vstd::seq_lib::group_seq_properties;

    if o.len() == 0 {
    } else {
        let dl = o.drop_last();
        let f = dl.filter(pred);
        lemma_filter_members(dl, pred);
        assert forall|x: usize| #[trigger] o.filter(pred).contains(x) implies o.contains(x)
            && pred(x) by {
            if pred(o.last()) {
                assert(o.filter(pred) == f.push(o.last()));
                if x == o.last() {
                    assert(o[o.len() - 1] == x);
                } else {
                    let j = choose|j: int|
                        0 <= j < f.push(o.last()).len() && f.push(o.last())[j] == x;
                    assert(f[j] == x);
                    assert(f.contains(x));
                    let j2 = choose|j2: int| 0 <= j2 < dl.len() && dl[j2] == x;
                    assert(o[j2] == x);
                }
            } else {
                assert(o.filter(pred) == f);
                assert(f.contains(x));
                let j2 = choose|j2: int| 0 <= j2 < dl.len() && dl[j2] == x;
                assert(o[j2] == x);
            }
        }
        assert forall|x: usize| o.contains(x) && pred(x) implies #[trigger] o.filter(
            pred,
        ).contains(x) by {
            let j = choose|j: int| 0 <= j < o.len() && o[j] == x;
            if pred(o.last()) {
                assert(o.filter(pred) == f.push(o.last()));
                if x == o.last() {
                    assert(o.filter(pred)[f.len() as int] == x);
                } else {
                    assert(dl[j] == x);
                    assert(dl.contains(x));
                    assert(f.contains(x));
                    let j2 = choose|j2: int| 0 <= j2 < f.len() && f[j2] == x;
                    assert(o.filter(pred)[j2] == x);
                }
            } else {
                assert(o.filter(pred) == f);
                if x == o.last() {
                    assert(!pred(x));
                } else {
                    assert(dl[j] == x);
                    assert(dl.contains(x));
                }
            }
        }
    }
}

/// Filtering keeps a duplicate-free sequence duplicate-free.
pub proof fn lemma_filter_distinct(o: Seq<usize>, pred: spec_fn(usize) -> bool)
    requires
        distinct(o),
    ensures
        distinct(o.filter(pred)),
    decreases o.len(),
{
    reveal(Seq::filter);
    broadcast use vstd::seq_lib::group_seq_properties;

    if o.len() == 0 {
    } else {
        let dl = o.drop_last();
        let f = dl.filter(pred);
        assert(distinct(dl));
        lemma_filter_distinct(dl, pred);
        lemma_filter_members(dl, pred);
        if pred(o.last()) {
            assert(o.filter(pred) == f.push(o.last()));
            assert(!dl.contains(o.last())) by {
                if dl.contains(o.last()) {
                    let j = choose|j: int| 0 <= j < dl.len() && dl[j] == o.last();
                    assert(o[j] == o[o.len() - 1]);
                }
            }
            assert(!f.contains(o.last()));
            assert forall|k1: int, k2: int|
                0 <= k1 < k2 < o.filter(pred).len() implies o.filter(pred)[k1] != o.filter(
                pred,
            )[k2] by {
                if k2 == f.len() {
                    assert(o.filter(pred)[k2] == o.last());
                    assert(o.filter(pred)[k1] == f[k1]);
                    assert(f.contains(f[k1]));
                } else {
                    assert(o.filter(pred)[k1] == f[k1] && o.filter(pred)[k2] == f[k2]);
                }
            }
        } else {
            assert(o.filter(pred) == f);
        }
    }
}

/// Filtering by predicates that agree everywhere gives the same sequence.
pub proof fn lemma_filter_congruence(
    o: Seq<usize>,
    p1: spec_fn(usize) -> bool,
    p2: spec_fn(usize) -> bool,
)
    requires
        forall|x: usize| #[trigger] p1(x) == p2(x),
    ensures
        o.filter(p1) == o.filter(p2),
    decreases o.len(),
{
    reveal(Seq::filter);
    if o.len() == 0 {
    } else {
        lemma_filter_congruence(o.drop_last(), p1, p2);
        assert(p1(o.last()) == p2(o.last()));
    }
}

/// Filtering by a predicate that holds of every element changes nothing.
pub proof fn lemma_filter_identity(o: Seq<usize>, pred: spec_fn(usize) -> bool)
    requires
        forall|j: int| 0 <= j < o.len() ==> pred(#[trigger] o[j]),
    ensures
        o.filter(pred) == o,
    decreases o.len(),
{
    reveal(Seq::filter);
    if o.len() == 0 {
    } else {
        let dl = o.drop_last();
        lemma_filter_identity(dl, pred);
        assert(pred(o[o.len() - 1]));
        assert(o.filter(pred) == dl.push(o.last()));
        assert(dl.push(o.last()) =~= o);
    }
}

/// A sequence contains an element exactly when it occurs at least once.
pub proof fn lemma_occurrences_contains(o: Seq<usize>, x: usize)
    requires
        o.contains(x),
    ensures
        occurrences(o, x) >= 1,
    decreases o.len(),
{
    if o.len() == 0 {
    } else {
        if o.last() == x {
        } else {
            let j = choose|j: int| 0 <= j < o.len() && o[j] == x;
            assert(o.drop_last()[j] == x);
            assert(o.drop_last().contains(x));
            lemma_occurrences_contains(o.drop_last(), x);
        }
    }
}

/// One more element at the end adds its one occurrence.
pub proof fn lemma_occurrences_push(s: Seq<usize>, e: usize, x: usize)
    ensures
        occurrences(s.push(e), x) == occurrences(s, x) + (if e == x {
            1nat
        } else {
            0nat
        }),
{
    assert(s.push(e).drop_last() =~= s);
    assert(s.push(e).last() == e);
}

/// Occurrences distribute over concatenation.
pub proof fn lemma_occurrences_add(a: Seq<usize>, b: Seq<usize>, x: usize)
    ensures
        occurrences(a + b, x) == occurrences(a, x) + occurrences(b, x),
    decreases b.len(),
{
    if b.len() == 0 {
        assert(a + b =~= a);
    } else {
        assert((a + b).drop_last() =~= a + b.drop_last());
        assert((a + b).last() == b.last());
        lemma_occurrences_add(a, b.drop_last(), x);
    }
}

/// A prefix has at most as many occurrences as the whole sequence.
pub proof fn lemma_occurrences_take_le(s: Seq<usize>, j: int, x: usize)
    requires
        0 <= j <= s.len(),
    ensures
        occurrences(s.take(j), x) <= occurrences(s, x),
{
    assert(s =~= s.take(j) + s.skip(j));
    lemma_occurrences_add(s.take(j), s.skip(j), x);
}

/// An element that occurs is contained.
pub proof fn lemma_contains_occurrences(o: Seq<usize>, x: usize)
    requires
        occurrences(o, x) >= 1,
    ensures
        o.contains(x),
    decreases o.len(),
{
    if o.len() == 0 {
    } else {
        if o.last() == x {
            assert(o[o.len() - 1] == x);
        } else {
            lemma_contains_occurrences(o.drop_last(), x);
            let j = choose|j: int| 0 <= j < o.drop_last().len() && o.drop_last()[j] == x;
            assert(o[j] == x);
        }
    }
}

/// The integer form of the `0.7` used-space rule: the threshold is raised to
/// `bytes / 0.7` (clamped to `usize`) whenever the surviving bytes exceed
/// `0.7 * threshold`.
pub open spec fn threshold_after(bytes: nat, threshold: nat) -> nat {
    if bytes * (USED_SPACE_RATIO_DEN as nat) > threshold * (USED_SPACE_RATIO_NUM as nat) {
        let t = bytes * (USED_SPACE_RATIO_DEN as nat) / (USED_SPACE_RATIO_NUM as nat);
        if t > usize::MAX as nat {
            usize::MAX as nat
        } else {
            t
        }
    } else {
        threshold
    }
}

impl<T> StateModel<T> {
    /// A freshly created collector: no cells, nothing allocated.
    pub open spec fn empty() -> StateModel<T> {
        StateModel {
            slots: Seq::empty(),
            order: Seq::empty(),
            bytes: 0,
            threshold: INITIAL_THRESHOLD as nat,
        }
    }

    /// Slot `i` holds a cell that has not been swept.
    pub open spec fn live(self, i: usize) -> bool {
        i < self.slots.len() && self.slots[i as int].is_some()
    }

    pub open spec fn cell(self, i: usize) -> CellModel<T>
        recommends
            self.live(i),
    {
        self.slots[i as int].unwrap()
    }

    /// A cell with a positive root count is a starting point of the mark phase.
    pub open spec fn rooted(self, i: usize) -> bool {
        self.live(i) && self.cell(i).roots > 0
    }

    /// Cell `i` can be reached from some rooted cell in at most `n` edge steps.
    pub open spec fn reach_n(self, i: usize, n: nat) -> bool
        decreases n,
    {
        if n == 0 {
            self.rooted(i)
        } else {
            self.reach_n(i, (n - 1) as nat) || exists |j: usize|
                self.reach_n(j, (n - 1) as nat) && self.live(j) && self.cell(j).refs.contains(i)
        }
    }

    /// Cell `i` is reachable from some rooted cell; such cells survive a
    /// collection, all others are swept.
    pub open spec fn reachable(self, i: usize) -> bool {
        exists |n: nat| self.reach_n(i, n)
    }

    /// Well-formedness: the list order names each live slot exactly once, the
    /// reference graph stays inside the live slots, and the byte accounting
    /// matches the number of live cells.
    pub open spec fn wf(self) -> bool {
        &&& forall|k: int| 0 <= k < self.order.len() ==> self.live(#[trigger] self.order[k])
        &&& forall|k1: int, k2: int|
            0 <= k1 < k2 < self.order.len() ==> self.order[k1] != self.order[k2]
        &&& forall|i: usize| #[trigger] self.live(i) ==> self.order.contains(i)
        &&& forall|i: usize, k: int|
            self.live(i) && 0 <= k < self.cell(i).refs.len() ==> self.live(
                #[trigger] self.cell(i).refs[k],
            )
        &&& self.bytes == self.order.len() * cell_size::<T>()
    }

    /// Between collections no cell carries a mark: the mark bit is false at
    /// the start and at the end of every collection.
    pub open spec fn no_marks(self) -> bool {
        forall|i: usize| #[trigger] self.live(i) ==> !self.cell(i).marked
    }

    /// The payload about to be stored may only embed handles to live cells,
    /// each of whose root counts covers the embedded occurrences.
    pub open spec fn refs_ok(self, refs: Seq<usize>) -> bool {
        forall|k: int|
            0 <= k < refs.len() ==> self.live(#[trigger] refs[k]) && occurrences(refs, refs[k])
                <= self.cell(refs[k]).roots
    }

    /// The state after a whole collection: unreachable cells are gone, the
    /// survivors keep their payload and root count with the mark bit cleared,
    /// and the accounting counts the survivors.
    pub open spec fn collect_model(self) -> StateModel<T> {
        let keep = |id: usize| self.reachable(id);
        StateModel {
            slots: Seq::new(
                self.slots.len(),
                |i: int|
                    if self.live(i as usize) && self.reachable(i as usize) {
                        Some(
                            CellModel {
                                roots: self.cell(i as usize).roots,
                                marked: false,
                                refs: self.cell(i as usize).refs,
                                data: self.cell(i as usize).data,
                            },
                        )
                    } else {
                        None
                    },
            ),
            order: self.order.filter(keep),
            bytes: self.order.filter(keep).len() * cell_size::<T>(),
            threshold: self.threshold,
        }
    }

    /// The state after the mark phase alone: every live cell's mark bit says
    /// whether the cell is reachable; nothing else changes.
    pub open spec fn marked_model(self) -> StateModel<T> {
        StateModel {
            slots: Seq::new(
                self.slots.len(),
                |i: int|
                    if self.live(i as usize) {
                        Some(
                            CellModel {
                                roots: self.cell(i as usize).roots,
                                marked: self.reachable(i as usize),
                                refs: self.cell(i as usize).refs,
                                data: self.cell(i as usize).data,
                            },
                        )
                    } else {
                        None
                    },
            ),
            order: self.order,
            bytes: self.bytes,
            threshold: self.threshold,
        }
    }

    pub open spec fn marked_live(self, i: usize) -> bool {
        self.live(i) && self.cell(i).marked
    }

    /// The state after the sweep phase alone: unmarked cells are removed and
    /// the survivors' mark bits are cleared.
    pub open spec fn sweep_model(self) -> StateModel<T> {
        let keep = |id: usize| self.marked_live(id);
        StateModel {
            slots: Seq::new(
                self.slots.len(),
                |i: int|
                    if self.marked_live(i as usize) {
                        Some(
                            CellModel {
                                roots: self.cell(i as usize).roots,
                                marked: false,
                                refs: self.cell(i as usize).refs,
                                data: self.cell(i as usize).data,
                            },
                        )
                    } else {
                        None
                    },
            ),
            order: self.order.filter(keep),
            bytes: self.order.filter(keep).len() * cell_size::<T>(),
            threshold: self.threshold,
        }
    }

    /// One cell's root count replaced; everything else unchanged.
    pub open spec fn set_roots(self, i: usize, n: nat) -> StateModel<T>
        recommends
            self.live(i),
    {
        StateModel {
            slots: self.slots.update(
                i as int,
                Some(
                    CellModel {
                        roots: n,
                        marked: self.cell(i).marked,
                        refs: self.cell(i).refs,
                        data: self.cell(i).data,
                    },
                ),
            ),
            order: self.order,
            bytes: self.bytes,
            threshold: self.threshold,
        }
    }

    /// Every live cell's root count lowered by the number of times its index
    /// occurs in `refs`: the immediate-unroot step of an allocation.
    pub open spec fn dec_refs(self, refs: Seq<usize>) -> StateModel<T> {
        StateModel {
            slots: Seq::new(
                self.slots.len(),
                |i: int|
                    if self.live(i as usize) {
                        Some(
                            CellModel {
                                roots: (self.cell(i as usize).roots - occurrences(
                                    refs,
                                    i as usize,
                                )) as nat,
                                marked: self.cell(i as usize).marked,
                                refs: self.cell(i as usize).refs,
                                data: self.cell(i as usize).data,
                            },
                        )
                    } else {
                        None
                    },
            ),
            order: self.order,
            bytes: self.bytes,
            threshold: self.threshold,
        }
    }

    /// Every live cell's root count raised by the number of times its index
    /// occurs in `refs`: the re-rooting step when a payload leaves a cell.
    pub open spec fn inc_refs(self, refs: Seq<usize>) -> StateModel<T> {
        StateModel {
            slots: Seq::new(
                self.slots.len(),
                |i: int|
                    if self.live(i as usize) {
                        Some(
                            CellModel {
                                roots: (self.cell(i as usize).roots + occurrences(
                                    refs,
                                    i as usize,
                                )) as nat,
                                marked: self.cell(i as usize).marked,
                                refs: self.cell(i as usize).refs,
                                data: self.cell(i as usize).data,
                            },
                        )
                    } else {
                        None
                    },
            ),
            order: self.order,
            bytes: self.bytes,
            threshold: self.threshold,
        }
    }

    /// One cell's payload and recorded references replaced; root count and
    /// mark bit stay.
    pub open spec fn set_payload(self, i: usize, value: T, refs: Seq<usize>) -> StateModel<T>
        recommends
            self.live(i),
    {
        StateModel {
            slots: self.slots.update(
                i as int,
                Some(
                    CellModel {
                        roots: self.cell(i).roots,
                        marked: self.cell(i).marked,
                        refs: refs,
                        data: value,
                    },
                ),
            ),
            order: self.order,
            bytes: self.bytes,
            threshold: self.threshold,
        }
    }

    /// Replacing the payload of cell `i`: the handles embedded in the new
    /// payload are unrooted (they now live inside a managed cell), the
    /// payload and its recorded references are swapped, and the handles of
    /// the old payload are re-rooted (they leave the cell and become free
    /// values again).
    pub open spec fn replace_model(self, i: usize, value: T, refs: Seq<usize>) -> StateModel<T>
        recommends
            self.live(i),
    {
        self.dec_refs(refs).set_payload(i, value, refs).inc_refs(self.cell(i).refs)
    }

    /// A fresh cell appended to the arena and prepended to the list, born with
    /// one root, after the immediate unroot of the handles inside its payload.
    pub open spec fn alloc_model(self, value: T, refs: Seq<usize>) -> StateModel<T> {
        let id = self.slots.len() as usize;
        let d = self.dec_refs(refs);
        StateModel {
            slots: d.slots.push(
                Some(CellModel { roots: 1nat, marked: false, refs: refs, data: value }),
            ),
            order: seq![id] + self.order,
            bytes: self.bytes + cell_size::<T>(),
            threshold: self.threshold,
        }
    }

    /// The threshold-driven collection that may precede an allocation: if the
    /// accounting exceeds the threshold, collect and then apply the used-space
    /// rule to the threshold.
    pub open spec fn after_trigger(self) -> StateModel<T> {
        if self.bytes > self.threshold {
            let c = self.collect_model();
            StateModel {
                slots: c.slots,
                order: c.order,
                bytes: c.bytes,
                threshold: threshold_after(c.bytes, self.threshold),
            }
        } else {
            self
        }
    }

    /// How many cells named by `o` are live but not yet marked; the measure
    /// that shrinks as the mark phase progresses.
    pub open spec fn count_unmarked(self, o: Seq<usize>) -> nat
        decreases o.len(),
    {
        if o.len() == 0 {
            0
        } else {
            self.count_unmarked(o.drop_last()) + if self.marked_live(o.last()) {
                0nat
            } else {
                1nat
            }
        }
    }

    /// Marking one unmarked cell lowers the unmarked count by its number of
    /// occurrences.
    pub proof fn lemma_count_unmarked_flip(self, m2: StateModel<T>, i: usize, o: Seq<usize>)
        requires
            !self.marked_live(i),
            m2.marked_live(i),
            forall|x: usize| x != i ==> (#[trigger] m2.marked_live(x) <==> self.marked_live(x)),
        ensures
            m2.count_unmarked(o) + occurrences(o, i) == self.count_unmarked(o),
        decreases o.len(),
    {
        if o.len() == 0 {
        } else {
            self.lemma_count_unmarked_flip(m2, i, o.drop_last());
        }
    }

    /// A rooted cell is reachable in zero steps.
    pub proof fn lemma_rooted_reachable(self, i: usize)
        requires
            self.rooted(i),
        ensures
            self.reachable(i),
    {
        assert(self.reach_n(i, 0));
    }

    /// Reachability follows the reference edges.
    pub proof fn lemma_reach_step(self, j: usize, i: usize)
        requires
            self.reachable(j),
            self.live(j),
            self.cell(j).refs.contains(i),
        ensures
            self.reachable(i),
    {
        let n = choose|n: nat| self.reach_n(j, n);
        assert(self.reach_n(j, ((n + 1) - 1) as nat) && self.live(j) && self.cell(j).refs.contains(
            i,
        ));
        assert(self.reach_n(i, n + 1));
    }

    pub proof fn lemma_reach_n_live(self, i: usize, n: nat)
        requires
            self.wf(),
            self.reach_n(i, n),
        ensures
            self.live(i),
        decreases n,
    {
        if n == 0 {
        } else {
            if self.reach_n(i, (n - 1) as nat) {
                self.lemma_reach_n_live(i, (n - 1) as nat);
            } else {
                let j = choose|j: usize|
                    self.reach_n(j, (n - 1) as nat) && self.live(j) && self.cell(j).refs.contains(
                        i,
                    );
                let k = choose|k: int|
                    0 <= k < self.cell(j).refs.len() && self.cell(j).refs[k] == i;
                assert(self.live(self.cell(j).refs[k]));
            }
        }
    }

    /// Under well-formedness only live cells are reachable.
    pub proof fn lemma_reachable_live(self, i: usize)
        requires
            self.wf(),
            self.reachable(i),
        ensures
            self.live(i),
    {
        let n = choose|n: nat| self.reach_n(i, n);
        self.lemma_reach_n_live(i, n);
    }

    /// If, in a state `m1` that differs from `self` only in mark bits, every
    /// rooted cell is marked and the marked cells are closed under the
    /// reference edges, then every cell reachable in `self` is marked in `m1`.
    /// This is the completeness argument for the mark phase.
    pub proof fn lemma_reach_marked(self, m1: StateModel<T>, i: usize, n: nat)
        requires
            self.wf(),
            self.same_except_marks(m1),
            forall|j: usize| #[trigger] self.rooted(j) ==> m1.marked_live(j),
            forall|j: usize, k: int|
                m1.marked_live(j) && 0 <= k < m1.cell(j).refs.len() ==> m1.marked_live(
                    #[trigger] m1.cell(j).refs[k],
                ),
            self.reach_n(i, n),
        ensures
            m1.marked_live(i),
        decreases n,
    {
        if n == 0 {
            assert(self.rooted(i));
        } else {
            if self.reach_n(i, (n - 1) as nat) {
                self.lemma_reach_marked(m1, i, (n - 1) as nat);
            } else {
                let j = choose|j: usize|
                    self.reach_n(j, (n - 1) as nat) && self.live(j) && self.cell(j).refs.contains(
                        i,
                    );
                self.lemma_reach_marked(m1, j, (n - 1) as nat);
                let k = choose|k: int|
                    0 <= k < self.cell(j).refs.len() && self.cell(j).refs[k] == i;
                assert(m1.cell(j).refs == self.cell(j).refs);
                assert(m1.marked_live(m1.cell(j).refs[k]));
            }
        }
    }

    /// In the marked state the marked cells are closed under the reference
    /// edges: the hypothesis the sweep phase needs.
    pub proof fn lemma_marked_model_closed(self)
        requires
            self.wf(),
        ensures
            forall|i: usize, k: int|
                self.marked_model().marked_live(i) && 0 <= k < self.marked_model().cell(
                    i,
                ).refs.len() ==> self.marked_model().marked_live(
                    #[trigger] self.marked_model().cell(i).refs[k],
                ),
    {
        let m1 = self.marked_model();
        assert forall|i: usize, k: int|
            m1.marked_live(i) && 0 <= k < m1.cell(i).refs.len() implies m1.marked_live(
            #[trigger] m1.cell(i).refs[k],
        ) by {
            assert(self.live(i) && self.reachable(i));
            assert(m1.cell(i).refs == self.cell(i).refs);
            let r = self.cell(i).refs[k];
            assert(self.cell(i).refs.contains(r));
            self.lemma_reach_step(i, r);
            assert(self.live(r));
        }
    }

    /// Marking then sweeping is exactly one whole collection.
    pub proof fn lemma_mark_then_sweep(self)
        requires
            self.wf(),
        ensures
            self.marked_model().sweep_model() == self.collect_model(),
    {
        let m1 = self.marked_model();
        let sw = m1.sweep_model();
        let co = self.collect_model();
        assert forall|x: usize| #[trigger] m1.marked_live(x) == self.reachable(x) by {
            if self.reachable(x) {
                self.lemma_reachable_live(x);
            }
        }
        lemma_filter_congruence(
            self.order,
            |id: usize| m1.marked_live(id),
            |id: usize| self.reachable(id),
        );
        assert(sw.order == co.order);
        assert(sw.bytes == co.bytes);
        assert forall|x: int| 0 <= x < sw.slots.len() implies sw.slots[x] == co.slots[x] by {
            let xu = x as usize;
            if m1.marked_live(xu) {
                assert(sw.cell(xu) =~= co.cell(xu));
                assert(sw.slots[x] == Some(sw.cell(xu)));
                assert(co.slots[x] == Some(co.cell(xu)));
            } else {
                assert(sw.slots[x] is None && co.slots[x] is None);
            }
        }
        assert(sw.slots =~= co.slots);
        assert(sw =~= co);
    }

    /// A rooted cell survives a collection with its payload, recorded
    /// references and root count intact.
    pub proof fn lemma_collect_keeps_rooted(self, r: usize)
        requires
            self.wf(),
            self.rooted(r),
        ensures
            self.collect_model().live(r),
            self.collect_model().cell(r).roots == self.cell(r).roots,
            self.collect_model().cell(r).refs == self.cell(r).refs,
            self.collect_model().cell(r).data == self.cell(r).data,
            self.collect_model().cell(r).marked == false,
    {
        self.lemma_rooted_reachable(r);
    }

    /// A collection never grows the byte accounting.
    pub proof fn lemma_collect_bytes_le(self)
        requires
            self.wf(),
        ensures
            self.collect_model().bytes <= self.bytes,
    {
        let keep = |id: usize| self.reachable(id);
        self.order.lemma_filter_len(keep);
        assert(self.order.filter(keep).len() * cell_size::<T>() <= self.order.len() * cell_size::<
            T,
        >()) by (nonlinear_arith)
            requires
                self.order.filter(keep).len() <= self.order.len(),
        ;
    }

    /// Changing one live cell's root count preserves well-formedness.
    pub proof fn lemma_set_roots_wf(self, i: usize, n: nat)
        requires
            self.wf(),
            self.live(i),
        ensures
            self.set_roots(i, n).wf(),
    {
        let m2 = self.set_roots(i, n);
        assert(forall|j: usize| #[trigger] m2.live(j) <==> self.live(j));
        assert(forall|j: usize| self.live(j) ==> (#[trigger] m2.cell(j)).refs == self.cell(j).refs);
    }

    /// `other` differs from `self` at most in the cells' mark bits.
    pub open spec fn same_except_marks(self, other: StateModel<T>) -> bool {
        &&& other.slots.len() == self.slots.len()
        &&& other.order == self.order
        &&& other.bytes == self.bytes
        &&& other.threshold == self.threshold
        &&& forall|i: usize| #[trigger] other.live(i) <==> self.live(i)
        &&& forall|i: usize|
            self.live(i) ==> (#[trigger] other.cell(i)).roots == self.cell(i).roots
                && other.cell(i).refs == self.cell(i).refs && other.cell(i).data == self.cell(
                i,
            ).data
    }
}

} // verus!
