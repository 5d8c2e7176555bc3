use crate::gc::Gc;
use crate::gc_box::GcBox;
use crate::model::{
    cell_size, distinct, lemma_filter_distinct, lemma_filter_members, lemma_occurrences_contains,
    lemma_contains_occurrences, lemma_occurrences_push, lemma_occurrences_take_le, occurrences,
    CellModel, StateModel,
    INITIAL_THRESHOLD, USED_SPACE_RATIO_DEN, USED_SPACE_RATIO_NUM,
};
use vstd::prelude::*;

verus! {

/// The collector: owner of the slot arena that holds every cell, of the
/// intrusive list threaded through the cells, and of the byte accounting
/// that triggers collections. A handle names a slot; a swept slot stays
/// empty, so slot indices are never reused.
pub struct GcState<T> {
    slots: Vec<Option<GcBox<T>>>,
    head: Option<usize>,
    bytes_allocated: usize,
    threshold: usize,
    order: Ghost<Seq<usize>>,
}

impl<T> View for GcState<T> {
    type V = StateModel<T>;

    closed spec fn view(&self) -> StateModel<T> {
        StateModel {
            slots: Seq::new(
                self.slots@.len(),
                |i: int|
                    match self.slots@[i] {
                        Some(b) => Some(b@),
                        None => None,
                    },
            ),
            order: self.order@,
            bytes: self.bytes_allocated as nat,
            threshold: self.threshold as nat,
        }
    }
}

impl<T> GcState<T> {
    /// The slot the intrusive list enters at, `None` for an empty list.
    spec fn slot_next(&self, i: int) -> Option<usize> {
        match self.slots@[i] {
            Some(b) => b.next_spec(),
            None => None,
        }
    }

    /// The intrusive links thread the cells exactly in list order.
    spec fn links_ok(&self) -> bool {
        let o = self.order@;
        &&& (if o.len() == 0 {
            self.head is None
        } else {
            self.head == Some(o[0])
        })
        &&& forall|k: int|
            0 <= k < o.len() ==> #[trigger] self.slot_next(o[k] as int) == (if k + 1 < o.len() {
                Some(o[k + 1])
            } else {
                None::<usize>
            })
    }

    /// The collector's invariant: the abstract state is well-formed, the
    /// intrusive links agree with the list order, and no mark bit is left set
    /// between collections.
    pub closed spec fn inv(&self) -> bool {
        &&& self@.wf()
        &&& self.links_ok()
        &&& self@.no_marks()
    }

    pub fn new() -> (s: Self)
        ensures
            s.inv(),
            s@ == StateModel::<T>::empty(),
    {
        let s = GcState {
            slots: Vec::new(),
            head: None,
            bytes_allocated: 0,
            threshold: INITIAL_THRESHOLD,
            order: Ghost(Seq::empty()),
        };
        proof {
            assert(s@.slots =~= StateModel::<T>::empty().slots);
            assert(s@ =~= StateModel::<T>::empty());
        }
        s
    }

    /// Bytes currently devoted to live cells. Pure accessor.
    pub fn bytes_allocated(&self) -> (r: usize)
        ensures
            r == self@.bytes,
    {
        self.bytes_allocated
    }

    /// The current collection threshold. Pure accessor.
    pub fn threshold(&self) -> (r: usize)
        ensures
            r == self@.threshold,
    {
        self.threshold
    }

    /// Whether the handle's cell is still live (not yet swept).
    pub fn contains(&self, h: &Gc) -> (b: bool)
        ensures
            b == self@.live(h@),
    {
        let id = h.id();
        id < self.slots.len() && self.slots[id].is_some()
    }

    /// The root count of the handle's cell.
    pub fn roots_of(&self, h: &Gc) -> (r: usize)
        requires
            self@.live(h@),
        ensures
            r == self@.cell(h@).roots,
    {
        let id = h.id();
        self.slots[id].as_ref().unwrap().roots()
    }

    /// The mark bit of the handle's cell.
    pub fn is_marked(&self, h: &Gc) -> (b: bool)
        requires
            self@.live(h@),
        ensures
            b == self@.cell(h@).marked,
    {
        let id = h.id();
        self.slots[id].as_ref().unwrap().is_marked()
    }

    /// Shared read-only access to a live cell's payload.
    pub(crate) fn payload(&self, id: usize) -> (r: &T)
        requires
            self@.live(id),
        ensures
            *r == self@.cell(id).data,
    {
        self.slots[id].as_ref().unwrap().as_ref()
    }

    pub(crate) fn inc_root(&mut self, id: usize)
        requires
            old(self).inv(),
            old(self)@.live(id),
            old(self)@.cell(id).roots < usize::MAX,
        ensures
            final(self).inv(),
            final(self)@ == old(self)@.set_roots(id, (old(self)@.cell(id).roots + 1) as nat),
    {
        self.slots[id].as_mut().unwrap().inc_roots();
        proof {
            let m = old(self)@.set_roots(id, (old(self)@.cell(id).roots + 1) as nat);
            assert(self@.slots =~= m.slots);
            assert(self@ =~= m);
            old(self)@.lemma_set_roots_wf(id, (old(self)@.cell(id).roots + 1) as nat);
            assert(forall|k: int|
                0 <= k < self.slots@.len() ==> #[trigger] self.slot_next(k) == old(
                    self,
                ).slot_next(k));
        }
    }

    /// Mark phase: walk the intrusive list stacking every rooted cell, then
    /// propagate marks along the recorded reference edges until the stack is
    /// exhausted. Afterwards a cell is marked exactly when it is reachable.
    #[verifier::loop_isolation(false)]
    fn mark(&mut self)
        requires
            old(self).inv(),
        ensures
            final(self)@.wf(),
            final(self).links_ok(),
            final(self)@ == old(self)@.marked_model(),
    {
        let ghost m0 = self@;
        let mut stack: Vec<usize> = Vec::new();
        let mut cur: Option<usize> = self.head;
        let ghost mut walked: int = 0;
        while cur.is_some()
            invariant
                0 <= walked <= m0.order.len(),
                cur == (if walked < m0.order.len() {
                    Some(m0.order[walked])
                } else {
                    None::<usize>
                }),
                forall|x: usize| stack@.contains(x) ==> m0.rooted(x),
                forall|j: int|
                    0 <= j < walked && m0.rooted(#[trigger] m0.order[j]) ==> stack@.contains(
                        m0.order[j],
                    ),
            decreases m0.order.len() - walked,
        {
            let i = cur.unwrap();
            proof {
                assert(m0.live(i));
            }
            let b = self.slots[i].as_ref().unwrap();
            let rooted_here = b.roots() > 0;
            cur = b.next();
            if rooted_here {
                stack.push(i);
            }
            proof {
                broadcast use vstd::seq_lib::group_seq_properties;

                assert(self.slot_next(i as int) == b.next_spec());
                walked = walked + 1;
            }
        }
        proof {
            broadcast use vstd::seq_lib::group_seq_properties;

            assert(walked == m0.order.len());
            assert forall|x: usize| m0.rooted(x) implies stack@.contains(x) by {
                assert(m0.live(x));
                assert(m0.order.contains(x));
                let j = choose|j: int| 0 <= j < m0.order.len() && m0.order[j] == x;
                assert(m0.rooted(m0.order[j]));
            }
            assert forall|x: usize| stack@.contains(x) implies m0.live(x) && m0.reachable(x) by {
                assert(m0.rooted(x));
                m0.lemma_rooted_reachable(x);
            }
        }
        while stack.len() > 0
            invariant
                m0.same_except_marks(self@),
                self@.wf(),
                self.links_ok(),
                forall|x: usize| #[trigger] stack@.contains(x) ==> m0.live(x) && m0.reachable(x),
                forall|i: usize| #[trigger] self@.marked_live(i) ==> m0.reachable(i),
                forall|i: usize|
                    #[trigger] m0.rooted(i) ==> self@.marked_live(i) || stack@.contains(i),
                forall|i: usize, k2: int|
                    self@.marked_live(i) && 0 <= k2 < self@.cell(i).refs.len()
                        ==> self@.marked_live(#[trigger] self@.cell(i).refs[k2])
                        || stack@.contains(self@.cell(i).refs[k2]),
            decreases self@.count_unmarked(m0.order), stack@.len(),
        {
            let ghost m_before = self@;
            proof {
                broadcast use vstd::seq_lib::group_seq_properties;
            }
            let ghost stack_before = stack@;
            let i = stack.pop().unwrap();
            proof {
                assert(stack_before.contains(i));
                assert(self@.live(i));
                assert forall|x: usize| stack_before.contains(x) implies stack@.contains(x) || x
                    == i by {
                    broadcast use vstd::seq_lib::group_seq_properties;

                    let j = choose|j: int| 0 <= j < stack_before.len() && stack_before[j] == x;
                    if j < stack_before.len() - 1 {
                        assert(stack@[j] == x);
                    }
                }
                assert forall|x: usize| stack@.contains(x) implies stack_before.contains(x) by {
                    let j = choose|j: int| 0 <= j < stack@.len() && stack@[j] == x;
                    assert(stack_before[j] == x);
                }
                assert forall|x: usize| #[trigger] stack@.contains(x) implies m0.live(x)
                    && m0.reachable(x) by {
                    assert(stack_before.contains(x));
                }
            }
            let marked_already = self.slots[i].as_ref().unwrap().is_marked();
            if !marked_already {
                let ghost s0 = *self;
                self.slots[i].as_mut().unwrap().mark();
                proof {
                    assert(self@.slots.len() == m_before.slots.len());
                    assert(forall|x: int|
                        0 <= x < self@.slots.len() && x != i ==> self@.slots[x]
                            == m_before.slots[x]);
                    assert(self@.live(i) && self@.cell(i).marked);
                    assert(self@.cell(i).roots == m_before.cell(i).roots && self@.cell(i).refs
                        == m_before.cell(i).refs && self@.cell(i).data == m_before.cell(i).data);
                    assert(forall|x: usize| #[trigger] self@.live(x) <==> m_before.live(x));
                    assert(forall|x: usize|
                        m_before.live(x) ==> (#[trigger] self@.cell(x)).roots == m_before.cell(
                            x,
                        ).roots && self@.cell(x).refs == m_before.cell(x).refs && self@.cell(
                            x,
                        ).data == m_before.cell(x).data);
                    assert(m0.same_except_marks(self@));
                    assert(self@.marked_live(i));
                    assert(forall|x: usize|
                        #[trigger] self@.marked_live(x) ==> x == i || m_before.marked_live(x));
                    assert(self@.wf());
                    assert(forall|k: int|
                        0 <= k < self.slots@.len() ==> #[trigger] self.slot_next(k)
                            == s0.slot_next(k));
                    assert(self.links_ok());
                }
                let n = self.slots[i].as_ref().unwrap().ref_count();
                let ghost stack_at_mark = stack@;
                let mut j: usize = 0;
                while j < n
                    invariant
                        j <= n,
                        forall|x: usize|
                            stack_at_mark.contains(x) ==> #[trigger] stack@.contains(x),
                        forall|x: usize|
                            #[trigger] stack@.contains(x) ==> m0.live(x) && m0.reachable(x),
                        forall|k2: int|
                            0 <= k2 < j ==> stack@.contains(#[trigger] self@.cell(i).refs[k2]),
                    decreases n - j,
                {
                    proof {
                        broadcast use vstd::seq_lib::group_seq_properties;
                    }
                    let r = self.slots[i].as_ref().unwrap().ref_at(j);
                    proof {
                        assert(self@.cell(i).refs.contains(r)) by {
                            broadcast use vstd::seq_lib::group_seq_properties;
                        }
                        assert(m0.cell(i).refs == self@.cell(i).refs);
                        assert(m0.reachable(i));
                        m0.lemma_reach_step(i, r);
                        assert(m0.live(r)) by {
                            m0.lemma_reachable_live(r);
                        }
                    }
                    stack.push(r);
                    proof {
                        broadcast use vstd::seq_lib::group_seq_properties;
                    }
                    j = j + 1;
                }
                proof {
                    m_before.lemma_count_unmarked_flip(self@, i, m0.order);
                    lemma_occurrences_contains(m0.order, i);
                }
            }
        }
        proof {
            assert forall|i: usize| m0.reachable(i) implies self@.marked_live(i) by {
                let n = choose|n: nat| m0.reach_n(i, n);
                m0.lemma_reach_marked(self@, i, n);
            }
            let nslots = self.slots.len();
            assert(self@.slots.len() == nslots as nat);
            let mm = m0.marked_model();
            assert forall|x: int| 0 <= x < self@.slots.len() implies self@.slots[x]
                == mm.slots[x] by {
                let xu = x as usize;
                assert(xu as int == x);
                assert(mm.slots[x] == (if m0.live(xu) {
                    Some(
                        CellModel {
                            roots: m0.cell(xu).roots,
                            marked: m0.reachable(xu),
                            refs: m0.cell(xu).refs,
                            data: m0.cell(xu).data,
                        },
                    )
                } else {
                    None
                }));
                if m0.live(xu) {
                    if m0.reachable(xu) {
                        assert(self@.marked_live(xu));
                    } else {
                        assert(!self@.marked_live(xu));
                        assert(!self@.cell(xu).marked);
                    }
                    assert(self@.live(xu) && mm.live(xu));
                    assert(self@.cell(xu) =~= mm.cell(xu));
                    assert(self@.cell(xu) == mm.cell(xu));
                    assert(self@.slots[x] == Some(self@.cell(xu)));
                    assert(mm.slots[x] == Some(mm.cell(xu)));
                    assert(self@.slots[x] == mm.slots[x]);
                } else {
                    assert(!m0.live(xu));
                    assert(!self@.live(xu));
                    assert(self@.slots[x] is None && mm.slots[x] is None);
                }
            }
            assert(self@.slots =~= mm.slots);
            assert(self@ =~= mm);
        }
    }

    /// Sweep phase: walk the intrusive list with a previous/current cursor
    /// pair. Every unmarked cell is unlinked, its bytes are given back and its
    /// slot emptied, which runs the payload destructor; every marked cell has
    /// its mark bit cleared and stays.
    #[verifier::loop_isolation(false)]
    #[verifier::rlimit(100)]
    fn sweep(&mut self)
        requires
            old(self)@.wf(),
            old(self).links_ok(),
            forall|i: usize, k: int|
                old(self)@.marked_live(i) && 0 <= k < old(self)@.cell(i).refs.len() ==> old(
                    self,
                )@.marked_live(#[trigger] old(self)@.cell(i).refs[k]),
        ensures
            final(self).inv(),
            final(self)@ == old(self)@.sweep_model(),
    {
        let ghost m0 = self@;
        let ghost o = m0.order;
        let ghost keep = |id: usize| m0.marked_live(id);
        let size = core::mem::size_of::<GcBox<T>>();
        let mut cur: Option<usize> = self.head;
        let mut prev: Option<usize> = None;
        let mut new_head: Option<usize> = self.head;
        let ghost mut walked: int = 0;
        proof {
            assert(o.take(0) =~= Seq::<usize>::empty());
        }
        while cur.is_some()
            invariant
                0 <= walked <= o.len(),
                cur == (if walked < o.len() {
                    Some(o[walked])
                } else {
                    None::<usize>
                }),
                self@.order == o,
                self@.threshold == m0.threshold,
                self@.slots.len() == m0.slots.len(),
                prev == (if o.take(walked).filter(keep).len() > 0 {
                    Some(o.take(walked).filter(keep).last())
                } else {
                    None::<usize>
                }),
                new_head == (if o.take(walked).filter(keep).len() > 0 {
                    Some(o.take(walked).filter(keep)[0])
                } else {
                    cur
                }),
                forall|j: int|
                    0 <= j < o.take(walked).filter(keep).len() ==> {
                        let id = #[trigger] o.take(walked).filter(keep)[j];
                        self@.live(id) && self@.cell(id).marked == false && self@.cell(id).roots
                            == m0.cell(id).roots && self@.cell(id).refs == m0.cell(id).refs
                            && self@.cell(id).data == m0.cell(id).data
                    },
                forall|j: int|
                    0 <= j && j + 1 < o.take(walked).filter(keep).len() ==> #[trigger] self
                        .slot_next(o.take(walked).filter(keep)[j] as int) == Some(
                        o.take(walked).filter(keep)[j + 1],
                    ),
                o.take(walked).filter(keep).len() > 0 ==> self.slot_next(
                    o.take(walked).filter(keep).last() as int,
                ) == cur,
                forall|j: int|
                    walked <= j < o.len() ==> self@.live(#[trigger] o[j]) && self@.cell(o[j])
                        == m0.cell(o[j]) && self.slot_next(o[j] as int) == (if j + 1 < o.len() {
                        Some(o[j + 1])
                    } else {
                        None::<usize>
                    }),
                forall|j: int|
                    0 <= j < walked && !keep(#[trigger] o[j]) ==> !self@.live(o[j]),
                forall|i: usize|
                    (i as int) < m0.slots.len() && !o.contains(i) ==> !self@.live(i),
                self@.bytes == (o.len() - walked + o.take(walked).filter(keep).len())
                    * cell_size::<T>(),
            decreases o.len() - walked,
        {
            proof {
                broadcast use vstd::seq_lib::group_seq_properties;
            }
            let i = cur.unwrap();
            let ghost kept0 = o.take(walked).filter(keep);
            proof {
                assert(i == o[walked]);
                assert(self@.live(i));
                assert(o.take(walked + 1) =~= o.take(walked).push(i));
                Seq::lemma_filter_push(o.take(walked), i, keep);
                assert(distinct(o));
                assert(distinct(o.take(walked)));
                lemma_filter_distinct(o.take(walked), keep);
                lemma_filter_members(o.take(walked), keep);
                assert forall|j: int| 0 <= j < kept0.len() implies kept0[j] != i by {
                    assert(kept0.contains(kept0[j]));
                    assert(o.take(walked).contains(kept0[j]));
                    let jj = choose|jj: int|
                        0 <= jj < o.take(walked).len() && o.take(walked)[jj] == kept0[j];
                    assert(o[jj] == kept0[j]);
                    assert(o[jj] != o[walked]);
                }
            }
            let marked_now = self.slots[i].as_ref().unwrap().is_marked();
            if marked_now {
                proof {
                    assert(keep(i));
                    assert(o.take(walked + 1).filter(keep) == kept0.push(i));
                }
                let ghost s_pre = *self;
                self.slots[i].as_mut().unwrap().unmark();
                let nxt = self.slots[i].as_ref().unwrap().next();
                prev = Some(i);
                cur = nxt;
                proof {
                    broadcast use vstd::seq_lib::group_seq_properties;

                    assert(forall|x: int|
                        0 <= x < self@.slots.len() && x != i ==> self@.slots[x]
                            == s_pre@.slots[x]);
                    assert(forall|x: usize| #[trigger] self@.live(x) <==> s_pre@.live(x));
                    assert(forall|k2: int|
                        0 <= k2 < self.slots@.len() ==> #[trigger] self.slot_next(k2)
                            == s_pre.slot_next(k2));
                    assert(self@.live(i) && self@.cell(i).marked == false);
                    assert(self@.cell(i).roots == m0.cell(i).roots && self@.cell(i).refs
                        == m0.cell(i).refs && self@.cell(i).data == m0.cell(i).data);
                    walked = walked + 1;
                    assert(o.take(walked).filter(keep) == kept0.push(i));
                    assert(o.take(walked).filter(keep).last() == i);
                    assert(o.take(walked).filter(keep)[0] == (if kept0.len() > 0 {
                        kept0[0]
                    } else {
                        i
                    }));
                    let kk = o.take(walked).filter(keep);
                    assert forall|j: int| 0 <= j && j + 1 < kk.len() implies #[trigger] self
                        .slot_next(kk[j] as int) == Some(kk[j + 1]) by {
                        if j + 1 < kept0.len() {
                            assert(kk[j] == kept0[j] && kk[j + 1] == kept0[j + 1]);
                            assert(s_pre.slot_next(kept0[j] as int) == Some(kept0[j + 1]));
                        } else {
                            assert(j + 1 == kept0.len());
                            assert(kk[j] == kept0[j] && kept0[j] == kept0.last());
                            assert(kk[j + 1] == i);
                            assert(s_pre.slot_next(kept0.last() as int) == Some(i));
                        }
                    }
                }
            } else {
                proof {
                    assert(!keep(i));
                    assert(o.take(walked + 1).filter(keep) == kept0);
                }
                let nxt = self.slots[i].as_ref().unwrap().next();
                match prev {
                    Some(p) => {
                        let ghost s_pre = *self;
                        self.slots[p].as_mut().unwrap().set_next(nxt);
                        proof {
                            assert(forall|x: int|
                                0 <= x < self@.slots.len() && x != p ==> self@.slots[x]
                                    == s_pre@.slots[x]);
                            assert(self@.slots[p as int] == s_pre@.slots[p as int]);
                            assert(self@.slots =~= s_pre@.slots);
                            assert(forall|x: usize| #[trigger] self@.live(x) <==> s_pre@.live(x));
                            assert(forall|k2: int|
                                0 <= k2 < self.slots@.len() && k2 != p ==> #[trigger] self
                                    .slot_next(k2) == s_pre.slot_next(k2));
                            assert(self.slot_next(p as int) == nxt);
                        }
                    },
                    None => {
                        new_head = nxt;
                    },
                }
                let ghost s_pre2 = *self;
                self.slots[i] = None;
                proof {
                    assert(forall|x: int|
                        0 <= x < self@.slots.len() && x != i ==> self@.slots[x]
                            == s_pre2@.slots[x]);
                    assert(!self@.live(i));
                    assert(forall|x: usize|
                        x != i ==> (#[trigger] self@.live(x) <==> s_pre2@.live(x)));
                    assert(forall|k2: int|
                        0 <= k2 < self.slots@.len() && k2 != i ==> #[trigger] self.slot_next(k2)
                            == s_pre2.slot_next(k2));
                    assert((o.len() - walked + kept0.len()) * cell_size::<T>() >= 1 * cell_size::<
                        T,
                    >()) by (nonlinear_arith)
                        requires
                            o.len() - walked + kept0.len() >= 1,
                    ;
                    assert(self.bytes_allocated >= size);
                }
                self.bytes_allocated = self.bytes_allocated - size;
                cur = nxt;
                proof {
                    assert forall|j: int| 0 <= j && j + 1 < kept0.len() implies #[trigger] self
                        .slot_next(kept0[j] as int) == Some(kept0[j + 1]) by {
                        assert(kept0[j] != i);
                        assert(kept0[j] != kept0[kept0.len() - 1]);
                    }
                    walked = walked + 1;
                    assert((o.len() - (walked - 1) + kept0.len()) * cell_size::<T>() == (o.len()
                        - walked + kept0.len()) * cell_size::<T>() + cell_size::<T>())
                        by (nonlinear_arith);
                    assert(self@.bytes == (o.len() - walked + o.take(walked).filter(keep).len())
                        * cell_size::<T>());
                }
            }
        }
        proof {
            broadcast use vstd::seq_lib::group_seq_properties;

            assert(walked == o.len());
            assert(o.take(walked) =~= o);
        }
        self.head = new_head;
        proof {
            self.order@ = o.filter(keep);
        }
        proof {
            let nslots = self.slots.len();
            assert(self@.slots.len() == nslots as nat);
            let ghost kept = o.filter(keep);
            lemma_filter_members(o, keep);
            lemma_filter_distinct(o, keep);
            let sm = m0.sweep_model();
            assert forall|x: int| 0 <= x < self@.slots.len() implies self@.slots[x]
                == sm.slots[x] by {
                let xu = x as usize;
                assert(xu as int == x);
                assert(sm.slots[x] == (if m0.marked_live(xu) {
                    Some(
                        CellModel {
                            roots: m0.cell(xu).roots,
                            marked: false,
                            refs: m0.cell(xu).refs,
                            data: m0.cell(xu).data,
                        },
                    )
                } else {
                    None
                }));
                if m0.marked_live(xu) {
                    assert(m0.live(xu));
                    assert(o.contains(xu));
                    assert(keep(xu));
                    assert(kept.contains(xu));
                    let j = choose|j: int| 0 <= j < kept.len() && kept[j] == xu;
                    assert(self@.live(xu) && self@.cell(xu).marked == false);
                    assert(self@.cell(xu) =~= sm.cell(xu));
                    assert(self@.slots[x] == Some(self@.cell(xu)));
                    assert(sm.slots[x] == Some(sm.cell(xu)));
                } else {
                    if o.contains(xu) {
                        let j = choose|j: int| 0 <= j < o.len() && o[j] == xu;
                        assert(!keep(o[j]));
                        assert(!self@.live(xu));
                    } else {
                        assert(!self@.live(xu));
                    }
                    assert(self@.slots[x] is None);
                }
            }
            assert(self@.slots =~= sm.slots);
            assert(self@ =~= sm);
            assert(self@.wf()) by {
                assert(forall|k: int| 0 <= k < kept.len() ==> self@.live(#[trigger] kept[k]));
                assert(distinct(kept));
                assert forall|i: usize| #[trigger] self@.live(i) implies self@.order.contains(
                    i,
                ) by {
                    assert(m0.marked_live(i));
                    assert(o.contains(i) && keep(i));
                }
                assert forall|i: usize, k: int|
                    self@.live(i) && 0 <= k < self@.cell(i).refs.len() implies self@.live(
                    #[trigger] self@.cell(i).refs[k],
                ) by {
                    assert(m0.marked_live(i));
                    assert(self@.cell(i).refs == m0.cell(i).refs);
                    assert(m0.marked_live(m0.cell(i).refs[k]));
                }
            }
            assert(self@.no_marks());
            assert(self.links_ok()) by {
                if kept.len() > 0 {
                    assert(self.head == Some(kept[0]));
                }
            }
        }
    }

    /// One whole collection: mark every cell reachable from a rooted cell,
    /// then sweep the unmarked cells away, clearing the survivors' marks.
    /// Afterwards exactly the cells that were reachable remain, unmarked,
    /// with their payloads and root counts untouched, and the byte accounting
    /// counts exactly the survivors.
    pub fn mark_and_sweep(&mut self)
        requires
            old(self).inv(),
        ensures
            final(self).inv(),
            final(self)@ == old(self)@.collect_model(),
    {
        let ghost m0 = self@;
        self.mark();
        proof {
            m0.lemma_marked_model_closed();
            m0.lemma_mark_then_sweep();
        }
        self.sweep();
    }

    /// Raise or lower the collection threshold; nothing else changes.
    pub(crate) fn set_threshold(&mut self, t: usize)
        requires
            old(self).inv(),
        ensures
            final(self).inv(),
            final(self)@.slots == old(self)@.slots,
            final(self)@.order == old(self)@.order,
            final(self)@.bytes == old(self)@.bytes,
            final(self)@.threshold == t as nat,
    {
        self.threshold = t;
        proof {
            assert(self@.slots =~= old(self)@.slots);
            assert(forall|i: usize| #[trigger] self@.live(i) <==> old(self)@.live(i));
            assert(forall|i: usize|
                old(self)@.live(i) ==> #[trigger] self@.cell(i) == old(self)@.cell(i));
            assert(self@.wf()) by {
                assert(forall|k: int|
                    0 <= k < self@.order.len() ==> self@.live(#[trigger] self@.order[k]));
                assert forall|i: usize| #[trigger] self@.live(i) implies self@.order.contains(
                    i,
                ) by {
                    assert(old(self)@.live(i));
                }
                assert forall|i: usize, k: int|
                    self@.live(i) && 0 <= k < self@.cell(i).refs.len() implies self@.live(
                    #[trigger] self@.cell(i).refs[k],
                ) by {
                    assert(old(self)@.live(i));
                    assert(self@.cell(i) == old(self)@.cell(i));
                    assert(old(self)@.live(old(self)@.cell(i).refs[k]));
                }
            }
            assert(self@.no_marks());
            assert(forall|k: int|
                0 <= k < self.slots@.len() ==> #[trigger] self.slot_next(k) == old(
                    self,
                ).slot_next(k));
            assert(self.links_ok());
        }
    }

    /// The immediate-unroot step: lower the root count of every cell named
    /// in `refs`, once per occurrence.
    #[verifier::loop_isolation(false)]
    fn dec_all(&mut self, refs: &Vec<usize>)
        requires
            old(self).inv(),
            old(self)@.refs_ok(refs@),
        ensures
            final(self).inv(),
            final(self)@ == old(self)@.dec_refs(refs@),
    {
        let ghost m1 = self@;
        let mut k: usize = 0;
        let n = refs.len();
        while k < n
            invariant
                k <= n,
                self.inv(),
                self@.slots.len() == m1.slots.len(),
                self@.order == m1.order,
                self@.bytes == m1.bytes,
                self@.threshold == m1.threshold,
                forall|x: usize| #[trigger] self@.live(x) <==> m1.live(x),
                forall|x: usize|
                    m1.live(x) ==> (#[trigger] self@.cell(x)).marked == m1.cell(x).marked
                        && self@.cell(x).refs == m1.cell(x).refs && self@.cell(x).data == m1.cell(
                        x,
                    ).data && self@.cell(x).roots + occurrences(refs@.take(k as int), x)
                        == m1.cell(x).roots,
            decreases n - k,
        {
            let r = refs[k];
            proof {
                assert(m1.live(r));
                assert(refs@.take(k + 1) =~= refs@.take(k as int).push(r));
                lemma_occurrences_push(refs@.take(k as int), r, r);
                lemma_occurrences_take_le(refs@, k + 1, r);
                assert(occurrences(refs@, r) <= m1.cell(r).roots);
                assert(occurrences(refs@.take(k as int), r) + 1 <= m1.cell(r).roots);
                assert(self@.cell(r).roots >= 1);
            }
            self.dec_root(r);
            k = k + 1;
            proof {
                assert forall|x: usize| m1.live(x) implies (#[trigger] self@.cell(x)).roots
                    + occurrences(refs@.take(k as int), x) == m1.cell(x).roots by {
                    assert(refs@.take(k as int) =~= refs@.take(k - 1).push(r));
                    lemma_occurrences_push(refs@.take(k - 1), r, x);
                }
            }
        }
        proof {
            assert(refs@.take(n as int) =~= refs@);
            let ns = self.slots.len();
            assert(self@.slots.len() == ns as nat);
            let d = m1.dec_refs(refs@);
            assert forall|x: int| 0 <= x < self@.slots.len() implies self@.slots[x]
                == d.slots[x] by {
                let xu = x as usize;
                assert(xu as int == x);
                if m1.live(xu) {
                    assert(self@.cell(xu) =~= d.cell(xu));
                    assert(self@.slots[x] == Some(self@.cell(xu)));
                    assert(d.slots[x] == Some(d.cell(xu)));
                } else {
                    assert(!self@.live(xu));
                    assert(self@.slots[x] is None && d.slots[x] is None);
                }
            }
            assert(self@.slots =~= d.slots);
            assert(self@ =~= d);
        }
    }

    /// The re-rooting step: raise the root count of every cell named in
    /// `refs`, once per occurrence.
    #[verifier::loop_isolation(false)]
    fn inc_all(&mut self, refs: &Vec<usize>)
        requires
            old(self).inv(),
            forall|j: int| 0 <= j < refs@.len() ==> old(self)@.live(#[trigger] refs@[j]),
            forall|x: usize|
                old(self)@.live(x) ==> (#[trigger] old(self)@.cell(x)).roots + occurrences(
                    refs@,
                    x,
                ) <= usize::MAX,
        ensures
            final(self).inv(),
            final(self)@ == old(self)@.inc_refs(refs@),
    {
        let ghost m1 = self@;
        let mut k: usize = 0;
        let n = refs.len();
        while k < n
            invariant
                k <= n,
                self.inv(),
                self@.slots.len() == m1.slots.len(),
                self@.order == m1.order,
                self@.bytes == m1.bytes,
                self@.threshold == m1.threshold,
                forall|x: usize| #[trigger] self@.live(x) <==> m1.live(x),
                forall|x: usize|
                    m1.live(x) ==> (#[trigger] self@.cell(x)).marked == m1.cell(x).marked
                        && self@.cell(x).refs == m1.cell(x).refs && self@.cell(x).data == m1.cell(
                        x,
                    ).data && self@.cell(x).roots == m1.cell(x).roots + occurrences(
                        refs@.take(k as int),
                        x,
                    ),
            decreases n - k,
        {
            let r = refs[k];
            proof {
                assert(m1.live(r));
                assert(refs@.take(k + 1) =~= refs@.take(k as int).push(r));
                lemma_occurrences_push(refs@.take(k as int), r, r);
                lemma_occurrences_take_le(refs@, k + 1, r);
                assert(m1.cell(r).roots + occurrences(refs@, r) <= usize::MAX);
                assert(self@.cell(r).roots < usize::MAX);
            }
            self.inc_root(r);
            k = k + 1;
            proof {
                assert forall|x: usize| m1.live(x) implies (#[trigger] self@.cell(x)).roots
                    == m1.cell(x).roots + occurrences(refs@.take(k as int), x) by {
                    assert(refs@.take(k as int) =~= refs@.take(k - 1).push(r));
                    lemma_occurrences_push(refs@.take(k - 1), r, x);
                }
            }
        }
        proof {
            assert(refs@.take(n as int) =~= refs@);
            let ns = self.slots.len();
            assert(self@.slots.len() == ns as nat);
            let d = m1.inc_refs(refs@);
            assert forall|x: int| 0 <= x < self@.slots.len() implies self@.slots[x]
                == d.slots[x] by {
                let xu = x as usize;
                assert(xu as int == x);
                if m1.live(xu) {
                    assert(self@.cell(xu) =~= d.cell(xu));
                    assert(self@.slots[x] == Some(self@.cell(xu)));
                    assert(d.slots[x] == Some(d.cell(xu)));
                } else {
                    assert(!self@.live(xu));
                    assert(self@.slots[x] is None && d.slots[x] is None);
                }
            }
            assert(self@.slots =~= d.slots);
            assert(self@ =~= d);
        }
    }

    /// Whether `refs` may stand as the recorded handles of a payload about
    /// to be stored: every named slot is live and its root count covers the
    /// occurrences.
    #[verifier::loop_isolation(false)]
    pub fn refs_valid(&self, refs: &Vec<usize>) -> (b: bool)
        ensures
            b == self@.refs_ok(refs@),
    {
        let n = refs.len();
        let mut k: usize = 0;
        while k < n
            invariant
                k <= n,
                forall|j: int|
                    0 <= j < k ==> self@.live(#[trigger] refs@[j]) && occurrences(refs@, refs@[j])
                        <= self@.cell(refs@[j]).roots,
            decreases n - k,
        {
            let id = refs[k];
            if !(id < self.slots.len() && self.slots[id].is_some()) {
                proof {
                    assert(!self@.live(refs@[k as int]));
                }
                return false;
            }
            let mut count: usize = 0;
            let mut j: usize = 0;
            while j < n
                invariant
                    j <= n,
                    count <= j,
                    count as nat == occurrences(refs@.take(j as int), id),
                decreases n - j,
            {
                proof {
                    assert(refs@.take(j + 1) =~= refs@.take(j as int).push(refs@[j as int]));
                    lemma_occurrences_push(refs@.take(j as int), refs@[j as int], id);
                }
                if refs[j] == id {
                    count = count + 1;
                }
                j = j + 1;
            }
            proof {
                assert(refs@.take(n as int) =~= refs@);
            }
            if count > self.slots[id].as_ref().unwrap().roots() {
                proof {
                    assert(occurrences(refs@, refs@[k as int]) > self@.cell(refs@[k as int]).roots);
                }
                return false;
            }
            k = k + 1;
        }
        true
    }

    /// Allocate a cell whose payload is `value` and whose recorded reference
    /// edges are `refs`: the slot indices of the handles embedded in `value`,
    /// each listed once per occurrence. If the byte accounting exceeds the
    /// threshold a collection runs first, after which the used-space rule may
    /// raise the threshold. The new cell is born with one root and prepended
    /// to the intrusive list, and the immediate-unroot rule then lowers the
    /// root count of every cell named in `refs` once per occurrence: those
    /// handles now live inside a managed payload and are roots no longer.
    /// The returned handle is the new cell's single root.
    #[verifier::loop_isolation(false)]
    #[verifier::rlimit(100)]
    pub fn allocate_with_refs(&mut self, value: T, refs: Vec<usize>) -> (h: Gc)
        requires
            old(self).inv(),
            old(self)@.refs_ok(refs@),
            old(self)@.bytes + cell_size::<T>() <= usize::MAX,
        ensures
            final(self).inv(),
            final(self)@ == old(self)@.after_trigger().alloc_model(value, refs@),
            h@ == old(self)@.slots.len(),
    {
        let ghost m0 = self@;
        let size = core::mem::size_of::<GcBox<T>>();
        if self.bytes_allocated > self.threshold {
            self.mark_and_sweep();
            let b10: u128 = (self.bytes_allocated as u128) * (USED_SPACE_RATIO_DEN as u128);
            let t7: u128 = (self.threshold as u128) * (USED_SPACE_RATIO_NUM as u128);
            if b10 > t7 {
                let nt: u128 = b10 / (USED_SPACE_RATIO_NUM as u128);
                let clamped: usize = if nt > (usize::MAX as u128) {
                    usize::MAX
                } else {
                    nt as usize
                };
                self.set_threshold(clamped);
            }
            proof {
                assert(self@ =~= m0.after_trigger());
            }
        }
        proof {
            let m1 = m0.after_trigger();
            assert(self@ == m1);
            if m0.bytes > m0.threshold {
                assert forall|j: int| 0 <= j < refs@.len() implies m1.live(#[trigger] refs@[j])
                    && occurrences(refs@, refs@[j]) <= m1.cell(refs@[j]).roots by {
                    let r = refs@[j];
                    assert(refs@.contains(r));
                    lemma_occurrences_contains(refs@, r);
                    assert(m0.rooted(r));
                    m0.lemma_collect_keeps_rooted(r);
                }
                m0.lemma_collect_bytes_le();
            }
            assert(m1.refs_ok(refs@));
            assert(m1.bytes + cell_size::<T>() <= usize::MAX);
        }
        let ghost m1 = self@;
        self.dec_all(&refs);
        let ghost s_dec = *self;
        let id = self.slots.len();
        let gcb = GcBox::new(value, refs, self.head);
        self.slots.push(Some(gcb));
        self.head = Some(id);
        self.bytes_allocated = self.bytes_allocated + size;
        proof {
            self.order@ = seq![id] + m1.order;
        }
        proof {
            broadcast use vstd::seq_lib::group_seq_properties;

            let fin = m1.alloc_model(value, refs@);
            assert(fin.order == seq![id] + m1.order);
            assert(self@.slots.len() == m1.slots.len() + 1);
            assert(self@.slots[id as int] == Some(
                CellModel { roots: 1nat, marked: false, refs: refs@, data: value },
            ));
            assert(forall|x: int|
                0 <= x < id ==> self@.slots[x] == s_dec@.slots[x]);
            assert(self@.slots =~= fin.slots);
            assert(self@ =~= fin);
            assert forall|kk: int| 0 <= kk < m1.order.len() implies m1.order[kk] != id by {
                assert(m1.live(m1.order[kk]));
                assert(m1.order[kk] < m1.slots.len());
            }
            assert(self@.wf()) by {
                assert(forall|kk: int|
                    0 <= kk < self@.order.len() ==> self@.live(#[trigger] self@.order[kk]));
                assert forall|kk1: int, kk2: int|
                    0 <= kk1 < kk2 < self@.order.len() implies self@.order[kk1]
                    != self@.order[kk2] by {
                    if kk1 == 0 {
                        assert(self@.order[kk1] == id);
                        assert(self@.order[kk2] == m1.order[kk2 - 1]);
                    } else {
                        assert(self@.order[kk1] == m1.order[kk1 - 1]);
                        assert(self@.order[kk2] == m1.order[kk2 - 1]);
                    }
                }
                assert forall|x: usize| #[trigger] self@.live(x) implies self@.order.contains(
                    x,
                ) by {
                    if x == id {
                        assert(self@.order[0] == id);
                    } else {
                        assert(m1.live(x));
                        assert(m1.order.contains(x));
                        let jj = choose|jj: int| 0 <= jj < m1.order.len() && m1.order[jj] == x;
                        assert(self@.order[jj + 1] == x);
                    }
                }
                assert forall|x: usize, kk: int|
                    self@.live(x) && 0 <= kk < self@.cell(x).refs.len() implies self@.live(
                    #[trigger] self@.cell(x).refs[kk],
                ) by {
                    if x == id {
                        assert(self@.cell(id).refs == refs@);
                        assert(m1.live(refs@[kk]));
                    } else {
                        assert(m1.live(x) && m1.cell(x).refs == self@.cell(x).refs);
                        assert(m1.live(m1.cell(x).refs[kk]));
                    }
                }
                assert(self@.order.len() == m1.order.len() + 1);
                assert((m1.order.len() + 1) * cell_size::<T>() == m1.order.len() * cell_size::<T>()
                    + cell_size::<T>()) by (nonlinear_arith);
            }
            assert(self@.no_marks());
            assert(self.links_ok()) by {
                assert(self.slot_next(id as int) == s_dec.head);
                assert forall|kk: int|
                    0 <= kk < self@.order.len() implies #[trigger] self.slot_next(
                    self@.order[kk] as int,
                ) == (if kk + 1 < self@.order.len() {
                    Some(self@.order[kk + 1])
                } else {
                    None::<usize>
                }) by {
                    if kk == 0 {
                        assert(self@.order[0] == id);
                        if m1.order.len() > 0 {
                            assert(s_dec.head == Some(m1.order[0]));
                            assert(self@.order[1] == m1.order[0]);
                        }
                    } else {
                        assert(self@.order[kk] == m1.order[kk - 1]);
                        assert(self@.order[kk] != id);
                        assert(self.slot_next(self@.order[kk] as int) == s_dec.slot_next(
                            self@.order[kk] as int,
                        ));
                    }
                }
            }
        }
        Gc::from_gc_box(id)
    }

    /// Replace the payload of a live cell, handing the old payload back.
    /// `refs` names the handles embedded in the new payload, once per
    /// occurrence, just as at allocation. The handles embedded in the new
    /// payload cease to be roots, and the handles inside the returned old
    /// payload become free values again, so their cells are re-rooted. This
    /// is the operation that can close a cycle: store into an older cell a
    /// handle to a younger one.
    #[verifier::rlimit(100)]
    pub fn replace(&mut self, h: &Gc, value: T, refs: Vec<usize>) -> (r: T)
        requires
            old(self).inv(),
            old(self)@.live(h@),
            old(self)@.refs_ok(refs@),
            forall|x: usize|
                old(self)@.live(x) ==> (#[trigger] old(self)@.cell(x)).roots + occurrences(
                    old(self)@.cell(h@).refs,
                    x,
                ) <= usize::MAX,
        ensures
            final(self).inv(),
            final(self)@ == old(self)@.replace_model(h@, value, refs@),
            r == old(self)@.cell(h@).data,
    {
        let ghost m0 = self@;
        let i = h.id();
        self.dec_all(&refs);
        let ghost m_dec = self@;
        let ghost s_dec = *self;
        let (old_data, old_refs) = self.slots[i].as_mut().unwrap().replace_payload(value, refs);
        proof {
            let sp = m_dec.set_payload(i, value, refs@);
            assert(self@.slots =~= sp.slots);
            assert(self@ =~= sp);
            assert(old_refs@ == m0.cell(i).refs);
            assert(self@.wf()) by {
                assert(forall|x: usize| #[trigger] self@.live(x) <==> m_dec.live(x));
                assert forall|x: usize, k: int|
                    self@.live(x) && 0 <= k < self@.cell(x).refs.len() implies self@.live(
                    #[trigger] self@.cell(x).refs[k],
                ) by {
                    if x == i {
                        assert(self@.cell(i).refs == refs@);
                        assert(m0.live(refs@[k]));
                    } else {
                        assert(m_dec.live(x) && m_dec.cell(x).refs == self@.cell(x).refs);
                        assert(m_dec.live(m_dec.cell(x).refs[k]));
                    }
                }
            }
            assert(self@.no_marks());
            assert(self.links_ok()) by {
                assert(forall|k: int|
                    0 <= k < self.slots@.len() ==> #[trigger] self.slot_next(k) == s_dec.slot_next(
                        k,
                    ));
            }
            assert forall|j: int| 0 <= j < old_refs@.len() implies self@.live(
                #[trigger] old_refs@[j],
            ) by {
                assert(m0.live(m0.cell(i).refs[j]));
            }
            assert forall|x: usize| self@.live(x) implies (#[trigger] self@.cell(x)).roots
                + occurrences(old_refs@, x) <= usize::MAX by {
                assert(m0.live(x));
                if occurrences(refs@, x) >= 1 {
                    lemma_contains_occurrences(refs@, x);
                    let j = choose|j: int| 0 <= j < refs@.len() && refs@[j] == x;
                    assert(m0.live(refs@[j]) && occurrences(refs@, refs@[j]) <= m0.cell(
                        refs@[j],
                    ).roots);
                }
                assert(occurrences(refs@, x) <= m0.cell(x).roots);
                assert(self@.cell(x).roots <= m0.cell(x).roots);
            }
        }
        self.inc_all(&old_refs);
        proof {
            assert(self@ == m0.dec_refs(refs@).set_payload(i, value, refs@).inc_refs(old_refs@));
            assert(old_refs@ == m0.cell(i).refs);
            assert(self@ == m0.replace_model(i, value, refs@));
        }
        old_data
    }

    pub(crate) fn dec_root(&mut self, id: usize)
        requires
            old(self).inv(),
            old(self)@.live(id),
            old(self)@.cell(id).roots >= 1,
        ensures
            final(self).inv(),
            final(self)@ == old(self)@.set_roots(id, (old(self)@.cell(id).roots - 1) as nat),
    {
        self.slots[id].as_mut().unwrap().dec_roots();
        proof {
            let m = old(self)@.set_roots(id, (old(self)@.cell(id).roots - 1) as nat);
            assert(self@.slots =~= m.slots);
            assert(self@ =~= m);
            old(self)@.lemma_set_roots_wf(id, (old(self)@.cell(id).roots - 1) as nat);
            assert(forall|k: int|
                0 <= k < self.slots@.len() ==> #[trigger] self.slot_next(k) == old(
                    self,
                ).slot_next(k));
        }
    }
}

} // verus!
