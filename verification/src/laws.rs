use crate::model::{
    cell_size, lemma_filter_congruence, lemma_filter_identity, lemma_filter_members, CellModel,
    StateModel,
};
use vstd::prelude::*;

verus! {

/// In a quiescent well-formed collector the byte accounting equals the
/// number of live cells times the size of one cell.
pub proof fn lemma_quiescent_accounting<T>(m: StateModel<T>)
    requires
        m.wf(),
    ensures
        m.bytes == m.order.len() * cell_size::<T>(),
{
}

/// The root-count protocol balances: cloning a handle and then giving the
/// clone up leaves the collector exactly as it was, so across any sequence
/// of clones and drops a cell's root count equals the number of live root
/// handles to it.
pub proof fn lemma_clone_drop_roundtrip<T>(m: StateModel<T>, i: usize)
    requires
        m.live(i),
    ensures
        ({
            let cloned = m.set_roots(i, (m.cell(i).roots + 1) as nat);
            cloned.set_roots(i, (cloned.cell(i).roots - 1) as nat) == m
        }),
{
    let cloned = m.set_roots(i, (m.cell(i).roots + 1) as nat);
    let dropped = cloned.set_roots(i, (cloned.cell(i).roots - 1) as nat);
    assert(cloned.cell(i).roots == m.cell(i).roots + 1);
    assert forall|x: int| 0 <= x < dropped.slots.len() implies dropped.slots[x]
        == m.slots[x] by {
        if x == i as int {
            assert(dropped.cell(i) =~= m.cell(i));
            assert(dropped.slots[x] == Some(dropped.cell(i)));
            assert(m.slots[x] == Some(m.cell(i)));
        }
    }
    assert(dropped.slots =~= m.slots);
    assert(dropped =~= m);
}

/// A collection preserves reachability up to each step count: what was
/// reachable within `n` steps still is, and nothing new becomes reachable.
proof fn lemma_collect_reach_n<T>(m: StateModel<T>, i: usize, n: nat)
    requires
        m.wf(),
    ensures
        m.reach_n(i, n) ==> m.collect_model().reach_n(i, n),
        m.collect_model().reach_n(i, n) ==> m.reach_n(i, n),
    decreases n,
{
    let c = m.collect_model();
    if n == 0 {
        if m.rooted(i) {
            m.lemma_rooted_reachable(i);
            assert(c.live(i) && c.cell(i).roots == m.cell(i).roots);
        }
        if c.rooted(i) {
            assert(m.live(i) && m.cell(i).roots == c.cell(i).roots);
        }
    } else {
        lemma_collect_reach_n(m, i, (n - 1) as nat);
        if m.reach_n(i, n) && !m.reach_n(i, (n - 1) as nat) {
            let j = choose|j: usize|
                m.reach_n(j, (n - 1) as nat) && m.live(j) && m.cell(j).refs.contains(i);
            lemma_collect_reach_n(m, j, (n - 1) as nat);
            assert(m.reachable(j)) by {
                assert(m.reach_n(j, (n - 1) as nat));
            }
            assert(c.live(j) && c.cell(j).refs == m.cell(j).refs);
            assert(c.reach_n(j, (n - 1) as nat) && c.live(j) && c.cell(j).refs.contains(i));
            assert(c.reach_n(i, n));
        }
        if c.reach_n(i, n) && !c.reach_n(i, (n - 1) as nat) {
            let j = choose|j: usize|
                c.reach_n(j, (n - 1) as nat) && c.live(j) && c.cell(j).refs.contains(i);
            lemma_collect_reach_n(m, j, (n - 1) as nat);
            assert(m.live(j) && m.cell(j).refs == c.cell(j).refs);
            assert(m.reach_n(j, (n - 1) as nat) && m.live(j) && m.cell(j).refs.contains(i));
            assert(m.reach_n(i, n));
        }
    }
}

/// A collection changes no cell's reachability: the surviving graph reaches
/// exactly what the original graph reached.
pub proof fn lemma_collect_preserves_reachable<T>(m: StateModel<T>, i: usize)
    requires
        m.wf(),
    ensures
        m.collect_model().reachable(i) <==> m.reachable(i),
{
    let c = m.collect_model();
    if m.reachable(i) {
        let n = choose|n: nat| m.reach_n(i, n);
        lemma_collect_reach_n(m, i, n);
        assert(c.reach_n(i, n));
    }
    if c.reachable(i) {
        let n = choose|n: nat| c.reach_n(i, n);
        lemma_collect_reach_n(m, i, n);
        assert(m.reach_n(i, n));
    }
}

/// Collection is idempotent: a second collection with no allocation or root
/// change in between removes nothing and changes nothing; in particular the
/// byte accounting after the second collection equals the accounting after
/// the first.
pub proof fn lemma_collect_idempotent<T>(m: StateModel<T>)
    requires
        m.wf(),
    ensures
        m.collect_model().collect_model() == m.collect_model(),
{
    let c = m.collect_model();
    let cc = c.collect_model();
    assert forall|x: usize| #[trigger] c.reachable(x) == m.reachable(x) by {
        lemma_collect_preserves_reachable(m, x);
    }
    lemma_filter_congruence(c.order, |id: usize| c.reachable(id), |id: usize| m.reachable(id));
    lemma_filter_members(m.order, |id: usize| m.reachable(id));
    assert forall|j: int| 0 <= j < c.order.len() implies m.reachable(#[trigger] c.order[j]) by {
        assert(c.order.contains(c.order[j]));
    }
    lemma_filter_identity(c.order, |id: usize| m.reachable(id));
    assert(cc.order == c.order);
    assert forall|x: int| 0 <= x < cc.slots.len() implies cc.slots[x] == c.slots[x] by {
        let xu = #[verifier::truncate] (x as usize);
        assert(c.reachable(xu) == m.reachable(xu));
        if m.live(xu) && m.reachable(xu) {
            assert(c.live(xu));
            assert(c.cell(xu).roots == m.cell(xu).roots && c.cell(xu).refs == m.cell(xu).refs
                && c.cell(xu).data == m.cell(xu).data);
            assert(cc.slots[x] == Some(
                CellModel {
                    roots: c.cell(xu).roots,
                    marked: false,
                    refs: c.cell(xu).refs,
                    data: c.cell(xu).data,
                },
            ));
            assert(c.slots[x] == Some(
                CellModel {
                    roots: m.cell(xu).roots,
                    marked: false,
                    refs: m.cell(xu).refs,
                    data: m.cell(xu).data,
                },
            ));
        } else {
            assert(!(c.live(xu) && c.reachable(xu)));
            assert(cc.slots[x] is None && c.slots[x] is None);
        }
    }
    assert(cc.slots =~= c.slots);
    assert(cc =~= c);
}

/// No chain of steps reaches either member of an unreferenced, unrooted
/// two-cell cycle.
proof fn lemma_cycle_unreach_n<T>(m: StateModel<T>, a: usize, b: usize, n: nat)
    requires
        m.wf(),
        m.live(a),
        m.live(b),
        m.cell(a).roots == 0,
        m.cell(b).roots == 0,
        forall|j: usize, k: int|
            m.live(j) && j != a && j != b && 0 <= k < m.cell(j).refs.len() ==> #[trigger] m.cell(
                j,
            ).refs[k] != a && m.cell(j).refs[k] != b,
    ensures
        !m.reach_n(a, n),
        !m.reach_n(b, n),
    decreases n,
{
    if n == 0 {
    } else {
        lemma_cycle_unreach_n(m, a, b, (n - 1) as nat);
        if m.reach_n(a, n) {
            let j = choose|j: usize|
                m.reach_n(j, (n - 1) as nat) && m.live(j) && m.cell(j).refs.contains(a);
            let k = choose|k: int| 0 <= k < m.cell(j).refs.len() && m.cell(j).refs[k] == a;
            assert(j == a || j == b);
            assert(false);
        }
        if m.reach_n(b, n) {
            let j = choose|j: usize|
                m.reach_n(j, (n - 1) as nat) && m.live(j) && m.cell(j).refs.contains(b);
            let k = choose|k: int| 0 <= k < m.cell(j).refs.len() && m.cell(j).refs[k] == b;
            assert(j == a || j == b);
            assert(false);
        }
    }
}

/// An unreachable cycle is collected: when two live cells have root count
/// zero and no other live cell's payload names either of them, both are
/// unreachable, whatever handles they hold to each other, and one collection
/// destroys both.
pub proof fn lemma_unreachable_cycle_collected<T>(m: StateModel<T>, a: usize, b: usize)
    requires
        m.wf(),
        m.live(a),
        m.live(b),
        m.cell(a).roots == 0,
        m.cell(b).roots == 0,
        forall|j: usize, k: int|
            m.live(j) && j != a && j != b && 0 <= k < m.cell(j).refs.len() ==> #[trigger] m.cell(
                j,
            ).refs[k] != a && m.cell(j).refs[k] != b,
    ensures
        !m.reachable(a),
        !m.reachable(b),
        !m.collect_model().live(a),
        !m.collect_model().live(b),
{
    assert forall|n: nat| !m.reach_n(a, n) && !m.reach_n(b, n) by {
        lemma_cycle_unreach_n(m, a, b, n);
    }
}

} // verus!
