use vstd::prelude::*;

use crate::sim::transistor::{
    apply_drives, cells_within, feeds_in, full_order, is_sequential, keep_stored, last_feeder,
    lemma_propagate_idempotent, lemma_settle_len, lemma_sweep_len, lemma_unscheduled_bound,
    queued_before, reset_states, scheduled, settle, step, sweep, unscheduled, Cell, SignalGraph,
    SignalId, SignalState, TransistorId,
};

verus! {

/// No transistor of `cells` has `w` as its source or drain.
pub open spec fn untouched(cells: Seq<Cell>, w: int) -> bool {
    forall|t: int| 0 <= t < cells.len() ==> (#[trigger] cells[t]).2.0 != w && cells[t].3.0 != w
}

proof fn lemma_step_keeps(s: Seq<SignalState>, driven: Seq<Option<SignalState>>, c: Cell, w: int)
    requires
        c.2.0 < s.len(),
        c.3.0 < s.len(),
        c.2.0 != w,
        c.3.0 != w,
        0 <= w < s.len(),
    ensures
        step(s, driven, c)[w] == s[w],
{
}

proof fn lemma_sweep_keeps(
    s: Seq<SignalState>,
    driven: Seq<Option<SignalState>>,
    cells: Seq<Cell>,
    order: Seq<usize>,
    w: int,
)
    requires
        cells_within(cells, s.len()),
        forall|k: int| 0 <= k < order.len() ==> #[trigger] order[k] < cells.len(),
        untouched(cells, w),
        0 <= w < s.len(),
    ensures
        sweep(s, driven, cells, order)[w] == s[w],
    decreases order.len(),
{
    if order.len() > 0 {
        let o = order.drop_last();
        lemma_sweep_keeps(s, driven, cells, o, w);
        lemma_sweep_len(s, driven, cells, o);
        let c = cells[order.last() as int];
        assert(c.1.0 < s.len() && c.2.0 < s.len() && c.3.0 < s.len());
        lemma_step_keeps(sweep(s, driven, cells, o), driven, c, w);
    }
}

proof fn lemma_settle_keeps(
    s: Seq<SignalState>,
    driven: Seq<Option<SignalState>>,
    cells: Seq<Cell>,
    order: Seq<usize>,
    budget: nat,
    w: int,
)
    requires
        cells_within(cells, s.len()),
        forall|k: int| 0 <= k < order.len() ==> #[trigger] order[k] < cells.len(),
        untouched(cells, w),
        0 <= w < s.len(),
    ensures
        settle(s, driven, cells, order, budget)[w] == s[w],
    decreases budget,
{
    lemma_sweep_keeps(s, driven, cells, order, w);
    lemma_sweep_len(s, driven, cells, order);
    let next = sweep(s, driven, cells, order);
    if !(next == s || budget <= 1) {
        lemma_settle_keeps(next, driven, cells, order, (budget - 1) as nat, w);
    }
}

/// With no sequential wire, what a propagation leaves does not depend on
/// the wire states it starts from, only on how many wires there are: a
/// combinational circuit keeps no memory.
pub proof fn lemma_combinational_memoryless(g: SignalGraph, prev1: Seq<SignalState>, prev2: Seq<SignalState>)
    requires
        g.sequential@.len() == 0,
        prev1.len() == prev2.len(),
    ensures
        g.settled_from(prev1) == g.settled_from(prev2),
{
    let n = g.kinds@.len();
    let order = full_order(g.eval_order@, n);
    let budget = if unscheduled(g.eval_order@, n).len() > 0 { 4 * n } else { n + 1 };
    let driven = g.driven@;
    assert(reset_states(prev1, driven) =~= reset_states(prev2, driven));
    let st = settle(reset_states(prev1, driven), driven, g.cells(), order, budget);
    assert(keep_stored(st, prev1, g.sequential@) =~= st);
    assert(keep_stored(st, prev2, g.sequential@) =~= st);
}

/// A sequential wire that nothing drives, and that is the source or drain
/// of no transistor, comes out of a propagation in the state it went in
/// with: it holds its stored value, where a plain wire would float.
pub proof fn lemma_sequential_holds(g: SignalGraph, prev: Seq<SignalState>, id: SignalId)
    requires
        g.wires_ok(),
        g.order_ok(),
        prev.len() == g.signals@.len(),
        id.0 < prev.len(),
        g.sequential@.contains(id),
        g.driven@[id.0 as int] is None,
        forall|t: int| 0 <= t < g.kinds@.len() ==> (#[trigger] g.sources@[t]) != id && g.drains@[t] != id,
    ensures
        g.settled_from(prev)[id.0 as int] == prev[id.0 as int],
{
    let w = id.0 as int;
    let n = g.kinds@.len();
    let order = full_order(g.eval_order@, n);
    let budget = if unscheduled(g.eval_order@, n).len() > 0 { 4 * n } else { n + 1 };
    let cells = g.cells();
    let driven = g.driven@;
    let r0 = reset_states(prev, driven);
    assert(cells_within(cells, prev.len()));
    lemma_unscheduled_bound(g.eval_order@, n);
    assert forall|k: int| 0 <= k < order.len() implies #[trigger] order[k] < cells.len() by {
        let sched = g.eval_order@.map_values(|t: TransistorId| t.0);
        if k < sched.len() {
            assert(order[k] == g.eval_order@[k].0);
        } else {
            assert(order[k] == unscheduled(g.eval_order@, n)[k - sched.len()]);
        }
    }
    assert(untouched(cells, w)) by {
        assert forall|t: int| 0 <= t < cells.len() implies (#[trigger] cells[t]).2.0 != w
            && cells[t].3.0 != w by {
            assert(cells[t] == g.cell(t));
            assert(g.sources@[t] != id && g.drains@[t] != id);
        }
    }
    lemma_settle_keeps(r0, driven, cells, order, budget, w);
    lemma_settle_len(r0, driven, cells, order, budget);
    let st = settle(r0, driven, cells, order, budget);
    assert(st[w] == SignalState::Floating);
    let x = choose|x: int| 0 <= x < g.sequential@.len() && g.sequential@[x] == id;
    assert(is_sequential(g.sequential@, w)) by {
        assert(g.sequential@[x].0 == w);
    }
    let held = keep_stored(st, prev, g.sequential@);
    assert(held.len() == prev.len());
    assert(held[w] == prev[w]);
    let second = if held == st { st } else { settle(held, driven, cells, order, budget) };
    if held != st {
        lemma_settle_keeps(held, driven, cells, order, budget, w);
        lemma_settle_len(held, driven, cells, order, budget);
    }
    assert(second[w] == prev[w]);
    assert(w < second.len());
    assert(g.settled_from(prev) == apply_drives(second, driven));
    assert(apply_drives(second, driven)[w] == second[w]);
}

/// Past `m`, nothing in `o` feeds `j`: the last feeder below `k` is the
/// last one below `m`.
proof fn lemma_last_feeder_skip(gates: Seq<SignalId>, drains: Seq<SignalId>, o: Seq<TransistorId>, j: int, m: int, k: int)
    requires
        0 <= m <= k <= o.len(),
        forall|q: int| m <= q < k ==> !feeds_in(gates, drains, #[trigger] o[q].0 as int, j),
    ensures
        last_feeder(gates, drains, o, j, k) == last_feeder(gates, drains, o, j, m),
    decreases k,
{
    if k > m {
        lemma_last_feeder_skip(gates, drains, o, j, m, k - 1);
    }
}

/// Two orders that agree below `k` agree on the last feeder below `k`.
proof fn lemma_last_feeder_common(gates: Seq<SignalId>, drains: Seq<SignalId>, o1: Seq<TransistorId>, o2: Seq<TransistorId>, j: int, k: int)
    requires
        0 <= k <= o1.len(),
        k <= o2.len(),
        forall|x: int| 0 <= x < k ==> o1[x] == o2[x],
    ensures
        last_feeder(gates, drains, o1, j, k) == last_feeder(gates, drains, o2, j, k),
    decreases k,
{
    if k > 0 {
        lemma_last_feeder_common(gates, drains, o1, o2, j, k - 1);
        assert(o1[k - 1] == o2[k - 1]);
    }
}

/// Whatever one evaluation order of `g` holds, every other holds too.
proof fn lemma_scheduled_in(g: SignalGraph, o1: Seq<TransistorId>, o2: Seq<TransistorId>, k: int)
    requires
        g.is_schedule(o1),
        g.is_schedule(o2),
        0 <= k < o1.len(),
    ensures
        scheduled(o2, o1[k].0 as int),
    decreases k,
{
    let n = g.kinds@.len();
    let j = o1[k].0 as int;
    assert(j < n);
    if !scheduled(o2, j) {
        let i = choose|i: int| 0 <= i < n && #[trigger] g.feeds(i, j) && !scheduled(o2, i);
        assert(g.feeds(i, o1[k].0 as int));
        let k2 = choose|k2: int| 0 <= k2 < k && (#[trigger] o1[k2]).0 == i;
        lemma_scheduled_in(g, o1, o2, k2);
    }
}

/// Where two evaluation orders agree below `m`, the transistor at `m` in
/// the first has the same last feeder in both.
proof fn lemma_same_key(g: SignalGraph, o1: Seq<TransistorId>, o2: Seq<TransistorId>, m: int)
    requires
        g.is_schedule(o1),
        g.is_schedule(o2),
        0 <= m < o1.len(),
        m <= o2.len(),
        forall|x: int| 0 <= x < m ==> o1[x] == o2[x],
    ensures
        last_feeder(g.gates@, g.drains@, o1, o1[m].0 as int, o1.len() as int) == last_feeder(
            g.gates@,
            g.drains@,
            o2,
            o1[m].0 as int,
            o2.len() as int,
        ),
{
    let gates = g.gates@;
    let drains = g.drains@;
    let n = g.kinds@.len();
    let a = o1[m].0 as int;
    assert forall|q: int| m <= q < o1.len() implies !feeds_in(gates, drains, #[trigger] o1[q].0 as int, a) by {
        if feeds_in(gates, drains, o1[q].0 as int, a) {
            let i = o1[q].0 as int;
            assert(i < n);
            assert(g.feeds(i, o1[m].0 as int));
            let k2 = choose|k2: int| 0 <= k2 < m && (#[trigger] o1[k2]).0 == i;
            assert(o1[k2].0 != o1[q].0);
        }
    }
    assert forall|q: int| m <= q < o2.len() implies !feeds_in(gates, drains, #[trigger] o2[q].0 as int, a) by {
        if feeds_in(gates, drains, o2[q].0 as int, a) {
            let i = o2[q].0 as int;
            assert(i < n);
            assert(g.feeds(i, o1[m].0 as int));
            let k2 = choose|k2: int| 0 <= k2 < m && (#[trigger] o1[k2]).0 == i;
            assert(o2[k2] == o1[k2]);
            assert(o2[k2].0 != o2[q].0);
        }
    }
    lemma_last_feeder_skip(gates, drains, o1, a, m, o1.len() as int);
    lemma_last_feeder_skip(gates, drains, o2, a, m, o2.len() as int);
    lemma_last_feeder_common(gates, drains, o1, o2, a, m);
}

proof fn lemma_prefix_equal(g: SignalGraph, o1: Seq<TransistorId>, o2: Seq<TransistorId>, k: int)
    requires
        g.is_schedule(o1),
        g.is_queue_order(o1),
        g.is_schedule(o2),
        g.is_queue_order(o2),
        0 <= k <= o1.len(),
        k <= o2.len(),
    ensures
        forall|x: int| 0 <= x < k ==> o1[x] == o2[x],
    decreases k,
{
    if k > 0 {
        let m = k - 1;
        lemma_prefix_equal(g, o1, o2, m);
        let gates = g.gates@;
        let drains = g.drains@;
        let a = o1[m];
        let b = o2[m];
        if a != b {
            lemma_scheduled_in(g, o1, o2, m);
            lemma_scheduled_in(g, o2, o1, m);
            let ka = choose|x: int| 0 <= x < o2.len() && #[trigger] o2[x].0 == a.0 as int;
            let kb = choose|x: int| 0 <= x < o1.len() && #[trigger] o1[x].0 == b.0 as int;
            assert(ka > m) by {
                if ka < m {
                    assert(o1[ka] == o2[ka]);
                    assert(o1[ka].0 != o1[m].0);
                }
            }
            assert(kb > m) by {
                if kb < m {
                    assert(o1[kb] == o2[kb]);
                    assert(o2[kb].0 != o2[m].0);
                }
            }
            lemma_same_key(g, o1, o2, m);
            lemma_same_key(g, o2, o1, m);
            assert(queued_before(gates, drains, o1, m, kb));
            assert(queued_before(gates, drains, o2, m, ka));
        }
    }
}

/// Kahn's queue leaves no choice: two orders that are both evaluation
/// orders of `g` in the order Kahn's queue hands transistors out are the
/// same order.
pub proof fn lemma_kahn_order_unique(g: SignalGraph, o1: Seq<TransistorId>, o2: Seq<TransistorId>)
    requires
        g.is_schedule(o1),
        g.is_queue_order(o1),
        g.is_schedule(o2),
        g.is_queue_order(o2),
    ensures
        o1 == o2,
{
    let l = if o1.len() < o2.len() { o1.len() as int } else { o2.len() as int };
    lemma_prefix_equal(g, o1, o2, l);
    if o1.len() > l {
        lemma_scheduled_in(g, o1, o2, l);
        let x = choose|x: int| 0 <= x < o2.len() && #[trigger] o2[x].0 == o1[l].0 as int;
        assert(o1[x] == o2[x]);
        assert(o1[x].0 != o1[l].0);
    }
    if o2.len() > l {
        lemma_scheduled_in(g, o2, o1, l);
        let x = choose|x: int| 0 <= x < o1.len() && #[trigger] o1[x].0 == o2[l].0 as int;
        assert(o1[x] == o2[x]);
        assert(o2[x].0 != o2[l].0);
    }
    assert(o1 =~= o2);
}

/// A combinational circuit's settled wires depend only on its transistors
/// and drives: two graphs with the same transistors, the same drives and
/// no sequential wire, each left by a propagation (its evaluation order
/// rebuilt by Kahn's queue, or both kept the same), settle alike from any
/// wire states of the same size.
pub proof fn lemma_propagated_alike(f1: SignalGraph, f2: SignalGraph, prev1: Seq<SignalState>, prev2: Seq<SignalState>)
    requires
        f1.kinds@ == f2.kinds@,
        f1.gates@ == f2.gates@,
        f1.sources@ == f2.sources@,
        f1.drains@ == f2.drains@,
        f1.driven@ == f2.driven@,
        f1.sequential@.len() == 0,
        f2.sequential@.len() == 0,
        f1.eval_order@ == f2.eval_order@ || (f1.is_schedule(f1.eval_order@) && f1.is_queue_order(
            f1.eval_order@,
        ) && f2.is_schedule(f2.eval_order@) && f2.is_queue_order(f2.eval_order@)),
        prev1.len() == prev2.len(),
    ensures
        f1.settled_from(prev1) == f2.settled_from(prev2),
{
    if f1.eval_order@ != f2.eval_order@ {
        assert forall|i: int, j: int| #[trigger] f1.feeds(i, j) == f2.feeds(i, j) by {}
        let o2 = f2.eval_order@;
        assert forall|k: int, i: int|
            0 <= k < o2.len() && 0 <= i < f1.kinds@.len() && #[trigger] f1.feeds(i, o2[k].0 as int)
                implies exists|k2: int| 0 <= k2 < k && (#[trigger] o2[k2]).0 == i by {
            assert(f2.feeds(i, o2[k].0 as int));
        }
        assert forall|j: int| 0 <= j < f1.kinds@.len() && !scheduled(o2, j) implies exists|i: int|
            0 <= i < f1.kinds@.len() && #[trigger] f1.feeds(i, j) && !scheduled(o2, i) by {
            let i = choose|i: int| 0 <= i < f2.kinds@.len() && #[trigger] f2.feeds(i, j) && !scheduled(o2, i);
            assert(f1.feeds(i, j));
        }
        assert(f1.is_schedule(f2.eval_order@));
        assert(f1.is_queue_order(f2.eval_order@));
        lemma_kahn_order_unique(f1, f1.eval_order@, f2.eval_order@);
    }
    assert(f1.cells() =~= f2.cells());
    assert(f1.sequential@ =~= f2.sequential@);
    assert(f1.settled_from(prev1) == f2.settled_from(prev1));
    lemma_combinational_memoryless(f2, prev1, prev2);
}

/// A combinational circuit's settled wires depend only on its drives and
/// wiring: two graphs alike in everything but their wire states (of the
/// same number), with no sequential wire, are left by `propagate` with
/// the same wire states.
pub proof fn lemma_propagate_forgets(g1: SignalGraph, g2: SignalGraph, f1: SignalGraph, f2: SignalGraph)
    requires
        g1.can_propagate(),
        g2.can_propagate(),
        g1.driven@ == g2.driven@,
        g1.kinds@ == g2.kinds@,
        g1.gates@ == g2.gates@,
        g1.sources@ == g2.sources@,
        g1.drains@ == g2.drains@,
        g1.dirty == g2.dirty,
        g1.eval_order@ == g2.eval_order@,
        g1.sequential@.len() == 0,
        g2.sequential@.len() == 0,
        g1.signals@.len() == g2.signals@.len(),
        f1.propagated_from(g1),
        f2.propagated_from(g2),
    ensures
        f1.signals@ == f2.signals@,
{
    lemma_propagated_alike(f1, f2, g1.signals@, g2.signals@);
}

/// With no sequential wire, propagating again changes nothing: a graph
/// that `propagate` left, propagated once more, keeps its wire states and
/// evaluation order and stays clean.
pub proof fn lemma_propagate_again(g: SignalGraph, f1: SignalGraph, f2: SignalGraph)
    requires
        g.can_propagate(),
        g.sequential@.len() == 0,
        f1.propagated_from(g),
        f2.propagated_from(f1),
    ensures
        f2.signals@ == f1.signals@,
        f2.eval_order@ == f1.eval_order@,
        !f2.dirty,
{
    assert(f2.cells() =~= f1.cells());
    assert(f2.settled_from(f1.signals@) == f1.settled_from(f1.signals@));
    lemma_propagate_idempotent(f1, g.signals@);
}

/// A sequential wire keeps its state through `propagate` when nothing
/// drives it and no transistor has it as source or drain (a plain wire
/// would float).
pub proof fn lemma_propagate_holds(g: SignalGraph, f: SignalGraph, id: SignalId)
    requires
        g.can_propagate(),
        f.propagated_from(g),
        id.0 < g.signals@.len(),
        g.sequential@.contains(id),
        g.driven@[id.0 as int] is None,
        forall|t: int| 0 <= t < g.kinds@.len() ==> (#[trigger] g.sources@[t]) != id && g.drains@[t] != id,
    ensures
        f.signals@[id.0 as int] == g.signals@[id.0 as int],
{
    lemma_sequential_holds(f, g.signals@, id);
}

} // verus!
