use vstd::prelude::*;

use crate::sim::transistor::{
    and_cells, apply_drives, feeds_in, full_order, keep_stored, last_feeder, lemma_last_feeder_none,
    lemma_schedule_len, nand_cells, nor_cells, not_cells, or_cells, queued_before, reset_states, scheduled, settle, sig,
    step, sweep, unscheduled, Cell, SignalGraph, SignalId, SignalState, TransistorId,
};

verus! {

/// The wire state of a logic level.
pub open spec fn level(b: bool) -> SignalState {
    if b {
        SignalState::High
    } else {
        SignalState::Low
    }
}

/// Transistors `0 .. n` in index order.
pub open spec fn index_order(n: nat) -> Seq<TransistorId> {
    Seq::new(n, |i: int| TransistorId(i as usize))
}

proof fn lemma_increasing_from(o: Seq<TransistorId>, m: int)
    requires
        0 <= m < o.len(),
        forall|k1: int, k2: int| 0 <= k1 < k2 < o.len() ==> o[k1].0 < o[k2].0,
    ensures
        o[m].0 >= m,
    decreases m,
{
    if m > 0 {
        lemma_increasing_from(o, m - 1);
        assert(o[m - 1].0 < o[m].0);
    }
}

/// An increasing order holding every transistor below `n` starts `0, 1, ..`.
proof fn lemma_identity_prefix(o: Seq<TransistorId>, n: int, k: int)
    requires
        0 <= k < n,
        forall|k1: int, k2: int| 0 <= k1 < k2 < o.len() ==> o[k1].0 < o[k2].0,
        forall|v: int| 0 <= v < n ==> scheduled(o, v),
    ensures
        k < o.len(),
        o[k].0 == k,
    decreases k,
{
    assert forall|j: int| 0 <= j < k implies j < o.len() && o[j].0 == j by {
        lemma_identity_prefix(o, n, j);
    }
    assert(scheduled(o, k));
    let p = choose|p: int| 0 <= p < o.len() && #[trigger] o[p].0 == k;
    lemma_increasing_from(o, p);
    if p < k {
        assert(o[p].0 == p);
    }
}

/// When no transistor feeds another, Kahn's queue hands them out in index
/// order.
proof fn lemma_unfed_order(g: SignalGraph, n: nat)
    requires
        g.kinds@.len() == n,
        forall|i: int, j: int| 0 <= i < n && 0 <= j < n ==> !g.feeds(i, j),
        g.is_schedule(g.eval_order@),
        g.is_queue_order(g.eval_order@),
    ensures
        g.eval_order@ == index_order(n),
{
    let o = g.eval_order@;
    assert forall|j: int| 0 <= j < o.len() implies last_feeder(
        g.gates@,
        g.drains@,
        o,
        #[trigger] o[j].0 as int,
        o.len() as int,
    ) == -1 by {
        assert forall|q: int| 0 <= q < o.len() implies !feeds_in(
            g.gates@,
            g.drains@,
            #[trigger] o[q].0 as int,
            o[j].0 as int,
        ) by {
            assert(!g.feeds(o[q].0 as int, o[j].0 as int));
        }
        lemma_last_feeder_none(g.gates@, g.drains@, o, o[j].0 as int, o.len() as int);
    }
    assert forall|k1: int, k2: int| 0 <= k1 < k2 < o.len() implies o[k1].0 < o[k2].0 by {
        assert(queued_before(g.gates@, g.drains@, o, k1, k2));
        assert(last_feeder(g.gates@, g.drains@, o, o[k1].0 as int, o.len() as int) == -1);
        assert(last_feeder(g.gates@, g.drains@, o, o[k2].0 as int, o.len() as int) == -1);
    }
    assert forall|j: int| 0 <= j < n implies scheduled(o, j) by {
        if !scheduled(o, j) {
            let i = choose|i: int| 0 <= i < n && #[trigger] g.feeds(i, j) && !scheduled(o, i);
        }
    }
    assert forall|k: int| 0 <= k < n implies k < o.len() && o[k].0 == k by {
        lemma_identity_prefix(o, n as int, k);
    }
    assert(o.len() <= n) by {
        if o.len() > n {
            lemma_increasing_from(o, n as int);
            assert(o[n as int].0 < n);
        }
    }
    if n > 0 {
        lemma_identity_prefix(o, n as int, n - 1);
    }
    assert(o.len() == n);
    assert forall|k: int| 0 <= k < n implies o[k] == index_order(n)[k] by {
        assert(o[k].0 == k);
    }
    assert(o =~= index_order(n));
}

/// With every transistor in the order, no sequential wire and an
/// undriven wire `out`, what `propagate` leaves on `out` is what the
/// sweeps in index order settle it on.
proof fn lemma_settled_wire(g: SignalGraph, prev: Seq<SignalState>, out: int)
    requires
        g.cells().len() == g.kinds@.len(),
        g.kinds@.len() <= usize::MAX,
        g.eval_order@ == index_order(g.kinds@.len()),
        g.sequential@.len() == 0,
        0 <= out < prev.len(),
        g.driven@.len() == prev.len(),
        g.driven@[out] is None,
        settle(
            reset_states(prev, g.driven@),
            g.driven@,
            g.cells(),
            Seq::new(g.kinds@.len(), |i: int| i as usize),
            g.kinds@.len() + 1,
        ).len() == prev.len(),
    ensures
        g.settled_from(prev)[out] == settle(
            reset_states(prev, g.driven@),
            g.driven@,
            g.cells(),
            Seq::new(g.kinds@.len(), |i: int| i as usize),
            g.kinds@.len() + 1,
        )[out],
{
    let n = g.kinds@.len();
    let o = g.eval_order@;
    assert forall|k: nat| k <= n implies #[trigger] unscheduled(o, k) == Seq::<usize>::empty() by {
        lemma_none_unscheduled(o, n, k);
    }
    assert(full_order(o, n) =~= Seq::new(n, |i: int| i as usize));
    let st = settle(reset_states(prev, g.driven@), g.driven@, g.cells(), Seq::new(n, |i: int| i as usize), n + 1);
    assert(keep_stored(st, prev, g.sequential@) =~= st);
    assert(g.settled_from(prev) == apply_drives(keep_stored(st, prev, g.sequential@), g.driven@));
    assert(keep_stored(st, prev, g.sequential@)[out] == st[out]);
}

proof fn lemma_none_unscheduled(o: Seq<TransistorId>, n: nat, k: nat)
    requires
        o == index_order(n),
        k <= n <= usize::MAX,
    ensures
        unscheduled(o, k) == Seq::<usize>::empty(),
    decreases k,
{
    if k > 0 {
        lemma_none_unscheduled(o, n, (k - 1) as nat);
        assert(o[k - 1].0 == k - 1);
        assert(scheduled(o, k - 1));
    }
}

/// A sweep over two transistors in index order.
proof fn lemma_sweep2(s: Seq<SignalState>, d: Seq<Option<SignalState>>, cells: Seq<Cell>)
    ensures
        sweep(s, d, cells, seq![0usize, 1usize]) == step(step(s, d, cells[0]), d, cells[1]),
{
    let o = seq![0usize, 1usize];
    assert(o.drop_last() =~= seq![0usize]);
    assert(o.drop_last().drop_last() =~= Seq::<usize>::empty());
    reveal_with_fuel(sweep, 3);
}

/// A sweep over four transistors in index order.
proof fn lemma_sweep4(s: Seq<SignalState>, d: Seq<Option<SignalState>>, cells: Seq<Cell>)
    ensures
        sweep(s, d, cells, seq![0usize, 1usize, 2usize, 3usize]) == step(
            step(step(step(s, d, cells[0]), d, cells[1]), d, cells[2]),
            d,
            cells[3],
        ),
{
    let o = seq![0usize, 1usize, 2usize, 3usize];
    assert(o.drop_last() =~= seq![0usize, 1usize, 2usize]);
    assert(o.drop_last().drop_last() =~= seq![0usize, 1usize]);
    assert(o.drop_last().drop_last().drop_last() =~= seq![0usize]);
    assert(o.drop_last().drop_last().drop_last().drop_last() =~= Seq::<usize>::empty());
    reveal_with_fuel(sweep, 5);
}

/// The wires with both rails driven and two inputs at levels `x` and `y`,
/// before a propagation: the output and its link float.
pub open spec fn two_input_start(x: bool, y: bool) -> Seq<SignalState> {
    seq![SignalState::High, SignalState::Low, level(x), level(y), SignalState::Floating, SignalState::Floating]
}

pub open spec fn two_input_drives(x: bool, y: bool) -> Seq<Option<SignalState>> {
    seq![Some(SignalState::High), Some(SignalState::Low), Some(level(x)), Some(level(y)), None, None]
}

/// The graph `new` makes, with two signals added and a NAND gate on them:
/// rails 0 and 1, inputs 2 and 3, output 4, the NMOS link 5.
pub open spec fn lone_nand(g: SignalGraph) -> bool {
    &&& g.wf()
    &&& g.cells() == nand_cells(SignalId(2), SignalId(3), 4)
    &&& g.signals@.len() == 6
    &&& g.sequential@.len() == 0
}

/// The graph `new` makes, with two signals added and a NOR gate on them:
/// rails 0 and 1, inputs 2 and 3, output 4, the PMOS link 5.
pub open spec fn lone_nor(g: SignalGraph) -> bool {
    &&& g.wf()
    &&& g.cells() == nor_cells(SignalId(2), SignalId(3), 4)
    &&& g.signals@.len() == 6
    &&& g.sequential@.len() == 0
}

/// The graph `new` makes, with one signal added and a NOT gate on it:
/// rails 0 and 1, input 2, output 3.
pub open spec fn lone_not(g: SignalGraph) -> bool {
    &&& g.wf()
    &&& g.cells() == not_cells(SignalId(2), 3)
    &&& g.signals@.len() == 4
    &&& g.sequential@.len() == 0
}

proof fn lemma_nand_settles(x: bool, y: bool)
    ensures
        settle(
            two_input_start(x, y),
            two_input_drives(x, y),
            nand_cells(SignalId(2), SignalId(3), 4),
            seq![0usize, 1usize, 2usize, 3usize],
            5,
        )[4] == level(!(x && y)),
        settle(
            two_input_start(x, y),
            two_input_drives(x, y),
            nand_cells(SignalId(2), SignalId(3), 4),
            seq![0usize, 1usize, 2usize, 3usize],
            5,
        ).len() == 6,
{
    let H = SignalState::High;
    let L = SignalState::Low;
    let F = SignalState::Floating;
    let d = two_input_drives(x, y);
    let cells = nand_cells(SignalId(2), SignalId(3), 4);
    let o = seq![0usize, 1usize, 2usize, 3usize];
    let s0 = two_input_start(x, y);
    lemma_sweep4(s0, d, cells);
    if x && y {
        let s1 = seq![H, L, H, H, F, L];
        let s2 = seq![H, L, H, H, L, L];
        assert(sweep(s0, d, cells, o) =~= s1);
        lemma_sweep4(s1, d, cells);
        assert(sweep(s1, d, cells, o) =~= s2);
        lemma_sweep4(s2, d, cells);
        assert(sweep(s2, d, cells, o) =~= s2);
        assert(s1 != s0) by {
            assert(s1[5] != s0[5]);
        }
        assert(s2 != s1) by {
            assert(s2[4] != s1[4]);
        }
        assert(settle(s2, d, cells, o, 3) == s2);
        assert(settle(s1, d, cells, o, 4) == settle(s2, d, cells, o, 3));
        assert(settle(s0, d, cells, o, 5) == settle(s1, d, cells, o, 4));
    } else {
        let s1 = if !x && !y {
            seq![H, L, L, L, H, F]
        } else if !x {
            seq![H, L, L, H, H, L]
        } else {
            seq![H, L, H, L, H, H]
        };
        assert(sweep(s0, d, cells, o) =~= s1);
        lemma_sweep4(s1, d, cells);
        assert(sweep(s1, d, cells, o) =~= s1);
        assert(s1 != s0) by {
            assert(s1[4] != s0[4]);
        }
        assert(settle(s1, d, cells, o, 4) == s1);
        assert(settle(s0, d, cells, o, 5) == settle(s1, d, cells, o, 4));
    }
}

proof fn lemma_nor_settles(x: bool, y: bool)
    ensures
        settle(
            two_input_start(x, y),
            two_input_drives(x, y),
            nor_cells(SignalId(2), SignalId(3), 4),
            seq![0usize, 1usize, 2usize, 3usize],
            5,
        )[4] == level(!(x || y)),
        settle(
            two_input_start(x, y),
            two_input_drives(x, y),
            nor_cells(SignalId(2), SignalId(3), 4),
            seq![0usize, 1usize, 2usize, 3usize],
            5,
        ).len() == 6,
{
    let H = SignalState::High;
    let L = SignalState::Low;
    let F = SignalState::Floating;
    let d = two_input_drives(x, y);
    let cells = nor_cells(SignalId(2), SignalId(3), 4);
    let o = seq![0usize, 1usize, 2usize, 3usize];
    let s0 = two_input_start(x, y);
    lemma_sweep4(s0, d, cells);
    if x && !y {
        let s1 = seq![H, L, H, L, L, F];
        let s2 = seq![H, L, H, L, L, L];
        assert(sweep(s0, d, cells, o) =~= s1);
        lemma_sweep4(s1, d, cells);
        assert(sweep(s1, d, cells, o) =~= s2);
        lemma_sweep4(s2, d, cells);
        assert(sweep(s2, d, cells, o) =~= s2);
        assert(s1 != s0) by {
            assert(s1[4] != s0[4]);
        }
        assert(s2 != s1) by {
            assert(s2[5] != s1[5]);
        }
        assert(settle(s2, d, cells, o, 3) == s2);
        assert(settle(s1, d, cells, o, 4) == settle(s2, d, cells, o, 3));
        assert(settle(s0, d, cells, o, 5) == settle(s1, d, cells, o, 4));
    } else {
        let s1 = if !x && !y {
            seq![H, L, L, L, H, H]
        } else if !x {
            seq![H, L, L, H, L, H]
        } else {
            seq![H, L, H, H, L, F]
        };
        assert(sweep(s0, d, cells, o) =~= s1);
        lemma_sweep4(s1, d, cells);
        assert(sweep(s1, d, cells, o) =~= s1);
        assert(s1 != s0) by {
            assert(s1[4] != s0[4]);
        }
        assert(settle(s1, d, cells, o, 4) == s1);
        assert(settle(s0, d, cells, o, 5) == settle(s1, d, cells, o, 4));
    }
}

proof fn lemma_not_settles(x: bool)
    ensures
        settle(
            seq![SignalState::High, SignalState::Low, level(x), SignalState::Floating],
            seq![Some(SignalState::High), Some(SignalState::Low), Some(level(x)), None],
            not_cells(SignalId(2), 3),
            seq![0usize, 1usize],
            3,
        )[3] == level(!x),
        settle(
            seq![SignalState::High, SignalState::Low, level(x), SignalState::Floating],
            seq![Some(SignalState::High), Some(SignalState::Low), Some(level(x)), None],
            not_cells(SignalId(2), 3),
            seq![0usize, 1usize],
            3,
        ).len() == 4,
{
    let H = SignalState::High;
    let L = SignalState::Low;
    let F = SignalState::Floating;
    let d = seq![Some(H), Some(L), Some(level(x)), None];
    let cells = not_cells(SignalId(2), 3);
    let o = seq![0usize, 1usize];
    let s0 = seq![H, L, level(x), F];
    let s1 = seq![H, L, level(x), level(!x)];
    lemma_sweep2(s0, d, cells);
    assert(sweep(s0, d, cells, o) =~= s1);
    lemma_sweep2(s1, d, cells);
    assert(sweep(s1, d, cells, o) =~= s1);
    assert(s1 != s0) by {
        assert(s1[3] != s0[3]);
    }
    assert(settle(s1, d, cells, o, 2) == s1);
    assert(settle(s0, d, cells, o, 3) == settle(s1, d, cells, o, 2));
}

/// A NAND gate computes NAND. On the graph that `new`, two `add_signal`s
/// and `nand` on those two signals build (inputs 2 and 3, output 4), with
/// both inputs driven High or Low, the wire states `propagate` settles in
/// (from any previous states, with the evaluation order it builds) leave
/// the output Low exactly when both inputs are High.
pub proof fn lemma_nand_truth_table(g: SignalGraph, prev: Seq<SignalState>, x: bool, y: bool)
    requires
        lone_nand(g),
        g.driven@ == two_input_drives(x, y),
        g.is_schedule(g.eval_order@),
        g.is_queue_order(g.eval_order@),
        prev.len() == 6,
    ensures
        g.settled_from(prev)[4] == level(!(x && y)),
{
    let cells = nand_cells(SignalId(2), SignalId(3), 4);
    assert(g.cells().len() == g.kinds@.len());
    assert forall|i: int, j: int| 0 <= i < 4 && 0 <= j < 4 implies !g.feeds(i, j) by {
        assert(g.cells()[i] == cells[i]);
        assert(g.cells()[j] == cells[j]);
    }
    lemma_unfed_order(g, 4);
    assert(reset_states(prev, g.driven@) =~= two_input_start(x, y));
    assert(Seq::new(4, |i: int| i as usize) =~= seq![0usize, 1usize, 2usize, 3usize]);
    lemma_nand_settles(x, y);
    lemma_settled_wire(g, prev, 4);
}

/// A NOR gate computes NOR. On the graph that `new`, two `add_signal`s and
/// `nor` on those two signals build (inputs 2 and 3, output 4), with both
/// inputs driven High or Low, the wire states `propagate` settles in leave
/// the output High exactly when both inputs are Low.
pub proof fn lemma_nor_truth_table(g: SignalGraph, prev: Seq<SignalState>, x: bool, y: bool)
    requires
        lone_nor(g),
        g.driven@ == two_input_drives(x, y),
        g.is_schedule(g.eval_order@),
        g.is_queue_order(g.eval_order@),
        prev.len() == 6,
    ensures
        g.settled_from(prev)[4] == level(!(x || y)),
{
    let cells = nor_cells(SignalId(2), SignalId(3), 4);
    assert(g.cells().len() == g.kinds@.len());
    assert forall|i: int, j: int| 0 <= i < 4 && 0 <= j < 4 implies !g.feeds(i, j) by {
        assert(g.cells()[i] == cells[i]);
        assert(g.cells()[j] == cells[j]);
    }
    lemma_unfed_order(g, 4);
    assert(reset_states(prev, g.driven@) =~= two_input_start(x, y));
    assert(Seq::new(4, |i: int| i as usize) =~= seq![0usize, 1usize, 2usize, 3usize]);
    lemma_nor_settles(x, y);
    lemma_settled_wire(g, prev, 4);
}

/// A NOT gate inverts. On the graph that `new`, one `add_signal` and `not`
/// on that signal build (input 2, output 3), with the input driven High or
/// Low, the wire states `propagate` settles in put the output at the other
/// level.
pub proof fn lemma_not_truth_table(g: SignalGraph, prev: Seq<SignalState>, x: bool)
    requires
        lone_not(g),
        g.driven@ == seq![Some(SignalState::High), Some(SignalState::Low), Some(level(x)), None],
        g.is_schedule(g.eval_order@),
        g.is_queue_order(g.eval_order@),
        prev.len() == 4,
    ensures
        g.settled_from(prev)[3] == level(!x),
{
    let cells = not_cells(SignalId(2), 3);
    assert(g.cells().len() == g.kinds@.len());
    assert forall|i: int, j: int| 0 <= i < 2 && 0 <= j < 2 implies !g.feeds(i, j) by {
        assert(g.cells()[i] == cells[i]);
        assert(g.cells()[j] == cells[j]);
    }
    lemma_unfed_order(g, 2);
    assert(reset_states(prev, g.driven@) =~= seq![
        SignalState::High,
        SignalState::Low,
        level(x),
        SignalState::Floating,
    ]);
    assert(Seq::new(2, |i: int| i as usize) =~= seq![0usize, 1usize]);
    lemma_not_settles(x);
    lemma_settled_wire(g, prev, 3);
}


/// A feeder at position `p` below `k` puts the last feeder at `p` or later.
pub(crate) proof fn lemma_last_feeder_at_least(gates: Seq<SignalId>, drains: Seq<SignalId>, o: Seq<TransistorId>, j: int, p: int, k: int)
    requires
        0 <= p < k <= o.len(),
        feeds_in(gates, drains, o[p].0 as int, j),
    ensures
        last_feeder(gates, drains, o, j, k) >= p,
    decreases k,
{
    if k - 1 > p && !feeds_in(gates, drains, o[k - 1].0 as int, j) {
        lemma_last_feeder_at_least(gates, drains, o, j, p, k - 1);
    }
}

/// Two transistors on the same gate wire have the same last feeder.
pub(crate) proof fn lemma_last_feeder_same_wire(gates: Seq<SignalId>, drains: Seq<SignalId>, o: Seq<TransistorId>, j1: int, j2: int, k: int)
    requires
        gates[j1] == gates[j2],
    ensures
        last_feeder(gates, drains, o, j1, k) == last_feeder(gates, drains, o, j2, k),
    decreases k,
{
    if 0 < k <= o.len() {
        lemma_last_feeder_same_wire(gates, drains, o, j1, j2, k - 1);
    }
}

/// The graph `new` makes, with two signals added and an AND gate on them:
/// rails 0 and 1, inputs 2 and 3, the NAND's output 4 and link 5, the
/// output 6.
pub open spec fn lone_and(g: SignalGraph) -> bool {
    &&& g.wf()
    &&& g.cells() == and_cells(SignalId(2), SignalId(3), 4)
    &&& g.signals@.len() == 7
    &&& g.sequential@.len() == 0
}

/// Six transistors where only the first four feed, and only the last two
/// (on one gate wire) are fed: Kahn's queue hands out the first four in
/// index order, then the last two.
proof fn lemma_two_stage_order(g: SignalGraph, f: int)
    requires
        g.wf(),
        g.kinds@.len() == 6,
        forall|i: int, j: int| 0 <= i < 6 && 0 <= j < 6 && #[trigger] g.feeds(i, j) ==> i < 4 && 4 <= j,
        0 <= f < 4,
        g.feeds(f, 4),
        g.gates@[4] == g.gates@[5],
        g.is_schedule(g.eval_order@),
        g.is_queue_order(g.eval_order@),
    ensures
        g.eval_order@ == index_order(6),
{
    let o = g.eval_order@;
    let gates = g.gates@;
    let drains = g.drains@;
    // every transistor is scheduled
    assert forall|j: int| 0 <= j < 4 implies scheduled(o, j) by {
        if !scheduled(o, j) {
            let i = choose|i: int| 0 <= i < 6 && #[trigger] g.feeds(i, j) && !scheduled(o, i);
        }
    }
    assert forall|j: int| 4 <= j < 6 implies scheduled(o, j) by {
        if !scheduled(o, j) {
            let i = choose|i: int| 0 <= i < 6 && #[trigger] g.feeds(i, j) && !scheduled(o, i);
            assert(scheduled(o, i));
        }
    }
    lemma_schedule_len(o, 6);
    assert(scheduled(o, 0) && scheduled(o, 1) && scheduled(o, 2) && scheduled(o, 3));
    assert(scheduled(o, 4) && scheduled(o, 5) && scheduled(o, f));
    let p0 = choose|k: int| 0 <= k < o.len() && #[trigger] o[k].0 == 0;
    let p1 = choose|k: int| 0 <= k < o.len() && #[trigger] o[k].0 == 1;
    let p2 = choose|k: int| 0 <= k < o.len() && #[trigger] o[k].0 == 2;
    let p3 = choose|k: int| 0 <= k < o.len() && #[trigger] o[k].0 == 3;
    let p4 = choose|k: int| 0 <= k < o.len() && #[trigger] o[k].0 == 4;
    let p5 = choose|k: int| 0 <= k < o.len() && #[trigger] o[k].0 == 5;
    let pf = choose|k: int| 0 <= k < o.len() && #[trigger] o[k].0 == f;
    let len = o.len() as int;
    // the first four have no feeder, the last two one at least
    assert forall|v: int| 0 <= v < 4 implies last_feeder(gates, drains, o, v, len) == -1 by {
        assert forall|q: int| 0 <= q < len implies !feeds_in(gates, drains, #[trigger] o[q].0 as int, v) by {
            assert(!g.feeds(o[q].0 as int, v));
        }
        lemma_last_feeder_none(gates, drains, o, v, len);
    }
    assert(feeds_in(gates, drains, o[pf].0 as int, 4));
    lemma_last_feeder_at_least(gates, drains, o, 4, pf, len);
    lemma_last_feeder_same_wire(gates, drains, o, 4, 5, len);
    // the queue order fixes the positions
    assert(p0 < p1) by {
        if p1 < p0 {
            assert(queued_before(gates, drains, o, p1, p0));
        }
    }
    assert(p1 < p2) by {
        if p2 < p1 {
            assert(queued_before(gates, drains, o, p2, p1));
        }
    }
    assert(p2 < p3) by {
        if p3 < p2 {
            assert(queued_before(gates, drains, o, p3, p2));
        }
    }
    assert(p3 < p4) by {
        if p4 < p3 {
            assert(queued_before(gates, drains, o, p4, p3));
        }
    }
    assert(p4 < p5) by {
        if p5 < p4 {
            assert(queued_before(gates, drains, o, p5, p4));
        }
    }
    assert(o.len() == 6);
    assert(p0 == 0 && p1 == 1 && p2 == 2 && p3 == 3 && p4 == 4 && p5 == 5);
    assert forall|k: int| 0 <= k < 6 implies o[k] == index_order(6)[k] by {}
    assert(o =~= index_order(6));
}

/// The NAND's transistors come first, in index order, then the NOT's: the
/// NOT is queued once the NAND's transistors that drain into its gate are
/// taken.
proof fn lemma_and_order(g: SignalGraph)
    requires
        lone_and(g),
        g.is_schedule(g.eval_order@),
        g.is_queue_order(g.eval_order@),
    ensures
        g.eval_order@ == index_order(6),
{
    let cells = and_cells(SignalId(2), SignalId(3), 4);
    assert(g.cells().len() == g.kinds@.len());
    assert forall|i: int| 0 <= i < 6 implies #[trigger] g.cells()[i] == cells[i] by {}
    assert forall|i: int, j: int| 0 <= i < 6 && 0 <= j < 6 && #[trigger] g.feeds(i, j) implies i < 4 && 4 <= j by {
        assert(g.cells()[i] == cells[i]);
        assert(g.cells()[j] == cells[j]);
    }
    assert(g.feeds(0, 4) && g.gates@[4] == g.gates@[5]) by {
        assert(g.cells()[0] == cells[0]);
        assert(g.cells()[4] == cells[4]);
        assert(g.cells()[5] == cells[5]);
    }
    lemma_two_stage_order(g, 0);
}

/// The graph `new` makes, with two signals added and an OR gate (NOR then
/// NOT) on them: rails 0 and 1, inputs 2 and 3, the NOR's output 4 and
/// link 5, the output 6.
pub open spec fn lone_or(g: SignalGraph) -> bool {
    &&& g.wf()
    &&& g.cells() == or_cells(SignalId(2), SignalId(3), true, 4)
    &&& g.signals@.len() == 7
    &&& g.sequential@.len() == 0
}

proof fn lemma_or_order(g: SignalGraph)
    requires
        lone_or(g),
        g.is_schedule(g.eval_order@),
        g.is_queue_order(g.eval_order@),
    ensures
        g.eval_order@ == index_order(6),
{
    let cells = or_cells(SignalId(2), SignalId(3), true, 4);
    assert(g.cells().len() == g.kinds@.len());
    assert forall|i: int| 0 <= i < 6 implies #[trigger] g.cells()[i] == cells[i] by {}
    assert forall|i: int, j: int| 0 <= i < 6 && 0 <= j < 6 && #[trigger] g.feeds(i, j) implies i < 4 && 4 <= j by {
        assert(g.cells()[i] == cells[i]);
        assert(g.cells()[j] == cells[j]);
    }
    assert(g.feeds(1, 4) && g.gates@[4] == g.gates@[5]) by {
        assert(g.cells()[1] == cells[1]);
        assert(g.cells()[4] == cells[4]);
        assert(g.cells()[5] == cells[5]);
    }
    lemma_two_stage_order(g, 1);
}

/// A sweep over six transistors in index order.
proof fn lemma_sweep6(s: Seq<SignalState>, d: Seq<Option<SignalState>>, cells: Seq<Cell>)
    ensures
        sweep(s, d, cells, seq![0usize, 1usize, 2usize, 3usize, 4usize, 5usize]) == step(
            step(step(step(step(step(s, d, cells[0]), d, cells[1]), d, cells[2]), d, cells[3]), d, cells[4]),
            d,
            cells[5],
        ),
{
    let o = seq![0usize, 1usize, 2usize, 3usize, 4usize, 5usize];
    assert(o.drop_last() =~= seq![0usize, 1usize, 2usize, 3usize, 4usize]);
    assert(o.drop_last().drop_last() =~= seq![0usize, 1usize, 2usize, 3usize]);
    assert(o.drop_last().drop_last().drop_last() =~= seq![0usize, 1usize, 2usize]);
    assert(o.drop_last().drop_last().drop_last().drop_last() =~= seq![0usize, 1usize]);
    assert(o.drop_last().drop_last().drop_last().drop_last().drop_last() =~= seq![0usize]);
    assert(o.drop_last().drop_last().drop_last().drop_last().drop_last().drop_last() =~= Seq::<usize>::empty());
    reveal_with_fuel(sweep, 7);
}

pub open spec fn and_start(x: bool, y: bool) -> Seq<SignalState> {
    two_input_start(x, y).push(SignalState::Floating)
}

pub open spec fn and_drives(x: bool, y: bool) -> Seq<Option<SignalState>> {
    two_input_drives(x, y).push(None)
}

proof fn lemma_and_settles(x: bool, y: bool)
    ensures
        settle(
            and_start(x, y),
            and_drives(x, y),
            and_cells(SignalId(2), SignalId(3), 4),
            seq![0usize, 1usize, 2usize, 3usize, 4usize, 5usize],
            7,
        )[6] == level(x && y),
        settle(
            and_start(x, y),
            and_drives(x, y),
            and_cells(SignalId(2), SignalId(3), 4),
            seq![0usize, 1usize, 2usize, 3usize, 4usize, 5usize],
            7,
        ).len() == 7,
{
    let H = SignalState::High;
    let L = SignalState::Low;
    let F = SignalState::Floating;
    let d = and_drives(x, y);
    let cells = and_cells(SignalId(2), SignalId(3), 4);
    assert(cells =~= seq![
        (crate::sim::transistor::TransistorKind::PMOS, SignalId(2), sig(0), sig(4)),
        (crate::sim::transistor::TransistorKind::PMOS, SignalId(3), sig(0), sig(4)),
        (crate::sim::transistor::TransistorKind::NMOS, SignalId(2), sig(5), sig(4)),
        (crate::sim::transistor::TransistorKind::NMOS, SignalId(3), sig(1), sig(5)),
        (crate::sim::transistor::TransistorKind::PMOS, sig(4), sig(0), sig(6)),
        (crate::sim::transistor::TransistorKind::NMOS, sig(4), sig(1), sig(6)),
    ]);
    let o = seq![0usize, 1usize, 2usize, 3usize, 4usize, 5usize];
    let s0 = and_start(x, y);
    assert(s0 =~= seq![H, L, level(x), level(y), F, F, F]);
    assert(d =~= seq![Some(H), Some(L), Some(level(x)), Some(level(y)), None, None, None]);
    lemma_sweep6(s0, d, cells);
    if x && y {
        let s1 = seq![H, L, H, H, F, L, F];
        let s2 = seq![H, L, H, H, L, L, H];
        assert(sweep(s0, d, cells, o) =~= s1);
        lemma_sweep6(s1, d, cells);
        assert(sweep(s1, d, cells, o) =~= s2);
        lemma_sweep6(s2, d, cells);
        assert(sweep(s2, d, cells, o) =~= s2);
        assert(s1 != s0) by {
            assert(s1[5] != s0[5]);
        }
        assert(s2 != s1) by {
            assert(s2[4] != s1[4]);
        }
        assert(settle(s2, d, cells, o, 5) == s2);
        assert(settle(s1, d, cells, o, 6) == settle(s2, d, cells, o, 5));
        assert(settle(s0, d, cells, o, 7) == settle(s1, d, cells, o, 6));
    } else {
        let s1 = if !x && !y {
            seq![H, L, L, L, H, F, L]
        } else if !x {
            seq![H, L, L, H, H, L, L]
        } else {
            seq![H, L, H, L, H, H, L]
        };
        assert(sweep(s0, d, cells, o) =~= s1);
        lemma_sweep6(s1, d, cells);
        assert(sweep(s1, d, cells, o) =~= s1);
        assert(s1 != s0) by {
            assert(s1[4] != s0[4]);
        }
        assert(settle(s1, d, cells, o, 6) == s1);
        assert(settle(s0, d, cells, o, 7) == settle(s1, d, cells, o, 6));
    }
}

/// An AND gate computes AND. On the graph that `new`, two `add_signal`s and
/// `and` on those two signals build (inputs 2 and 3, output 6), with both
/// inputs driven High or Low, the wire states `propagate` settles in (with
/// the evaluation order it builds: the NAND's transistors, then the NOT's)
/// leave the output High exactly when both inputs are High.
pub proof fn lemma_and_truth_table(g: SignalGraph, prev: Seq<SignalState>, x: bool, y: bool)
    requires
        lone_and(g),
        g.driven@ == and_drives(x, y),
        g.is_schedule(g.eval_order@),
        g.is_queue_order(g.eval_order@),
        prev.len() == 7,
    ensures
        g.settled_from(prev)[6] == level(x && y),
{
    assert(g.cells().len() == g.kinds@.len());
    lemma_and_order(g);
    assert(reset_states(prev, g.driven@) =~= and_start(x, y));
    assert(Seq::new(6, |i: int| i as usize) =~= seq![0usize, 1usize, 2usize, 3usize, 4usize, 5usize]);
    lemma_and_settles(x, y);
    lemma_settled_wire(g, prev, 6);
}


proof fn lemma_or_settles(x: bool, y: bool)
    ensures
        settle(
            and_start(x, y),
            and_drives(x, y),
            or_cells(SignalId(2), SignalId(3), true, 4),
            seq![0usize, 1usize, 2usize, 3usize, 4usize, 5usize],
            7,
        )[6] == level(x || y),
        settle(
            and_start(x, y),
            and_drives(x, y),
            or_cells(SignalId(2), SignalId(3), true, 4),
            seq![0usize, 1usize, 2usize, 3usize, 4usize, 5usize],
            7,
        ).len() == 7,
{
    let H = SignalState::High;
    let L = SignalState::Low;
    let F = SignalState::Floating;
    let d = and_drives(x, y);
    let cells = or_cells(SignalId(2), SignalId(3), true, 4);
    assert(cells =~= seq![
        (crate::sim::transistor::TransistorKind::PMOS, SignalId(2), sig(0), sig(5)),
        (crate::sim::transistor::TransistorKind::PMOS, SignalId(3), sig(5), sig(4)),
        (crate::sim::transistor::TransistorKind::NMOS, SignalId(2), sig(1), sig(4)),
        (crate::sim::transistor::TransistorKind::NMOS, SignalId(3), sig(1), sig(4)),
        (crate::sim::transistor::TransistorKind::PMOS, sig(4), sig(0), sig(6)),
        (crate::sim::transistor::TransistorKind::NMOS, sig(4), sig(1), sig(6)),
    ]);
    let o = seq![0usize, 1usize, 2usize, 3usize, 4usize, 5usize];
    let s0 = and_start(x, y);
    assert(s0 =~= seq![H, L, level(x), level(y), F, F, F]);
    assert(d =~= seq![Some(H), Some(L), Some(level(x)), Some(level(y)), None, None, None]);
    lemma_sweep6(s0, d, cells);
    if x && !y {
        let s1 = seq![H, L, H, L, L, F, H];
        let s2 = seq![H, L, H, L, L, L, H];
        assert(sweep(s0, d, cells, o) =~= s1);
        lemma_sweep6(s1, d, cells);
        assert(sweep(s1, d, cells, o) =~= s2);
        lemma_sweep6(s2, d, cells);
        assert(sweep(s2, d, cells, o) =~= s2);
        assert(s1 != s0) by {
            assert(s1[4] != s0[4]);
        }
        assert(s2 != s1) by {
            assert(s2[5] != s1[5]);
        }
        assert(settle(s2, d, cells, o, 5) == s2);
        assert(settle(s1, d, cells, o, 6) == settle(s2, d, cells, o, 5));
        assert(settle(s0, d, cells, o, 7) == settle(s1, d, cells, o, 6));
    } else {
        let s1 = if !x && !y {
            seq![H, L, L, L, H, H, L]
        } else if !x {
            seq![H, L, L, H, L, H, H]
        } else {
            seq![H, L, H, H, L, F, H]
        };
        assert(sweep(s0, d, cells, o) =~= s1);
        lemma_sweep6(s1, d, cells);
        assert(sweep(s1, d, cells, o) =~= s1);
        assert(s1 != s0) by {
            assert(s1[4] != s0[4]);
        }
        assert(settle(s1, d, cells, o, 6) == s1);
        assert(settle(s0, d, cells, o, 7) == settle(s1, d, cells, o, 6));
    }
}

/// An OR gate computes OR. On the graph that `new`, two `add_signal`s and
/// `or` on those two signals build in its small form (NOR then NOT; inputs
/// 2 and 3, output 6), with both inputs driven High or Low, the wire states
/// `propagate` settles in leave the output Low exactly when both inputs
/// are Low.
pub proof fn lemma_or_truth_table(g: SignalGraph, prev: Seq<SignalState>, x: bool, y: bool)
    requires
        lone_or(g),
        g.driven@ == and_drives(x, y),
        g.is_schedule(g.eval_order@),
        g.is_queue_order(g.eval_order@),
        prev.len() == 7,
    ensures
        g.settled_from(prev)[6] == level(x || y),
{
    assert(g.cells().len() == g.kinds@.len());
    lemma_or_order(g);
    assert(reset_states(prev, g.driven@) =~= and_start(x, y));
    assert(Seq::new(6, |i: int| i as usize) =~= seq![0usize, 1usize, 2usize, 3usize, 4usize, 5usize]);
    lemma_or_settles(x, y);
    lemma_settled_wire(g, prev, 6);
}

/// The graph `new` makes, with two signals added and an OR gate in its
/// wide form (NOT, NOT, then NAND) on them: rails 0 and 1, inputs 2 and 3,
/// the inverted inputs 4 and 5, the output 6 and the NAND's link 7.
pub open spec fn lone_wide_or(g: SignalGraph) -> bool {
    &&& g.wf()
    &&& g.cells() == or_cells(SignalId(2), SignalId(3), false, 4)
    &&& g.signals@.len() == 8
    &&& g.sequential@.len() == 0
}

pub open spec fn wide_or_start(x: bool, y: bool) -> Seq<SignalState> {
    two_input_start(x, y).push(SignalState::Floating).push(SignalState::Floating)
}

pub open spec fn wide_or_drives(x: bool, y: bool) -> Seq<Option<SignalState>> {
    two_input_drives(x, y).push(None).push(None)
}

/// The order Kahn's queue gives the wide OR: both inverters, then the
/// NAND transistors on the first inverted input, then those on the second.
pub open spec fn wide_or_order() -> Seq<usize> {
    seq![0usize, 1usize, 2usize, 3usize, 4usize, 6usize, 5usize, 7usize]
}

/// The last feeder is -1 or a position below `k` that feeds `j`.
pub(crate) proof fn lemma_last_feeder_feeds(gates: Seq<SignalId>, drains: Seq<SignalId>, o: Seq<TransistorId>, j: int, k: int)
    requires
        k <= o.len(),
    ensures
        last_feeder(gates, drains, o, j, k) == -1 || (0 <= last_feeder(gates, drains, o, j, k) < k
            && feeds_in(gates, drains, o[last_feeder(gates, drains, o, j, k)].0 as int, j)),
    decreases k,
{
    if 0 < k && !feeds_in(gates, drains, o[k - 1].0 as int, j) {
        lemma_last_feeder_feeds(gates, drains, o, j, k - 1);
    }
}

/// With every transistor scheduled, nothing is left for the cyclic remainder.
pub(crate) proof fn lemma_all_scheduled(o: Seq<TransistorId>, k: nat)
    requires
        forall|v: int| 0 <= v < k ==> scheduled(o, v),
    ensures
        unscheduled(o, k) == Seq::<usize>::empty(),
    decreases k,
{
    if k > 0 {
        lemma_all_scheduled(o, (k - 1) as nat);
        assert(scheduled(o, k - 1));
    }
}

proof fn lemma_wide_or_order(g: SignalGraph)
    requires
        lone_wide_or(g),
        g.is_schedule(g.eval_order@),
        g.is_queue_order(g.eval_order@),
    ensures
        g.eval_order@.map_values(|t: TransistorId| t.0) == wide_or_order(),
        forall|v: int| 0 <= v < 8 ==> scheduled(g.eval_order@, v),
{
    let cells = or_cells(SignalId(2), SignalId(3), false, 4);
    let o = g.eval_order@;
    let gates = g.gates@;
    let drains = g.drains@;
    assert(g.cells().len() == g.kinds@.len());
    assert(g.kinds@.len() == 8);
    assert forall|i: int| 0 <= i < 8 implies #[trigger] g.cells()[i] == cells[i] by {}
    assert(cells =~= seq![
        (crate::sim::transistor::TransistorKind::PMOS, SignalId(2), sig(0), sig(4)),
        (crate::sim::transistor::TransistorKind::NMOS, SignalId(2), sig(1), sig(4)),
        (crate::sim::transistor::TransistorKind::PMOS, SignalId(3), sig(0), sig(5)),
        (crate::sim::transistor::TransistorKind::NMOS, SignalId(3), sig(1), sig(5)),
        (crate::sim::transistor::TransistorKind::PMOS, sig(4), sig(0), sig(6)),
        (crate::sim::transistor::TransistorKind::PMOS, sig(5), sig(0), sig(6)),
        (crate::sim::transistor::TransistorKind::NMOS, sig(4), sig(7), sig(6)),
        (crate::sim::transistor::TransistorKind::NMOS, sig(5), sig(1), sig(7)),
    ]);
    assert forall|i: int| 0 <= i < 8 implies gates[i] == (#[trigger] cells[i]).1 && drains[i] == cells[i].3 by {
        assert(g.cells()[i] == cells[i]);
    }
    // who feeds whom: the first inverter feeds 4 and 6, the second 5 and 7
    assert forall|i: int, j: int| 0 <= i < 8 && 0 <= j < 8 && #[trigger] g.feeds(i, j) implies (i < 2
        && (j == 4 || j == 6)) || (2 <= i < 4 && (j == 5 || j == 7)) by {
        assert(gates[j] == cells[j].1 && drains[i] == cells[i].3);
    }
    assert(g.feeds(1, 4) && g.feeds(3, 5)) by {
        assert(gates[4] == cells[4].1 && drains[1] == cells[1].3);
        assert(gates[5] == cells[5].1 && drains[3] == cells[3].3);
    }
    assert(gates[4] == gates[6] && gates[5] == gates[7]) by {
        assert(gates[6] == cells[6].1 && gates[7] == cells[7].1);
    }
    // every transistor is scheduled
    assert forall|j: int| 0 <= j < 4 implies scheduled(o, j) by {
        if !scheduled(o, j) {
            let i = choose|i: int| 0 <= i < 8 && #[trigger] g.feeds(i, j) && !scheduled(o, i);
        }
    }
    assert forall|j: int| 0 <= j < 8 implies scheduled(o, j) by {
        if !scheduled(o, j) {
            let i = choose|i: int| 0 <= i < 8 && #[trigger] g.feeds(i, j) && !scheduled(o, i);
            assert(scheduled(o, i));
        }
    }
    lemma_schedule_len(o, 8);
    assert(scheduled(o, 0) && scheduled(o, 1) && scheduled(o, 2) && scheduled(o, 3));
    assert(scheduled(o, 4) && scheduled(o, 5) && scheduled(o, 6) && scheduled(o, 7));
    let p0 = choose|k: int| 0 <= k < o.len() && #[trigger] o[k].0 == 0;
    let p1 = choose|k: int| 0 <= k < o.len() && #[trigger] o[k].0 == 1;
    let p2 = choose|k: int| 0 <= k < o.len() && #[trigger] o[k].0 == 2;
    let p3 = choose|k: int| 0 <= k < o.len() && #[trigger] o[k].0 == 3;
    let p4 = choose|k: int| 0 <= k < o.len() && #[trigger] o[k].0 == 4;
    let p5 = choose|k: int| 0 <= k < o.len() && #[trigger] o[k].0 == 5;
    let p6 = choose|k: int| 0 <= k < o.len() && #[trigger] o[k].0 == 6;
    let p7 = choose|k: int| 0 <= k < o.len() && #[trigger] o[k].0 == 7;
    let len = o.len() as int;
    assert forall|v: int| 0 <= v < 4 implies last_feeder(gates, drains, o, v, len) == -1 by {
        assert forall|q: int| 0 <= q < len implies !feeds_in(gates, drains, #[trigger] o[q].0 as int, v) by {
            assert(!g.feeds(o[q].0 as int, v));
        }
        lemma_last_feeder_none(gates, drains, o, v, len);
    }
    assert(feeds_in(gates, drains, o[p1].0 as int, 4));
    assert(feeds_in(gates, drains, o[p3].0 as int, 5));
    lemma_last_feeder_at_least(gates, drains, o, 4, p1, len);
    lemma_last_feeder_at_least(gates, drains, o, 5, p3, len);
    lemma_last_feeder_same_wire(gates, drains, o, 4, 6, len);
    lemma_last_feeder_same_wire(gates, drains, o, 5, 7, len);
    // the NAND's first-input transistors are queued when transistor 0 or 1 leaves
    lemma_last_feeder_feeds(gates, drains, o, 6, len);
    let f6 = last_feeder(gates, drains, o, 6, len);
    assert(f6 == p0 || f6 == p1) by {
        assert(g.feeds(o[f6].0 as int, 6));
        if o[f6].0 == 0 {
            if f6 != p0 {
                assert(o[f6].0 == o[p0].0);
            }
        } else {
            if f6 != p1 {
                assert(o[f6].0 == o[p1].0);
            }
        }
    }
    // the queue order fixes the positions
    assert(p0 < p1) by {
        if p1 < p0 {
            assert(queued_before(gates, drains, o, p1, p0));
        }
    }
    assert(p1 < p2) by {
        if p2 < p1 {
            assert(queued_before(gates, drains, o, p2, p1));
        }
    }
    assert(p2 < p3) by {
        if p3 < p2 {
            assert(queued_before(gates, drains, o, p3, p2));
        }
    }
    assert(p3 < p4) by {
        if p4 < p3 {
            assert(queued_before(gates, drains, o, p4, p3));
        }
    }
    assert(p4 < p6) by {
        if p6 < p4 {
            assert(queued_before(gates, drains, o, p6, p4));
        }
    }
    assert(p6 < p5) by {
        if p5 < p6 {
            assert(queued_before(gates, drains, o, p5, p6));
        }
    }
    assert(p5 < p7) by {
        if p7 < p5 {
            assert(queued_before(gates, drains, o, p7, p5));
        }
    }
    assert(o.len() == 8);
    assert(p0 == 0 && p1 == 1 && p2 == 2 && p3 == 3 && p4 == 4 && p6 == 5 && p5 == 6 && p7 == 7);
    let ids = o.map_values(|t: TransistorId| t.0);
    assert forall|k: int| 0 <= k < 8 implies ids[k] == wide_or_order()[k] by {}
    assert(ids =~= wide_or_order());
}

/// A sweep over eight transistors in the given order.
proof fn lemma_sweep8(s: Seq<SignalState>, d: Seq<Option<SignalState>>, cells: Seq<Cell>)
    ensures
        sweep(s, d, cells, wide_or_order()) == step(
            step(
                step(
                    step(step(step(step(step(s, d, cells[0]), d, cells[1]), d, cells[2]), d, cells[3]), d, cells[4]),
                    d,
                    cells[6],
                ),
                d,
                cells[5],
            ),
            d,
            cells[7],
        ),
{
    let o = wide_or_order();
    assert(o.drop_last() =~= seq![0usize, 1usize, 2usize, 3usize, 4usize, 6usize, 5usize]);
    assert(o.drop_last().drop_last() =~= seq![0usize, 1usize, 2usize, 3usize, 4usize, 6usize]);
    assert(o.drop_last().drop_last().drop_last() =~= seq![0usize, 1usize, 2usize, 3usize, 4usize]);
    assert(o.drop_last().drop_last().drop_last().drop_last() =~= seq![0usize, 1usize, 2usize, 3usize]);
    assert(o.drop_last().drop_last().drop_last().drop_last().drop_last() =~= seq![0usize, 1usize, 2usize]);
    assert(o.drop_last().drop_last().drop_last().drop_last().drop_last().drop_last() =~= seq![0usize, 1usize]);
    assert(o.drop_last().drop_last().drop_last().drop_last().drop_last().drop_last().drop_last() =~= seq![0usize]);
    assert(o.drop_last().drop_last().drop_last().drop_last().drop_last().drop_last().drop_last().drop_last()
        =~= Seq::<usize>::empty());
    reveal_with_fuel(sweep, 9);
}

proof fn lemma_wide_or_settles(x: bool, y: bool)
    ensures
        settle(
            wide_or_start(x, y),
            wide_or_drives(x, y),
            or_cells(SignalId(2), SignalId(3), false, 4),
            wide_or_order(),
            9,
        )[6] == level(x || y),
        settle(
            wide_or_start(x, y),
            wide_or_drives(x, y),
            or_cells(SignalId(2), SignalId(3), false, 4),
            wide_or_order(),
            9,
        ).len() == 8,
{
    let H = SignalState::High;
    let L = SignalState::Low;
    let F = SignalState::Floating;
    let d = wide_or_drives(x, y);
    let cells = or_cells(SignalId(2), SignalId(3), false, 4);
    assert(cells =~= seq![
        (crate::sim::transistor::TransistorKind::PMOS, SignalId(2), sig(0), sig(4)),
        (crate::sim::transistor::TransistorKind::NMOS, SignalId(2), sig(1), sig(4)),
        (crate::sim::transistor::TransistorKind::PMOS, SignalId(3), sig(0), sig(5)),
        (crate::sim::transistor::TransistorKind::NMOS, SignalId(3), sig(1), sig(5)),
        (crate::sim::transistor::TransistorKind::PMOS, sig(4), sig(0), sig(6)),
        (crate::sim::transistor::TransistorKind::PMOS, sig(5), sig(0), sig(6)),
        (crate::sim::transistor::TransistorKind::NMOS, sig(4), sig(7), sig(6)),
        (crate::sim::transistor::TransistorKind::NMOS, sig(5), sig(1), sig(7)),
    ]);
    let o = wide_or_order();
    let s0 = wide_or_start(x, y);
    assert(s0 =~= seq![H, L, level(x), level(y), F, F, F, F]);
    assert(d =~= seq![Some(H), Some(L), Some(level(x)), Some(level(y)), None, None, None, None]);
    lemma_sweep8(s0, d, cells);
    if !x {
        let s1 = if y {
            seq![H, L, L, H, H, L, H, F]
        } else {
            seq![H, L, L, L, H, H, F, L]
        };
        let s2 = if y {
            seq![H, L, L, H, H, L, H, H]
        } else {
            seq![H, L, L, L, H, H, L, L]
        };
        assert(sweep(s0, d, cells, o) =~= s1);
        lemma_sweep8(s1, d, cells);
        assert(sweep(s1, d, cells, o) =~= s2);
        lemma_sweep8(s2, d, cells);
        assert(sweep(s2, d, cells, o) =~= s2);
        assert(s1 != s0) by {
            assert(s1[4] != s0[4]);
        }
        assert(s2 != s1) by {
            if y {
                assert(s2[7] != s1[7]);
            } else {
                assert(s2[6] != s1[6]);
            }
        }
        assert(settle(s2, d, cells, o, 7) == s2);
        assert(settle(s1, d, cells, o, 8) == settle(s2, d, cells, o, 7));
        assert(settle(s0, d, cells, o, 9) == settle(s1, d, cells, o, 8));
    } else {
        let s1 = if y {
            seq![H, L, H, H, L, L, H, F]
        } else {
            seq![H, L, H, L, L, H, H, L]
        };
        assert(sweep(s0, d, cells, o) =~= s1);
        lemma_sweep8(s1, d, cells);
        assert(sweep(s1, d, cells, o) =~= s1);
        assert(s1 != s0) by {
            assert(s1[4] != s0[4]);
        }
        assert(settle(s1, d, cells, o, 8) == s1);
        assert(settle(s0, d, cells, o, 9) == settle(s1, d, cells, o, 8));
    }
}

/// An OR gate in its wide form computes OR too. On the graph that `new`,
/// two `add_signal`s and `or` on those two signals build in its wide form
/// (both inputs inverted, then a NAND; inputs 2 and 3, output 6), with
/// both inputs driven High or Low, the wire states `propagate` settles in
/// (with the evaluation order it builds) leave the output Low exactly when
/// both inputs are Low.
pub proof fn lemma_wide_or_truth_table(g: SignalGraph, prev: Seq<SignalState>, x: bool, y: bool)
    requires
        lone_wide_or(g),
        g.driven@ == wide_or_drives(x, y),
        g.is_schedule(g.eval_order@),
        g.is_queue_order(g.eval_order@),
        prev.len() == 8,
    ensures
        g.settled_from(prev)[6] == level(x || y),
{
    let o = g.eval_order@;
    assert(g.cells().len() == g.kinds@.len());
    lemma_wide_or_order(g);
    lemma_all_scheduled(o, 8);
    let order = full_order(o, 8);
    assert(order =~= wide_or_order());
    assert(reset_states(prev, g.driven@) =~= wide_or_start(x, y));
    lemma_wide_or_settles(x, y);
    let st = settle(wide_or_start(x, y), g.driven@, g.cells(), order, 9);
    assert(keep_stored(st, prev, g.sequential@) =~= st);
    assert(g.settled_from(prev) == apply_drives(keep_stored(st, prev, g.sequential@), g.driven@));
    assert(keep_stored(st, prev, g.sequential@)[6] == st[6]);
}

} // verus!
