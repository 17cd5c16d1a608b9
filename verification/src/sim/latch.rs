use vstd::prelude::*;

use crate::sim::gate::sr_latch_cells;
use crate::sim::transistor::{
    apply_drives, feeds_in, full_order, is_sequential, keep_stored, last_feeder,
    lemma_last_feeder_none, queued_before, reset_states, scheduled, settle, sig, step, sweep,
    unscheduled, Cell, SignalGraph, SignalId, SignalState, TransistorId, TransistorKind,
};
use crate::sim::truth::level;

verus! {

/// The graph `new` makes, with two signals added and an SR latch on them:
/// rails 0 and 1, set 2 and reset 3, the held outputs Q 4 and !Q 5, and
/// the two NMOS links 6 and 7.
pub open spec fn lone_latch(g: SignalGraph) -> bool {
    &&& g.wf()
    &&& g.cells() == sr_latch_cells(SignalId(2), SignalId(3), 4)
    &&& g.signals@.len() == 8
    &&& g.sequential@ == seq![sig(4), sig(5)]
}

/// Set and reset driven to the given levels, nothing else driven but the rails.
pub open spec fn latch_drives(s: bool, r: bool) -> Seq<Option<SignalState>> {
    seq![
        Some(SignalState::High),
        Some(SignalState::Low),
        Some(level(s)),
        Some(level(r)),
        None,
        None,
        None,
        None,
    ]
}

/// The transistors on set and reset first, then the cross-coupled ones.
pub open spec fn latch_order() -> Seq<usize> {
    seq![0usize, 2usize, 4usize, 6usize, 1usize, 3usize, 5usize, 7usize]
}

proof fn lemma_latch_cells()
    ensures
        sr_latch_cells(SignalId(2), SignalId(3), 4) == seq![
            (TransistorKind::PMOS, SignalId(2), sig(0), sig(4)),
            (TransistorKind::PMOS, sig(5), sig(0), sig(4)),
            (TransistorKind::NMOS, SignalId(2), sig(6), sig(4)),
            (TransistorKind::NMOS, sig(5), sig(1), sig(6)),
            (TransistorKind::PMOS, SignalId(3), sig(0), sig(5)),
            (TransistorKind::PMOS, sig(4), sig(0), sig(5)),
            (TransistorKind::NMOS, SignalId(3), sig(7), sig(5)),
            (TransistorKind::NMOS, sig(4), sig(1), sig(7)),
        ],
{
    assert(sr_latch_cells(SignalId(2), SignalId(3), 4) =~= seq![
        (TransistorKind::PMOS, SignalId(2), sig(0), sig(4)),
        (TransistorKind::PMOS, sig(5), sig(0), sig(4)),
        (TransistorKind::NMOS, SignalId(2), sig(6), sig(4)),
        (TransistorKind::NMOS, sig(5), sig(1), sig(6)),
        (TransistorKind::PMOS, SignalId(3), sig(0), sig(5)),
        (TransistorKind::PMOS, sig(4), sig(0), sig(5)),
        (TransistorKind::NMOS, SignalId(3), sig(7), sig(5)),
        (TransistorKind::NMOS, sig(4), sig(1), sig(7)),
    ]);
}

/// Kahn's queue takes the transistors on set and reset, in index order,
/// and leaves the cross-coupled ones (a cycle) out.
proof fn lemma_latch_order(g: SignalGraph)
    requires
        lone_latch(g),
        g.is_schedule(g.eval_order@),
        g.is_queue_order(g.eval_order@),
    ensures
        full_order(g.eval_order@, 8) == latch_order(),
        unscheduled(g.eval_order@, 8).len() > 0,
{
    let cells = sr_latch_cells(SignalId(2), SignalId(3), 4);
    let o = g.eval_order@;
    let gates = g.gates@;
    let drains = g.drains@;
    lemma_latch_cells();
    assert(g.cells().len() == g.kinds@.len());
    assert(g.kinds@.len() == 8);
    assert forall|i: int| 0 <= i < 8 implies gates[i] == (#[trigger] cells[i]).1 && drains[i] == cells[i].3 by {
        assert(g.cells()[i] == cells[i]);
    }
    assert forall|i: int, j: int| 0 <= i < 8 && 0 <= j < 8 && #[trigger] g.feeds(i, j) implies (i <= 2
        && (j == 5 || j == 7)) || (4 <= i <= 6 && (j == 1 || j == 3)) by {
        assert(gates[j] == cells[j].1 && drains[i] == cells[i].3);
    }
    assert(g.feeds(5, 1) && g.feeds(1, 5) && g.feeds(5, 3) && g.feeds(1, 7)) by {
        assert(gates[1] == cells[1].1 && drains[1] == cells[1].3);
        assert(gates[5] == cells[5].1 && drains[5] == cells[5].3);
        assert(gates[3] == cells[3].1 && gates[7] == cells[7].1);
    }
    // the transistors on set and reset are fed by nothing: scheduled
    assert forall|j: int| 0 <= j < 8 && j % 2 == 0 implies scheduled(o, j) by {
        if !scheduled(o, j) {
            let i = choose|i: int| 0 <= i < 8 && #[trigger] g.feeds(i, j) && !scheduled(o, i);
        }
    }
    // the cross-coupled ones need each other first: left out
    assert(!scheduled(o, 1) && !scheduled(o, 5)) by {
        if scheduled(o, 1) {
            let k1 = choose|k: int| 0 <= k < o.len() && #[trigger] o[k].0 == 1;
            assert(g.feeds(5, o[k1].0 as int));
            let k5 = choose|k2: int| 0 <= k2 < k1 && (#[trigger] o[k2]).0 == 5;
            assert(g.feeds(1, o[k5].0 as int));
            let k0 = choose|k2: int| 0 <= k2 < k5 && (#[trigger] o[k2]).0 == 1;
            assert(o[k0].0 == o[k1].0);
        }
        if scheduled(o, 5) {
            let k5 = choose|k: int| 0 <= k < o.len() && #[trigger] o[k].0 == 5;
            assert(g.feeds(1, o[k5].0 as int));
            let k1 = choose|k2: int| 0 <= k2 < k5 && (#[trigger] o[k2]).0 == 1;
            assert(g.feeds(5, o[k1].0 as int));
            let k0 = choose|k2: int| 0 <= k2 < k1 && (#[trigger] o[k2]).0 == 5;
            assert(o[k0].0 == o[k5].0);
        }
    }
    assert(!scheduled(o, 3)) by {
        if scheduled(o, 3) {
            let k3 = choose|k: int| 0 <= k < o.len() && #[trigger] o[k].0 == 3;
            assert(g.feeds(5, o[k3].0 as int));
            let k5 = choose|k2: int| 0 <= k2 < k3 && (#[trigger] o[k2]).0 == 5;
        }
    }
    assert(!scheduled(o, 7)) by {
        if scheduled(o, 7) {
            let k7 = choose|k: int| 0 <= k < o.len() && #[trigger] o[k].0 == 7;
            assert(g.feeds(1, o[k7].0 as int));
            let k1 = choose|k2: int| 0 <= k2 < k7 && (#[trigger] o[k2]).0 == 1;
        }
    }
    assert(scheduled(o, 0) && scheduled(o, 2) && scheduled(o, 4) && scheduled(o, 6));
    let p0 = choose|k: int| 0 <= k < o.len() && #[trigger] o[k].0 == 0;
    let p2 = choose|k: int| 0 <= k < o.len() && #[trigger] o[k].0 == 2;
    let p4 = choose|k: int| 0 <= k < o.len() && #[trigger] o[k].0 == 4;
    let p6 = choose|k: int| 0 <= k < o.len() && #[trigger] o[k].0 == 6;
    let len = o.len() as int;
    // every entry is one of the four
    assert forall|k: int| #![trigger o[k]] 0 <= k < len implies k == p0 || k == p2 || k == p4 || k == p6 by {
        let v = o[k].0 as int;
        assert(v < 8);
        assert(scheduled(o, v));
        if v == 0 {
            if k != p0 { assert(o[k].0 == o[p0].0); }
        } else if v == 2 {
            if k != p2 { assert(o[k].0 == o[p2].0); }
        } else if v == 4 {
            if k != p4 { assert(o[k].0 == o[p4].0); }
        } else {
            assert(v == 6);
            if k != p6 { assert(o[k].0 == o[p6].0); }
        }
    }
    // none of the four is fed, so Kahn's queue hands them out by index
    assert forall|v: int| 0 <= v < 8 && v % 2 == 0 implies last_feeder(gates, drains, o, v, len) == -1 by {
        assert forall|q: int| 0 <= q < len implies !feeds_in(gates, drains, #[trigger] o[q].0 as int, v) by {
            assert(!g.feeds(o[q].0 as int, v));
        }
        lemma_last_feeder_none(gates, drains, o, v, len);
    }
    assert(p0 < p2) by {
        if p2 < p0 {
            assert(queued_before(gates, drains, o, p2, p0));
        }
    }
    assert(p2 < p4) by {
        if p4 < p2 {
            assert(queued_before(gates, drains, o, p4, p2));
        }
    }
    assert(p4 < p6) by {
        if p6 < p4 {
            assert(queued_before(gates, drains, o, p6, p4));
        }
    }
    assert(0 < len);
    assert(p0 == 0) by {
        assert(o[0].0 < 8);
        assert(0 == p0 || 0 == p2 || 0 == p4 || 0 == p6);
    }
    assert(p2 == 1) by {
        assert(o[1].0 < 8);
        assert(1 == p0 || 1 == p2 || 1 == p4 || 1 == p6);
    }
    assert(p4 == 2) by {
        assert(o[2].0 < 8);
        assert(2 == p0 || 2 == p2 || 2 == p4 || 2 == p6);
    }
    assert(p6 == 3) by {
        assert(o[3].0 < 8);
        assert(3 == p0 || 3 == p2 || 3 == p4 || 3 == p6);
    }
    assert(len == 4) by {
        if len > 4 {
            assert(o[4].0 < 8);
        assert(4 == p0 || 4 == p2 || 4 == p4 || 4 == p6);
        }
    }
    reveal_with_fuel(unscheduled, 9);
    assert(unscheduled(o, 8) =~= seq![1usize, 3usize, 5usize, 7usize]);
    assert(full_order(o, 8) =~= latch_order());
}

/// A sweep over the latch's transistors in its evaluation order.
proof fn lemma_latch_sweep(s: Seq<SignalState>, d: Seq<Option<SignalState>>, cells: Seq<Cell>)
    ensures
        sweep(s, d, cells, latch_order()) == step(
            step(
                step(
                    step(step(step(step(step(s, d, cells[0]), d, cells[2]), d, cells[4]), d, cells[6]), d, cells[1]),
                    d,
                    cells[3],
                ),
                d,
                cells[5],
            ),
            d,
            cells[7],
        ),
{
    let o = latch_order();
    assert(o.drop_last() =~= seq![0usize, 2usize, 4usize, 6usize, 1usize, 3usize, 5usize]);
    assert(o.drop_last().drop_last() =~= seq![0usize, 2usize, 4usize, 6usize, 1usize, 3usize]);
    assert(o.drop_last().drop_last().drop_last() =~= seq![0usize, 2usize, 4usize, 6usize, 1usize]);
    assert(o.drop_last().drop_last().drop_last().drop_last() =~= seq![0usize, 2usize, 4usize, 6usize]);
    assert(o.drop_last().drop_last().drop_last().drop_last().drop_last() =~= seq![0usize, 2usize, 4usize]);
    assert(o.drop_last().drop_last().drop_last().drop_last().drop_last().drop_last() =~= seq![0usize, 2usize]);
    assert(o.drop_last().drop_last().drop_last().drop_last().drop_last().drop_last().drop_last() =~= seq![0usize]);
    assert(o.drop_last().drop_last().drop_last().drop_last().drop_last().drop_last().drop_last().drop_last()
        =~= Seq::<usize>::empty());
    reveal_with_fuel(sweep, 9);
}

/// The wire states the latch's sweeps settle on, from every wire but the
/// rails, set and reset floating.
pub open spec fn latch_settled(s: bool, r: bool) -> Seq<SignalState> {
    let H = SignalState::High;
    let L = SignalState::Low;
    let F = SignalState::Floating;
    if s && r {
        seq![H, L, H, H, F, F, F, F]
    } else if s {
        seq![H, L, H, L, L, H, L, F]
    } else if r {
        seq![H, L, L, H, H, L, F, L]
    } else {
        seq![H, L, L, L, H, H, L, L]
    }
}

proof fn lemma_latch_settles(s: bool, r: bool)
    ensures
        settle(
            reset_states(Seq::new(8, |i: int| SignalState::Floating), latch_drives(s, r)),
            latch_drives(s, r),
            sr_latch_cells(SignalId(2), SignalId(3), 4),
            latch_order(),
            32,
        ) == latch_settled(s, r),
{
    let H = SignalState::High;
    let L = SignalState::Low;
    let F = SignalState::Floating;
    let d = latch_drives(s, r);
    let cells = sr_latch_cells(SignalId(2), SignalId(3), 4);
    lemma_latch_cells();
    let o = latch_order();
    let s0 = reset_states(Seq::new(8, |i: int| SignalState::Floating), d);
    assert(s0 =~= seq![H, L, level(s), level(r), F, F, F, F]);
    lemma_latch_sweep(s0, d, cells);
    if s && r {
        assert(sweep(s0, d, cells, o) =~= s0);
    } else if s {
        let s1 = seq![H, L, H, L, F, H, L, F];
        let s2 = seq![H, L, H, L, L, H, L, F];
        assert(sweep(s0, d, cells, o) =~= s1);
        lemma_latch_sweep(s1, d, cells);
        assert(sweep(s1, d, cells, o) =~= s2);
        lemma_latch_sweep(s2, d, cells);
        assert(sweep(s2, d, cells, o) =~= s2);
        assert(s1 != s0) by {
            assert(s1[5] != s0[5]);
        }
        assert(s2 != s1) by {
            assert(s2[4] != s1[4]);
        }
        assert(settle(s2, d, cells, o, 30) == s2);
        assert(settle(s1, d, cells, o, 31) == settle(s2, d, cells, o, 30));
        assert(settle(s0, d, cells, o, 32) == settle(s1, d, cells, o, 31));
        assert(s2 =~= latch_settled(s, r));
    } else if r {
        let s1 = seq![H, L, L, H, H, F, F, L];
        let s2 = seq![H, L, L, H, H, L, F, L];
        assert(sweep(s0, d, cells, o) =~= s1);
        lemma_latch_sweep(s1, d, cells);
        assert(sweep(s1, d, cells, o) =~= s2);
        lemma_latch_sweep(s2, d, cells);
        assert(sweep(s2, d, cells, o) =~= s2);
        assert(s1 != s0) by {
            assert(s1[4] != s0[4]);
        }
        assert(s2 != s1) by {
            assert(s2[5] != s1[5]);
        }
        assert(settle(s2, d, cells, o, 30) == s2);
        assert(settle(s1, d, cells, o, 31) == settle(s2, d, cells, o, 30));
        assert(settle(s0, d, cells, o, 32) == settle(s1, d, cells, o, 31));
        assert(s2 =~= latch_settled(s, r));
    } else {
        let s1 = seq![H, L, L, L, H, H, L, L];
        assert(sweep(s0, d, cells, o) =~= s1);
        lemma_latch_sweep(s1, d, cells);
        assert(sweep(s1, d, cells, o) =~= s1);
        assert(s1 != s0) by {
            assert(s1[4] != s0[4]);
        }
        assert(settle(s1, d, cells, o, 31) == s1);
        assert(settle(s0, d, cells, o, 32) == settle(s1, d, cells, o, 31));
        assert(s1 =~= latch_settled(s, r));
    }
}

/// With set and reset both High, the latch started from a stored state
/// (Q High and !Q Low when `q`, the other way round otherwise) settles
/// back on it, the NMOS links following.
pub open spec fn latch_hold_start(q: bool) -> Seq<SignalState> {
    seq![
        SignalState::High,
        SignalState::Low,
        SignalState::High,
        SignalState::High,
        level(q),
        level(!q),
        SignalState::Floating,
        SignalState::Floating,
    ]
}

pub open spec fn latch_hold_end(q: bool) -> Seq<SignalState> {
    seq![
        SignalState::High,
        SignalState::Low,
        SignalState::High,
        SignalState::High,
        level(q),
        level(!q),
        level(q),
        level(!q),
    ]
}

proof fn lemma_latch_holds(q: bool)
    ensures
        settle(
            latch_hold_start(q),
            latch_drives(true, true),
            sr_latch_cells(SignalId(2), SignalId(3), 4),
            latch_order(),
            32,
        ) == latch_hold_end(q),
{
    let d = latch_drives(true, true);
    let cells = sr_latch_cells(SignalId(2), SignalId(3), 4);
    lemma_latch_cells();
    let o = latch_order();
    let s0 = latch_hold_start(q);
    let s1 = latch_hold_end(q);
    lemma_latch_sweep(s0, d, cells);
    assert(sweep(s0, d, cells, o) =~= s1);
    lemma_latch_sweep(s1, d, cells);
    assert(sweep(s1, d, cells, o) =~= s1);
    assert(s1 != s0) by {
        assert(s1[6] != s0[6]);
    }
    assert(settle(s1, d, cells, o, 31) == s1);
    assert(settle(s0, d, cells, o, 32) == settle(s1, d, cells, o, 31));
}

/// What `propagate` leaves on a lone latch: the two passes of
/// `settled_from` along the latch's evaluation order.
proof fn lemma_latch_passes(g: SignalGraph, prev: Seq<SignalState>)
    requires
        lone_latch(g),
        g.is_schedule(g.eval_order@),
        g.is_queue_order(g.eval_order@),
        prev.len() == 8,
    ensures
        g.settled_from(prev) == ({
            let d = g.driven@;
            let cells = sr_latch_cells(SignalId(2), SignalId(3), 4);
            let first = settle(reset_states(prev, d), d, cells, latch_order(), 32);
            let held = keep_stored(first, prev, g.sequential@);
            apply_drives(
                if held == first {
                    first
                } else {
                    settle(held, d, cells, latch_order(), 32)
                },
                d,
            )
        }),
{
    assert(g.cells().len() == g.kinds@.len());
    lemma_latch_order(g);
}

/// On a lone latch only Q and !Q are held: a floating Q or !Q takes back
/// its stored state, every other wire stays.
proof fn lemma_latch_held(g: SignalGraph, st: Seq<SignalState>, prev: Seq<SignalState>)
    requires
        lone_latch(g),
        st.len() == 8,
    ensures
        keep_stored(st, prev, g.sequential@) == st.update(
            4,
            if st[4] == SignalState::Floating { prev[4] } else { st[4] },
        ).update(5, if st[5] == SignalState::Floating { prev[5] } else { st[5] }),
{
    assert(is_sequential(g.sequential@, 4)) by {
        assert(g.sequential@[0].0 == 4);
    }
    assert(is_sequential(g.sequential@, 5)) by {
        assert(g.sequential@[1].0 == 5);
    }
    assert forall|i: int| 0 <= i < 8 && i != 4 && i != 5 implies !is_sequential(g.sequential@, i) by {
        if is_sequential(g.sequential@, i) {
            let k = choose|k: int| 0 <= k < g.sequential@.len() && #[trigger] g.sequential@[k].0 == i;
        }
    }
    assert(keep_stored(st, prev, g.sequential@) =~= st.update(
        4,
        if st[4] == SignalState::Floating { prev[4] } else { st[4] },
    ).update(5, if st[5] == SignalState::Floating { prev[5] } else { st[5] }));
}

/// An SR latch sets, resets and holds. On the graph that `new`, two
/// `add_signal`s (set and reset) and `sr_latch` on them build (Q is wire
/// 4, !Q wire 5), with set and reset driven to levels `s` and `r`, the wire
/// states `propagate` settles in (with the evaluation order it builds),
/// from any earlier states, are: Q High and !Q Low when only set is Low;
/// Q Low and !Q High when only reset is Low; both High when both are Low.
/// When both are High and the latch stored Q High and !Q Low, or the other
/// way round, it keeps what it stored.
pub proof fn lemma_latch_truth_table(g: SignalGraph, prev: Seq<SignalState>, s: bool, r: bool)
    requires
        lone_latch(g),
        g.driven@ == latch_drives(s, r),
        g.is_schedule(g.eval_order@),
        g.is_queue_order(g.eval_order@),
        prev.len() == 8,
    ensures
        !s && r ==> g.settled_from(prev)[4] == SignalState::High && g.settled_from(prev)[5]
            == SignalState::Low,
        s && !r ==> g.settled_from(prev)[4] == SignalState::Low && g.settled_from(prev)[5]
            == SignalState::High,
        !s && !r ==> g.settled_from(prev)[4] == SignalState::High && g.settled_from(prev)[5]
            == SignalState::High,
        s && r && prev[4] == SignalState::High && prev[5] == SignalState::Low ==> g.settled_from(prev)[4]
            == SignalState::High && g.settled_from(prev)[5] == SignalState::Low,
        s && r && prev[4] == SignalState::Low && prev[5] == SignalState::High ==> g.settled_from(prev)[4]
            == SignalState::Low && g.settled_from(prev)[5] == SignalState::High,
{
    let d = g.driven@;
    let cells = sr_latch_cells(SignalId(2), SignalId(3), 4);
    lemma_latch_passes(g, prev);
    let r0 = reset_states(prev, d);
    assert(r0 =~= reset_states(Seq::new(8, |i: int| SignalState::Floating), d));
    lemma_latch_settles(s, r);
    let st = latch_settled(s, r);
    lemma_latch_held(g, st, prev);
    let held = keep_stored(st, prev, g.sequential@);
    if !(s && r) {
        assert(held =~= st);
        assert(apply_drives(st, d)[4] == st[4]);
        assert(apply_drives(st, d)[5] == st[5]);
    } else if prev[4] == SignalState::High && prev[5] == SignalState::Low
        || prev[4] == SignalState::Low && prev[5] == SignalState::High {
        let q = prev[4] == SignalState::High;
        assert(held =~= latch_hold_start(q));
        assert(held != st) by {
            assert(held[4] != st[4]);
        }
        lemma_latch_holds(q);
        let e = latch_hold_end(q);
        assert(apply_drives(e, d)[4] == e[4]);
        assert(apply_drives(e, d)[5] == e[5]);
    }
}

} // verus!
