use vstd::prelude::*;

use crate::sim::transistor::{
    apply_drives, feeds_in, full_order, keep_stored, last_feeder, lemma_last_feeder_none,
    lemma_schedule_len, queued_before, reset_states, scheduled, settle, sig, step, sweep,
    xor_cells, Cell, SignalGraph, SignalId, SignalState, TransistorId, TransistorKind,
};
use crate::sim::truth::{
    lemma_all_scheduled, lemma_last_feeder_at_least, lemma_last_feeder_feeds,
    lemma_last_feeder_same_wire, level, two_input_drives, two_input_start,
};

verus! {

/// The graph `new` makes, with two signals added and an XOR gate on them:
/// rails 0 and 1, inputs 2 and 3, then four NANDs (outputs 4, 6, 8 and
/// the XOR's output 10, each followed by its NMOS link).
pub open spec fn lone_xor(g: SignalGraph) -> bool {
    &&& g.wf()
    &&& g.cells() == xor_cells(SignalId(2), SignalId(3), 4)
    &&& g.signals@.len() == 12
    &&& g.sequential@.len() == 0
}

pub open spec fn xor_start(x: bool, y: bool) -> Seq<SignalState> {
    two_input_start(x, y) + seq![SignalState::Floating; 6]
}

pub open spec fn xor_drives(x: bool, y: bool) -> Seq<Option<SignalState>> {
    two_input_drives(x, y) + seq![None::<SignalState>; 6]
}

/// The order Kahn's queue gives the XOR: every transistor on an input,
/// then those on the first NAND's output, then the last NAND's, on its
/// first input before its second.
pub open spec fn xor_order() -> Seq<usize> {
    seq![0usize, 1usize, 2usize, 3usize, 4usize, 6usize, 8usize, 10usize, 5usize, 7usize, 9usize, 11usize, 12usize, 14usize, 13usize, 15usize]
}

proof fn lemma_xor_cells()
    ensures
        xor_cells(SignalId(2), SignalId(3), 4) == seq![
        (TransistorKind::PMOS, SignalId(2), sig(0), sig(4)),
        (TransistorKind::PMOS, SignalId(3), sig(0), sig(4)),
        (TransistorKind::NMOS, SignalId(2), sig(5), sig(4)),
        (TransistorKind::NMOS, SignalId(3), sig(1), sig(5)),
        (TransistorKind::PMOS, SignalId(2), sig(0), sig(6)),
        (TransistorKind::PMOS, sig(4), sig(0), sig(6)),
        (TransistorKind::NMOS, SignalId(2), sig(7), sig(6)),
        (TransistorKind::NMOS, sig(4), sig(1), sig(7)),
        (TransistorKind::PMOS, SignalId(3), sig(0), sig(8)),
        (TransistorKind::PMOS, sig(4), sig(0), sig(8)),
        (TransistorKind::NMOS, SignalId(3), sig(9), sig(8)),
        (TransistorKind::NMOS, sig(4), sig(1), sig(9)),
        (TransistorKind::PMOS, sig(6), sig(0), sig(10)),
        (TransistorKind::PMOS, sig(8), sig(0), sig(10)),
        (TransistorKind::NMOS, sig(6), sig(11), sig(10)),
        (TransistorKind::NMOS, sig(8), sig(1), sig(11))
    ],
{
    assert(xor_cells(SignalId(2), SignalId(3), 4) =~= seq![
        (TransistorKind::PMOS, SignalId(2), sig(0), sig(4)),
        (TransistorKind::PMOS, SignalId(3), sig(0), sig(4)),
        (TransistorKind::NMOS, SignalId(2), sig(5), sig(4)),
        (TransistorKind::NMOS, SignalId(3), sig(1), sig(5)),
        (TransistorKind::PMOS, SignalId(2), sig(0), sig(6)),
        (TransistorKind::PMOS, sig(4), sig(0), sig(6)),
        (TransistorKind::NMOS, SignalId(2), sig(7), sig(6)),
        (TransistorKind::NMOS, sig(4), sig(1), sig(7)),
        (TransistorKind::PMOS, SignalId(3), sig(0), sig(8)),
        (TransistorKind::PMOS, sig(4), sig(0), sig(8)),
        (TransistorKind::NMOS, SignalId(3), sig(9), sig(8)),
        (TransistorKind::NMOS, sig(4), sig(1), sig(9)),
        (TransistorKind::PMOS, sig(6), sig(0), sig(10)),
        (TransistorKind::PMOS, sig(8), sig(0), sig(10)),
        (TransistorKind::NMOS, sig(6), sig(11), sig(10)),
        (TransistorKind::NMOS, sig(8), sig(1), sig(11))
    ]);
}

#[verifier::rlimit(40)]
proof fn lemma_xor_order(g: SignalGraph)
    requires
        lone_xor(g),
        g.is_schedule(g.eval_order@),
        g.is_queue_order(g.eval_order@),
    ensures
        g.eval_order@.map_values(|t: TransistorId| t.0) == xor_order(),
        forall|v: int| 0 <= v < 16 ==> scheduled(g.eval_order@, v),
{
    let cells = xor_cells(SignalId(2), SignalId(3), 4);
    let o = g.eval_order@;
    let gates = g.gates@;
    let drains = g.drains@;
    lemma_xor_cells();
    assert(g.cells().len() == g.kinds@.len());
    assert(g.kinds@.len() == 16);
    assert forall|i: int| 0 <= i < 16 implies gates[i] == (#[trigger] cells[i]).1 && drains[i] == cells[i].3 by {
        assert(g.cells()[i] == cells[i]);
    }
    assert forall|i: int, j: int| 0 <= i < 16 && 0 <= j < 16 && #[trigger] g.feeds(i, j) implies (i <= 2 && (j == 5 || j == 7 || j == 9 || j == 11)) || (4 <= i <= 6 && (j == 12 || j == 14)) || (8 <= i <= 10 && (j == 13 || j == 15)) by {
        assert(gates[j] == cells[j].1 && drains[i] == cells[i].3);
    }
    assert(g.feeds(2, 5) && g.feeds(5, 12) && g.feeds(9, 13)) by {
        assert(gates[5] == cells[5].1 && drains[2] == cells[2].3);
        assert(gates[12] == cells[12].1 && drains[5] == cells[5].3);
        assert(gates[13] == cells[13].1 && drains[9] == cells[9].3);
    }
    assert(gates[5] == gates[7] && gates[5] == gates[9] && gates[5] == gates[11] && gates[12] == gates[14]
        && gates[13] == gates[15]) by {
        assert(gates[7] == cells[7].1 && gates[9] == cells[9].1 && gates[11] == cells[11].1);
        assert(gates[14] == cells[14].1 && gates[15] == cells[15].1);
    }
    // every transistor is scheduled: nothing loops back
    assert forall|j: int| 0 <= j < 16 && !(j == 5 || j == 7 || j == 9 || j == 11 || j >= 12) implies scheduled(o, j) by {
        if !scheduled(o, j) {
            let i = choose|i: int| 0 <= i < 16 && #[trigger] g.feeds(i, j) && !scheduled(o, i);
        }
    }
    assert forall|j: int| 0 <= j < 12 implies scheduled(o, j) by {
        if !scheduled(o, j) {
            let i = choose|i: int| 0 <= i < 16 && #[trigger] g.feeds(i, j) && !scheduled(o, i);
            assert(scheduled(o, i));
        }
    }
    assert forall|j: int| 0 <= j < 16 implies scheduled(o, j) by {
        if !scheduled(o, j) {
            let i = choose|i: int| 0 <= i < 16 && #[trigger] g.feeds(i, j) && !scheduled(o, i);
            assert(scheduled(o, i));
        }
    }
    lemma_schedule_len(o, 16);
    assert(scheduled(o, 0) && scheduled(o, 1) && scheduled(o, 2) && scheduled(o, 3) && scheduled(o, 4) && scheduled(o, 5) && scheduled(o, 6) && scheduled(o, 7) && scheduled(o, 8) && scheduled(o, 9) && scheduled(o, 10) && scheduled(o, 11) && scheduled(o, 12) && scheduled(o, 13) && scheduled(o, 14) && scheduled(o, 15));
    let p0 = choose|k: int| 0 <= k < o.len() && #[trigger] o[k].0 == 0;
    let p1 = choose|k: int| 0 <= k < o.len() && #[trigger] o[k].0 == 1;
    let p2 = choose|k: int| 0 <= k < o.len() && #[trigger] o[k].0 == 2;
    let p3 = choose|k: int| 0 <= k < o.len() && #[trigger] o[k].0 == 3;
    let p4 = choose|k: int| 0 <= k < o.len() && #[trigger] o[k].0 == 4;
    let p5 = choose|k: int| 0 <= k < o.len() && #[trigger] o[k].0 == 5;
    let p6 = choose|k: int| 0 <= k < o.len() && #[trigger] o[k].0 == 6;
    let p7 = choose|k: int| 0 <= k < o.len() && #[trigger] o[k].0 == 7;
    let p8 = choose|k: int| 0 <= k < o.len() && #[trigger] o[k].0 == 8;
    let p9 = choose|k: int| 0 <= k < o.len() && #[trigger] o[k].0 == 9;
    let p10 = choose|k: int| 0 <= k < o.len() && #[trigger] o[k].0 == 10;
    let p11 = choose|k: int| 0 <= k < o.len() && #[trigger] o[k].0 == 11;
    let p12 = choose|k: int| 0 <= k < o.len() && #[trigger] o[k].0 == 12;
    let p13 = choose|k: int| 0 <= k < o.len() && #[trigger] o[k].0 == 13;
    let p14 = choose|k: int| 0 <= k < o.len() && #[trigger] o[k].0 == 14;
    let p15 = choose|k: int| 0 <= k < o.len() && #[trigger] o[k].0 == 15;
    let len = o.len() as int;
    assert forall|v: int| 0 <= v < 16 && !(v == 5 || v == 7 || v == 9 || v == 11 || v >= 12) implies last_feeder(
        gates,
        drains,
        o,
        v,
        len,
    ) == -1 by {
        assert forall|q: int| 0 <= q < len implies !feeds_in(gates, drains, #[trigger] o[q].0 as int, v) by {
            assert(!g.feeds(o[q].0 as int, v));
        }
        lemma_last_feeder_none(gates, drains, o, v, len);
    }
    assert(feeds_in(gates, drains, o[p2].0 as int, 5));
    assert(feeds_in(gates, drains, o[p5].0 as int, 12));
    assert(feeds_in(gates, drains, o[p9].0 as int, 13));
    lemma_last_feeder_at_least(gates, drains, o, 5, p2, len);
    lemma_last_feeder_at_least(gates, drains, o, 12, p5, len);
    lemma_last_feeder_at_least(gates, drains, o, 13, p9, len);
    lemma_last_feeder_same_wire(gates, drains, o, 5, 7, len);
    lemma_last_feeder_same_wire(gates, drains, o, 5, 9, len);
    lemma_last_feeder_same_wire(gates, drains, o, 5, 11, len);
    lemma_last_feeder_same_wire(gates, drains, o, 12, 14, len);
    lemma_last_feeder_same_wire(gates, drains, o, 13, 15, len);
    // the second NANDs wait for the first, the last one's halves for theirs
    lemma_last_feeder_feeds(gates, drains, o, 5, len);
    let f5 = last_feeder(gates, drains, o, 5, len);
    assert(f5 == p0 || f5 == p1 || f5 == p2) by {
        assert(g.feeds(o[f5].0 as int, 5));
        if o[f5].0 == 0 {
            if f5 != p0 { assert(o[f5].0 == o[p0].0); }
        } else if o[f5].0 == 1 {
            if f5 != p1 { assert(o[f5].0 == o[p1].0); }
        } else {
            if f5 != p2 { assert(o[f5].0 == o[p2].0); }
        }
    }
    lemma_last_feeder_feeds(gates, drains, o, 12, len);
    let f12 = last_feeder(gates, drains, o, 12, len);
    assert(f12 == p4 || f12 == p5 || f12 == p6) by {
        assert(g.feeds(o[f12].0 as int, 12));
        if o[f12].0 == 4 {
            if f12 != p4 { assert(o[f12].0 == o[p4].0); }
        } else if o[f12].0 == 5 {
            if f12 != p5 { assert(o[f12].0 == o[p5].0); }
        } else {
            if f12 != p6 { assert(o[f12].0 == o[p6].0); }
        }
    }
    assert(p0 < p1) by {
        if p1 < p0 {
            assert(queued_before(gates, drains, o, p1, p0));
        }
    }
    assert(p1 < p2) by {
        if p2 < p1 {
            assert(queued_before(gates, drains, o, p2, p1));
        }
    }
    assert(p2 < p3) by {
        if p3 < p2 {
            assert(queued_before(gates, drains, o, p3, p2));
        }
    }
    assert(p3 < p4) by {
        if p4 < p3 {
            assert(queued_before(gates, drains, o, p4, p3));
        }
    }
    assert(p4 < p6) by {
        if p6 < p4 {
            assert(queued_before(gates, drains, o, p6, p4));
        }
    }
    assert(p6 < p8) by {
        if p8 < p6 {
            assert(queued_before(gates, drains, o, p8, p6));
        }
    }
    assert(p8 < p10) by {
        if p10 < p8 {
            assert(queued_before(gates, drains, o, p10, p8));
        }
    }
    assert(p10 < p5) by {
        if p5 < p10 {
            assert(queued_before(gates, drains, o, p5, p10));
        }
    }
    assert(p5 < p7) by {
        if p7 < p5 {
            assert(queued_before(gates, drains, o, p7, p5));
        }
    }
    assert(p7 < p9) by {
        if p9 < p7 {
            assert(queued_before(gates, drains, o, p9, p7));
        }
    }
    assert(p9 < p11) by {
        if p11 < p9 {
            assert(queued_before(gates, drains, o, p11, p9));
        }
    }
    assert(p11 < p12) by {
        if p12 < p11 {
            assert(queued_before(gates, drains, o, p12, p11));
        }
    }
    assert(p12 < p14) by {
        if p14 < p12 {
            assert(queued_before(gates, drains, o, p14, p12));
        }
    }
    assert(p14 < p13) by {
        if p13 < p14 {
            assert(queued_before(gates, drains, o, p13, p14));
        }
    }
    assert(p13 < p15) by {
        if p15 < p13 {
            assert(queued_before(gates, drains, o, p15, p13));
        }
    }
    assert(o.len() == 16);
    assert(p0 == 0 && p1 == 1 && p2 == 2 && p3 == 3 && p4 == 4 && p6 == 5 && p8 == 6 && p10 == 7 && p5 == 8 && p7 == 9 && p9 == 10 && p11 == 11 && p12 == 12 && p14 == 13 && p13 == 14 && p15 == 15);
    let ids = o.map_values(|t: TransistorId| t.0);
    assert forall|k: int| 0 <= k < 16 implies ids[k] == xor_order()[k] by {}
    assert(ids =~= xor_order());
}

/// A sweep over the XOR's transistors in its evaluation order.
proof fn lemma_xor_sweep(s: Seq<SignalState>, d: Seq<Option<SignalState>>, cells: Seq<Cell>)
    ensures
        sweep(s, d, cells, xor_order()) == step(step(step(step(step(step(step(step(step(step(step(step(step(step(step(step(s, d, cells[0]), d, cells[1]), d, cells[2]), d, cells[3]), d, cells[4]), d, cells[6]), d, cells[8]), d, cells[10]), d, cells[5]), d, cells[7]), d, cells[9]), d, cells[11]), d, cells[12]), d, cells[14]), d, cells[13]), d, cells[15]),
{
    let o = xor_order();
    assert(o.drop_last() =~= seq![0usize, 1usize, 2usize, 3usize, 4usize, 6usize, 8usize, 10usize, 5usize, 7usize, 9usize, 11usize, 12usize, 14usize, 13usize]);
    assert(o.drop_last().drop_last() =~= seq![0usize, 1usize, 2usize, 3usize, 4usize, 6usize, 8usize, 10usize, 5usize, 7usize, 9usize, 11usize, 12usize, 14usize]);
    assert(o.drop_last().drop_last().drop_last() =~= seq![0usize, 1usize, 2usize, 3usize, 4usize, 6usize, 8usize, 10usize, 5usize, 7usize, 9usize, 11usize, 12usize]);
    assert(o.drop_last().drop_last().drop_last().drop_last() =~= seq![0usize, 1usize, 2usize, 3usize, 4usize, 6usize, 8usize, 10usize, 5usize, 7usize, 9usize, 11usize]);
    assert(o.drop_last().drop_last().drop_last().drop_last().drop_last() =~= seq![0usize, 1usize, 2usize, 3usize, 4usize, 6usize, 8usize, 10usize, 5usize, 7usize, 9usize]);
    assert(o.drop_last().drop_last().drop_last().drop_last().drop_last().drop_last() =~= seq![0usize, 1usize, 2usize, 3usize, 4usize, 6usize, 8usize, 10usize, 5usize, 7usize]);
    assert(o.drop_last().drop_last().drop_last().drop_last().drop_last().drop_last().drop_last() =~= seq![0usize, 1usize, 2usize, 3usize, 4usize, 6usize, 8usize, 10usize, 5usize]);
    assert(o.drop_last().drop_last().drop_last().drop_last().drop_last().drop_last().drop_last().drop_last() =~= seq![0usize, 1usize, 2usize, 3usize, 4usize, 6usize, 8usize, 10usize]);
    assert(o.drop_last().drop_last().drop_last().drop_last().drop_last().drop_last().drop_last().drop_last().drop_last() =~= seq![0usize, 1usize, 2usize, 3usize, 4usize, 6usize, 8usize]);
    assert(o.drop_last().drop_last().drop_last().drop_last().drop_last().drop_last().drop_last().drop_last().drop_last().drop_last() =~= seq![0usize, 1usize, 2usize, 3usize, 4usize, 6usize]);
    assert(o.drop_last().drop_last().drop_last().drop_last().drop_last().drop_last().drop_last().drop_last().drop_last().drop_last().drop_last() =~= seq![0usize, 1usize, 2usize, 3usize, 4usize]);
    assert(o.drop_last().drop_last().drop_last().drop_last().drop_last().drop_last().drop_last().drop_last().drop_last().drop_last().drop_last().drop_last() =~= seq![0usize, 1usize, 2usize, 3usize]);
    assert(o.drop_last().drop_last().drop_last().drop_last().drop_last().drop_last().drop_last().drop_last().drop_last().drop_last().drop_last().drop_last().drop_last() =~= seq![0usize, 1usize, 2usize]);
    assert(o.drop_last().drop_last().drop_last().drop_last().drop_last().drop_last().drop_last().drop_last().drop_last().drop_last().drop_last().drop_last().drop_last().drop_last() =~= seq![0usize, 1usize]);
    assert(o.drop_last().drop_last().drop_last().drop_last().drop_last().drop_last().drop_last().drop_last().drop_last().drop_last().drop_last().drop_last().drop_last().drop_last().drop_last() =~= seq![0usize]);
    assert(o.drop_last().drop_last().drop_last().drop_last().drop_last().drop_last().drop_last().drop_last().drop_last().drop_last().drop_last().drop_last().drop_last().drop_last().drop_last().drop_last() =~= Seq::<usize>::empty());
    reveal_with_fuel(sweep, 17);
}

/// The wire states the XOR's sweeps settle on.
pub open spec fn xor_settled(x: bool, y: bool) -> Seq<SignalState> {
    let H = SignalState::High;
    let L = SignalState::Low;
    let F = SignalState::Floating;
    if x && y {
        seq![H, L, H, H, L, L, H, H, H, H, L, L]
    } else if x {
        seq![H, L, H, L, H, H, L, L, H, L, H, L]
    } else if y {
        seq![H, L, L, H, H, L, H, L, L, L, H, H]
    } else {
        seq![H, L, L, L, H, F, H, L, H, L, L, L]
    }
}

#[verifier::rlimit(40)]
proof fn lemma_xor_settles_both()
    ensures
        settle(
            xor_start(true, true),
            xor_drives(true, true),
            xor_cells(SignalId(2), SignalId(3), 4),
            xor_order(),
            17,
        ) == xor_settled(true, true),
{
    let H = SignalState::High;
    let L = SignalState::Low;
    let F = SignalState::Floating;
    let d = xor_drives(true, true);
    let cells = xor_cells(SignalId(2), SignalId(3), 4);
    lemma_xor_cells();
    let o = xor_order();
    let s0 = xor_start(true, true);
    assert(s0 =~= seq![H, L, level(true), level(true), F, F, F, F, F, F, F, F]);
    assert(d =~= seq![Some(H), Some(L), Some(level(true)), Some(level(true)), None, None, None, None, None, None, None, None]);
    lemma_xor_sweep(s0, d, cells);
    let s1 = seq![H, L, H, H, F, L, F, F, F, F, F, F];
    let s2 = seq![H, L, H, H, L, L, H, F, H, F, F, L];
    let s3 = seq![H, L, H, H, L, L, H, H, H, H, L, L];
    assert(sweep(s0, d, cells, o) =~= s1);
    lemma_xor_sweep(s1, d, cells);
    assert(sweep(s1, d, cells, o) =~= s2);
    lemma_xor_sweep(s2, d, cells);
    assert(sweep(s2, d, cells, o) =~= s3);
    lemma_xor_sweep(s3, d, cells);
    assert(sweep(s3, d, cells, o) =~= s3);
    assert(s1 != s0) by {
        assert(s1[5] != s0[5]);
    }
    assert(s2 != s1) by {
        assert(s2[4] != s1[4]);
    }
    assert(s3 != s2) by {
        assert(s3[7] != s2[7]);
    }
    assert(settle(s3, d, cells, o, 14) == s3);
    assert(settle(s2, d, cells, o, 15) == settle(s3, d, cells, o, 14));
    assert(settle(s1, d, cells, o, 16) == settle(s2, d, cells, o, 15));
    assert(settle(s0, d, cells, o, 17) == settle(s1, d, cells, o, 16));
    assert(s3 =~= xor_settled(true, true));
}

#[verifier::rlimit(40)]
proof fn lemma_xor_settles_first()
    ensures
        settle(
            xor_start(true, false),
            xor_drives(true, false),
            xor_cells(SignalId(2), SignalId(3), 4),
            xor_order(),
            17,
        ) == xor_settled(true, false),
{
    let H = SignalState::High;
    let L = SignalState::Low;
    let F = SignalState::Floating;
    let d = xor_drives(true, false);
    let cells = xor_cells(SignalId(2), SignalId(3), 4);
    lemma_xor_cells();
    let o = xor_order();
    let s0 = xor_start(true, false);
    assert(s0 =~= seq![H, L, level(true), level(false), F, F, F, F, F, F, F, F]);
    assert(d =~= seq![Some(H), Some(L), Some(level(true)), Some(level(false)), None, None, None, None, None, None, None, None]);
    lemma_xor_sweep(s0, d, cells);
    let s1 = seq![H, L, H, L, H, H, F, L, H, L, F, L];
    let s2 = seq![H, L, H, L, H, H, L, L, H, L, H, L];
    assert(sweep(s0, d, cells, o) =~= s1);
    lemma_xor_sweep(s1, d, cells);
    assert(sweep(s1, d, cells, o) =~= s2);
    lemma_xor_sweep(s2, d, cells);
    assert(sweep(s2, d, cells, o) =~= s2);
    assert(s1 != s0) by {
        assert(s1[4] != s0[4]);
    }
    assert(s2 != s1) by {
        assert(s2[6] != s1[6]);
    }
    assert(settle(s2, d, cells, o, 15) == s2);
    assert(settle(s1, d, cells, o, 16) == settle(s2, d, cells, o, 15));
    assert(settle(s0, d, cells, o, 17) == settle(s1, d, cells, o, 16));
    assert(s2 =~= xor_settled(true, false));
}

#[verifier::rlimit(40)]
proof fn lemma_xor_settles_second()
    ensures
        settle(
            xor_start(false, true),
            xor_drives(false, true),
            xor_cells(SignalId(2), SignalId(3), 4),
            xor_order(),
            17,
        ) == xor_settled(false, true),
{
    let H = SignalState::High;
    let L = SignalState::Low;
    let F = SignalState::Floating;
    let d = xor_drives(false, true);
    let cells = xor_cells(SignalId(2), SignalId(3), 4);
    lemma_xor_cells();
    let o = xor_order();
    let s0 = xor_start(false, true);
    assert(s0 =~= seq![H, L, level(false), level(true), F, F, F, F, F, F, F, F]);
    assert(d =~= seq![Some(H), Some(L), Some(level(false)), Some(level(true)), None, None, None, None, None, None, None, None]);
    lemma_xor_sweep(s0, d, cells);
    let s1 = seq![H, L, L, H, H, L, H, L, F, L, F, F];
    let s2 = seq![H, L, L, H, H, L, H, L, L, L, H, F];
    let s3 = seq![H, L, L, H, H, L, H, L, L, L, H, H];
    assert(sweep(s0, d, cells, o) =~= s1);
    lemma_xor_sweep(s1, d, cells);
    assert(sweep(s1, d, cells, o) =~= s2);
    lemma_xor_sweep(s2, d, cells);
    assert(sweep(s2, d, cells, o) =~= s3);
    lemma_xor_sweep(s3, d, cells);
    assert(sweep(s3, d, cells, o) =~= s3);
    assert(s1 != s0) by {
        assert(s1[4] != s0[4]);
    }
    assert(s2 != s1) by {
        assert(s2[8] != s1[8]);
    }
    assert(s3 != s2) by {
        assert(s3[11] != s2[11]);
    }
    assert(settle(s3, d, cells, o, 14) == s3);
    assert(settle(s2, d, cells, o, 15) == settle(s3, d, cells, o, 14));
    assert(settle(s1, d, cells, o, 16) == settle(s2, d, cells, o, 15));
    assert(settle(s0, d, cells, o, 17) == settle(s1, d, cells, o, 16));
    assert(s3 =~= xor_settled(false, true));
}

#[verifier::rlimit(40)]
proof fn lemma_xor_settles_neither()
    ensures
        settle(
            xor_start(false, false),
            xor_drives(false, false),
            xor_cells(SignalId(2), SignalId(3), 4),
            xor_order(),
            17,
        ) == xor_settled(false, false),
{
    let H = SignalState::High;
    let L = SignalState::Low;
    let F = SignalState::Floating;
    let d = xor_drives(false, false);
    let cells = xor_cells(SignalId(2), SignalId(3), 4);
    lemma_xor_cells();
    let o = xor_order();
    let s0 = xor_start(false, false);
    assert(s0 =~= seq![H, L, level(false), level(false), F, F, F, F, F, F, F, F]);
    assert(d =~= seq![Some(H), Some(L), Some(level(false)), Some(level(false)), None, None, None, None, None, None, None, None]);
    lemma_xor_sweep(s0, d, cells);
    let s1 = seq![H, L, L, L, H, F, H, L, H, L, F, L];
    let s2 = seq![H, L, L, L, H, F, H, L, H, L, L, L];
    assert(sweep(s0, d, cells, o) =~= s1);
    lemma_xor_sweep(s1, d, cells);
    assert(sweep(s1, d, cells, o) =~= s2);
    lemma_xor_sweep(s2, d, cells);
    assert(sweep(s2, d, cells, o) =~= s2);
    assert(s1 != s0) by {
        assert(s1[4] != s0[4]);
    }
    assert(s2 != s1) by {
        assert(s2[10] != s1[10]);
    }
    assert(settle(s2, d, cells, o, 15) == s2);
    assert(settle(s1, d, cells, o, 16) == settle(s2, d, cells, o, 15));
    assert(settle(s0, d, cells, o, 17) == settle(s1, d, cells, o, 16));
    assert(s2 =~= xor_settled(false, false));
}

proof fn lemma_xor_settles(x: bool, y: bool)
    ensures
        settle(xor_start(x, y), xor_drives(x, y), xor_cells(SignalId(2), SignalId(3), 4), xor_order(), 17)
            == xor_settled(x, y),
{
    if x && y {
        lemma_xor_settles_both();
    } else if x {
        lemma_xor_settles_first();
    } else if y {
        lemma_xor_settles_second();
    } else {
        lemma_xor_settles_neither();
    }
}

/// An XOR gate computes XOR. On the graph that `new`, two `add_signal`s
/// and `xor` on those two signals build (inputs 2 and 3, output 10), with
/// both inputs driven High or Low, the wire states `propagate` settles in
/// (with the evaluation order it builds) leave the output High exactly
/// when the inputs differ.
pub proof fn lemma_xor_truth_table(g: SignalGraph, prev: Seq<SignalState>, x: bool, y: bool)
    requires
        lone_xor(g),
        g.driven@ == xor_drives(x, y),
        g.is_schedule(g.eval_order@),
        g.is_queue_order(g.eval_order@),
        prev.len() == 12,
    ensures
        g.settled_from(prev)[10] == level(x != y),
{
    let o = g.eval_order@;
    assert(g.cells().len() == g.kinds@.len());
    lemma_xor_order(g);
    lemma_all_scheduled(o, 16);
    let order = full_order(o, 16);
    assert(order =~= xor_order());
    assert(reset_states(prev, g.driven@) =~= xor_start(x, y));
    lemma_xor_settles(x, y);
    let st = xor_settled(x, y);
    assert(keep_stored(st, prev, g.sequential@) =~= st);
    assert(g.settled_from(prev) == apply_drives(st, g.driven@));
    assert(apply_drives(st, g.driven@)[10] == st[10]);
}

} // verus!
