use vstd::prelude::*;

use crate::sim::gate::mux_2to1_cells;
use crate::sim::transistor::{
    apply_drives, feeds_in, full_order, unscheduled, keep_stored, last_feeder, lemma_last_feeder_none,
    lemma_schedule_len, queued_before, reset_states, scheduled, settle, sig, step, sweep, Cell,
    SignalGraph, SignalId, SignalState, TransistorId, TransistorKind,
};
use crate::sim::truth::{lemma_all_scheduled, lemma_last_feeder_at_least, lemma_last_feeder_feeds, level};

verus! {

/// The graph `new` makes, with three signals added and a 2:1 multiplexer
/// on them: rails 0 and 1, inputs a 2, b 3 and select 4, the inverted
/// select 5, the two ANDs' wires 6 to 11, the OR's wires 12 to 14 (the
/// output on 14).
pub open spec fn lone_mux2(g: SignalGraph) -> bool {
    &&& g.wf()
    &&& g.cells() == mux_2to1_cells(SignalId(2), SignalId(3), SignalId(4), 5)
    &&& g.signals@.len() == 15
    &&& g.sequential@.len() == 0
}

/// The wires before a propagation: the rails, the inputs at the given
/// levels, every other wire floating.
pub open spec fn mux2_start(x: bool, y: bool, z: bool) -> Seq<SignalState> {
    seq![SignalState::High, SignalState::Low, level(x), level(y), level(z)] + seq![SignalState::Floating; 10]
}

/// The rails and the inputs driven, nothing else.
pub open spec fn mux2_drives(x: bool, y: bool, z: bool) -> Seq<Option<SignalState>> {
    seq![Some(SignalState::High), Some(SignalState::Low), Some(level(x)), Some(level(y)), Some(level(z))] + seq![None::<SignalState>; 10]
}

/// The order Kahn's queue gives the transistors.
pub open spec fn mux2_order() -> Seq<usize> {
    seq![0usize, 1usize, 2usize, 4usize, 8usize, 9usize, 10usize, 11usize, 3usize, 5usize, 12usize, 13usize, 6usize, 7usize, 15usize, 17usize, 14usize, 16usize, 18usize, 19usize]
}

proof fn lemma_mux2_cells()
    ensures
        mux_2to1_cells(SignalId(2), SignalId(3), SignalId(4), 5) == seq![
        (TransistorKind::PMOS, SignalId(4), sig(0), sig(5)),
        (TransistorKind::NMOS, SignalId(4), sig(1), sig(5)),
        (TransistorKind::PMOS, SignalId(2), sig(0), sig(6)),
        (TransistorKind::PMOS, sig(5), sig(0), sig(6)),
        (TransistorKind::NMOS, SignalId(2), sig(7), sig(6)),
        (TransistorKind::NMOS, sig(5), sig(1), sig(7)),
        (TransistorKind::PMOS, sig(6), sig(0), sig(8)),
        (TransistorKind::NMOS, sig(6), sig(1), sig(8)),
        (TransistorKind::PMOS, SignalId(3), sig(0), sig(9)),
        (TransistorKind::PMOS, SignalId(4), sig(0), sig(9)),
        (TransistorKind::NMOS, SignalId(3), sig(10), sig(9)),
        (TransistorKind::NMOS, SignalId(4), sig(1), sig(10)),
        (TransistorKind::PMOS, sig(9), sig(0), sig(11)),
        (TransistorKind::NMOS, sig(9), sig(1), sig(11)),
        (TransistorKind::PMOS, sig(8), sig(0), sig(13)),
        (TransistorKind::PMOS, sig(11), sig(13), sig(12)),
        (TransistorKind::NMOS, sig(8), sig(1), sig(12)),
        (TransistorKind::NMOS, sig(11), sig(1), sig(12)),
        (TransistorKind::PMOS, sig(12), sig(0), sig(14)),
        (TransistorKind::NMOS, sig(12), sig(1), sig(14))
    ],
{
    reveal(mux_2to1_cells);
    assert(mux_2to1_cells(SignalId(2), SignalId(3), SignalId(4), 5) =~= seq![
        (TransistorKind::PMOS, SignalId(4), sig(0), sig(5)),
        (TransistorKind::NMOS, SignalId(4), sig(1), sig(5)),
        (TransistorKind::PMOS, SignalId(2), sig(0), sig(6)),
        (TransistorKind::PMOS, sig(5), sig(0), sig(6)),
        (TransistorKind::NMOS, SignalId(2), sig(7), sig(6)),
        (TransistorKind::NMOS, sig(5), sig(1), sig(7)),
        (TransistorKind::PMOS, sig(6), sig(0), sig(8)),
        (TransistorKind::NMOS, sig(6), sig(1), sig(8)),
        (TransistorKind::PMOS, SignalId(3), sig(0), sig(9)),
        (TransistorKind::PMOS, SignalId(4), sig(0), sig(9)),
        (TransistorKind::NMOS, SignalId(3), sig(10), sig(9)),
        (TransistorKind::NMOS, SignalId(4), sig(1), sig(10)),
        (TransistorKind::PMOS, sig(9), sig(0), sig(11)),
        (TransistorKind::NMOS, sig(9), sig(1), sig(11)),
        (TransistorKind::PMOS, sig(8), sig(0), sig(13)),
        (TransistorKind::PMOS, sig(11), sig(13), sig(12)),
        (TransistorKind::NMOS, sig(8), sig(1), sig(12)),
        (TransistorKind::NMOS, sig(11), sig(1), sig(12)),
        (TransistorKind::PMOS, sig(12), sig(0), sig(14)),
        (TransistorKind::NMOS, sig(12), sig(1), sig(14))
    ]);
}

proof fn lemma_mux2_wiring(g: SignalGraph)
    requires
        lone_mux2(g),
    ensures
        g.kinds@.len() == 20,
        forall|i: int, j: int| 0 <= i < 20 && 0 <= j < 20 && #[trigger] g.feeds(i, j) ==> ((i == 0 || i == 1) && (j == 3 || j == 5)) || ((i == 2 || i == 3 || i == 4) && (j == 6 || j == 7)) || ((i == 6 || i == 7) && (j == 14 || j == 16)) || ((i == 8 || i == 9 || i == 10) && (j == 12 || j == 13)) || ((i == 12 || i == 13) && (j == 15 || j == 17)) || ((i == 15 || i == 16 || i == 17) && (j == 18 || j == 19)),
        g.feeds(1, 3) && g.feeds(1, 5) && g.feeds(3, 6) && g.feeds(3, 7) && g.feeds(10, 12) && g.feeds(10, 13) && g.feeds(7, 14) && g.feeds(13, 15) && g.feeds(7, 16) && g.feeds(13, 17) && g.feeds(16, 18) && g.feeds(16, 19),
{
    let cells = mux_2to1_cells(SignalId(2), SignalId(3), SignalId(4), 5);
    let gates = g.gates@;
    let drains = g.drains@;
    lemma_mux2_cells();
    assert(g.cells().len() == g.kinds@.len());
    assert(g.kinds@.len() == 20);
    assert forall|i: int| 0 <= i < 20 implies gates[i] == (#[trigger] cells[i]).1 && drains[i] == cells[i].3 by {
        assert(g.cells()[i] == cells[i]);
    }
    assert forall|i: int, j: int| 0 <= i < 20 && 0 <= j < 20 && #[trigger] g.feeds(i, j) implies ((i == 0 || i == 1) && (j == 3 || j == 5)) || ((i == 2 || i == 3 || i == 4) && (j == 6 || j == 7)) || ((i == 6 || i == 7) && (j == 14 || j == 16)) || ((i == 8 || i == 9 || i == 10) && (j == 12 || j == 13)) || ((i == 12 || i == 13) && (j == 15 || j == 17)) || ((i == 15 || i == 16 || i == 17) && (j == 18 || j == 19)) by {
        assert(gates[j] == cells[j].1 && drains[i] == cells[i].3);
    }
    assert(g.feeds(1, 3) && g.feeds(1, 5) && g.feeds(3, 6) && g.feeds(3, 7) && g.feeds(10, 12) && g.feeds(10, 13) && g.feeds(7, 14) && g.feeds(13, 15) && g.feeds(7, 16) && g.feeds(13, 17) && g.feeds(16, 18) && g.feeds(16, 19)) by {
        assert forall|i: int, j: int| 0 <= i < 20 && 0 <= j < 20 implies (#[trigger] g.feeds(i, j) <==> drains[i].0
            == gates[j].0) by {}
    }
}

proof fn lemma_mux2_all_scheduled(g: SignalGraph)
    requires
        lone_mux2(g),
        g.is_schedule(g.eval_order@),
    ensures
        forall|v: int| 0 <= v < 20 ==> scheduled(g.eval_order@, v),
        g.eval_order@.len() <= 20,
{
    lemma_mux2_wiring(g);
    let o = g.eval_order@;
    assert forall|j: int| j == 0 || j == 1 || j == 2 || j == 4 || j == 8 || j == 9 || j == 10 || j == 11 implies scheduled(o, j) by {
        if !scheduled(o, j) {
            let i = choose|i: int| 0 <= i < 20 && #[trigger] g.feeds(i, j) && !scheduled(o, i);
            assert(scheduled(o, i));
        }
    }
    assert forall|j: int| j == 0 || j == 1 || j == 2 || j == 3 || j == 4 || j == 5 || j == 8 || j == 9 || j == 10 || j == 11 || j == 12 || j == 13 implies scheduled(o, j) by {
        if !scheduled(o, j) {
            let i = choose|i: int| 0 <= i < 20 && #[trigger] g.feeds(i, j) && !scheduled(o, i);
            assert(scheduled(o, i));
        }
    }
    assert forall|j: int| j == 0 || j == 1 || j == 2 || j == 3 || j == 4 || j == 5 || j == 6 || j == 7 || j == 8 || j == 9 || j == 10 || j == 11 || j == 12 || j == 13 || j == 15 || j == 17 implies scheduled(o, j) by {
        if !scheduled(o, j) {
            let i = choose|i: int| 0 <= i < 20 && #[trigger] g.feeds(i, j) && !scheduled(o, i);
            assert(scheduled(o, i));
        }
    }
    assert forall|j: int| j == 0 || j == 1 || j == 2 || j == 3 || j == 4 || j == 5 || j == 6 || j == 7 || j == 8 || j == 9 || j == 10 || j == 11 || j == 12 || j == 13 || j == 14 || j == 15 || j == 16 || j == 17 implies scheduled(o, j) by {
        if !scheduled(o, j) {
            let i = choose|i: int| 0 <= i < 20 && #[trigger] g.feeds(i, j) && !scheduled(o, i);
            assert(scheduled(o, i));
        }
    }
    assert forall|j: int| j == 0 || j == 1 || j == 2 || j == 3 || j == 4 || j == 5 || j == 6 || j == 7 || j == 8 || j == 9 || j == 10 || j == 11 || j == 12 || j == 13 || j == 14 || j == 15 || j == 16 || j == 17 || j == 18 || j == 19 implies scheduled(o, j) by {
        if !scheduled(o, j) {
            let i = choose|i: int| 0 <= i < 20 && #[trigger] g.feeds(i, j) && !scheduled(o, i);
            assert(scheduled(o, i));
        }
    }
    lemma_schedule_len(o, 20);
    assert(scheduled(o, 0) && scheduled(o, 1) && scheduled(o, 2) && scheduled(o, 3) && scheduled(o, 4) && scheduled(o, 5) && scheduled(o, 6) && scheduled(o, 7) && scheduled(o, 8) && scheduled(o, 9) && scheduled(o, 10) && scheduled(o, 11) && scheduled(o, 12) && scheduled(o, 13) && scheduled(o, 14) && scheduled(o, 15) && scheduled(o, 16) && scheduled(o, 17) && scheduled(o, 18) && scheduled(o, 19));
}

#[verifier::rlimit(100)]
proof fn lemma_mux2_order(g: SignalGraph)
    requires
        lone_mux2(g),
        g.is_schedule(g.eval_order@),
        g.is_queue_order(g.eval_order@),
    ensures
        g.eval_order@.map_values(|t: TransistorId| t.0) == mux2_order(),
        forall|v: int| 0 <= v < 20 ==> scheduled(g.eval_order@, v),
{
    let cells = mux_2to1_cells(SignalId(2), SignalId(3), SignalId(4), 5);
    let o = g.eval_order@;
    let gates = g.gates@;
    let drains = g.drains@;
    lemma_mux2_wiring(g);
    lemma_mux2_all_scheduled(g);
    assert(scheduled(o, 0) && scheduled(o, 1) && scheduled(o, 2) && scheduled(o, 3) && scheduled(o, 4) && scheduled(o, 5) && scheduled(o, 6) && scheduled(o, 7) && scheduled(o, 8) && scheduled(o, 9) && scheduled(o, 10) && scheduled(o, 11) && scheduled(o, 12) && scheduled(o, 13) && scheduled(o, 14) && scheduled(o, 15) && scheduled(o, 16) && scheduled(o, 17) && scheduled(o, 18) && scheduled(o, 19));
    let p0 = choose|k: int| 0 <= k < o.len() && #[trigger] o[k].0 == 0;
    let p1 = choose|k: int| 0 <= k < o.len() && #[trigger] o[k].0 == 1;
    let p2 = choose|k: int| 0 <= k < o.len() && #[trigger] o[k].0 == 2;
    let p3 = choose|k: int| 0 <= k < o.len() && #[trigger] o[k].0 == 3;
    let p4 = choose|k: int| 0 <= k < o.len() && #[trigger] o[k].0 == 4;
    let p5 = choose|k: int| 0 <= k < o.len() && #[trigger] o[k].0 == 5;
    let p6 = choose|k: int| 0 <= k < o.len() && #[trigger] o[k].0 == 6;
    let p7 = choose|k: int| 0 <= k < o.len() && #[trigger] o[k].0 == 7;
    let p8 = choose|k: int| 0 <= k < o.len() && #[trigger] o[k].0 == 8;
    let p9 = choose|k: int| 0 <= k < o.len() && #[trigger] o[k].0 == 9;
    let p10 = choose|k: int| 0 <= k < o.len() && #[trigger] o[k].0 == 10;
    let p11 = choose|k: int| 0 <= k < o.len() && #[trigger] o[k].0 == 11;
    let p12 = choose|k: int| 0 <= k < o.len() && #[trigger] o[k].0 == 12;
    let p13 = choose|k: int| 0 <= k < o.len() && #[trigger] o[k].0 == 13;
    let p14 = choose|k: int| 0 <= k < o.len() && #[trigger] o[k].0 == 14;
    let p15 = choose|k: int| 0 <= k < o.len() && #[trigger] o[k].0 == 15;
    let p16 = choose|k: int| 0 <= k < o.len() && #[trigger] o[k].0 == 16;
    let p17 = choose|k: int| 0 <= k < o.len() && #[trigger] o[k].0 == 17;
    let p18 = choose|k: int| 0 <= k < o.len() && #[trigger] o[k].0 == 18;
    let p19 = choose|k: int| 0 <= k < o.len() && #[trigger] o[k].0 == 19;
    let len = o.len() as int;
    assert forall|v: int| v == 0 || v == 1 || v == 2 || v == 4 || v == 8 || v == 9 || v == 10 || v == 11 implies last_feeder(gates, drains, o, v, len) == -1 by {
        assert forall|q: int| 0 <= q < len implies !feeds_in(gates, drains, #[trigger] o[q].0 as int, v) by {
            assert(!g.feeds(o[q].0 as int, v));
        }
        lemma_last_feeder_none(gates, drains, o, v, len);
    }
    assert(p0 < p1) by {
        if p1 < p0 {
            assert(queued_before(gates, drains, o, p1, p0));
        }
    }
    assert(p1 < p2) by {
        if p2 < p1 {
            assert(queued_before(gates, drains, o, p2, p1));
        }
    }
    assert(p2 < p4) by {
        if p4 < p2 {
            assert(queued_before(gates, drains, o, p4, p2));
        }
    }
    assert(p4 < p8) by {
        if p8 < p4 {
            assert(queued_before(gates, drains, o, p8, p4));
        }
    }
    assert(p8 < p9) by {
        if p9 < p8 {
            assert(queued_before(gates, drains, o, p9, p8));
        }
    }
    assert(p9 < p10) by {
        if p10 < p9 {
            assert(queued_before(gates, drains, o, p10, p9));
        }
    }
    assert(p10 < p11) by {
        if p11 < p10 {
            assert(queued_before(gates, drains, o, p11, p10));
        }
    }
    assert(g.feeds(1, 3));
    assert(feeds_in(gates, drains, o[p1].0 as int, 3));
    lemma_last_feeder_at_least(gates, drains, o, 3, p1, len);
    lemma_last_feeder_feeds(gates, drains, o, 3, len);
    let lf3 = last_feeder(gates, drains, o, 3, len);
    assert(lf3 == p1) by {
        assert(g.feeds(o[lf3].0 as int, 3));
        if o[lf3].0 == 0 {
            if lf3 != p0 { assert(o[lf3].0 == o[p0].0); }
        } else {
            if lf3 != p1 { assert(o[lf3].0 == o[p1].0); }
        }
    }
    assert(p11 < p3) by {
        if p3 < p11 {
            assert(queued_before(gates, drains, o, p3, p11));
        }
    }
    assert(g.feeds(1, 5));
    assert(feeds_in(gates, drains, o[p1].0 as int, 5));
    lemma_last_feeder_at_least(gates, drains, o, 5, p1, len);
    lemma_last_feeder_feeds(gates, drains, o, 5, len);
    let lf5 = last_feeder(gates, drains, o, 5, len);
    assert(lf5 == p1) by {
        assert(g.feeds(o[lf5].0 as int, 5));
        if o[lf5].0 == 0 {
            if lf5 != p0 { assert(o[lf5].0 == o[p0].0); }
        } else {
            if lf5 != p1 { assert(o[lf5].0 == o[p1].0); }
        }
    }
    assert(p3 < p5) by {
        if p5 < p3 {
            assert(queued_before(gates, drains, o, p5, p3));
        }
    }
    assert(g.feeds(10, 12));
    assert(feeds_in(gates, drains, o[p10].0 as int, 12));
    lemma_last_feeder_at_least(gates, drains, o, 12, p10, len);
    lemma_last_feeder_feeds(gates, drains, o, 12, len);
    let lf12 = last_feeder(gates, drains, o, 12, len);
    assert(lf12 == p10) by {
        assert(g.feeds(o[lf12].0 as int, 12));
        if o[lf12].0 == 8 {
            if lf12 != p8 { assert(o[lf12].0 == o[p8].0); }
        } else if o[lf12].0 == 9 {
            if lf12 != p9 { assert(o[lf12].0 == o[p9].0); }
        } else {
            if lf12 != p10 { assert(o[lf12].0 == o[p10].0); }
        }
    }
    assert(p5 < p12) by {
        if p12 < p5 {
            assert(queued_before(gates, drains, o, p12, p5));
        }
    }
    assert(g.feeds(10, 13));
    assert(feeds_in(gates, drains, o[p10].0 as int, 13));
    lemma_last_feeder_at_least(gates, drains, o, 13, p10, len);
    lemma_last_feeder_feeds(gates, drains, o, 13, len);
    let lf13 = last_feeder(gates, drains, o, 13, len);
    assert(lf13 == p10) by {
        assert(g.feeds(o[lf13].0 as int, 13));
        if o[lf13].0 == 8 {
            if lf13 != p8 { assert(o[lf13].0 == o[p8].0); }
        } else if o[lf13].0 == 9 {
            if lf13 != p9 { assert(o[lf13].0 == o[p9].0); }
        } else {
            if lf13 != p10 { assert(o[lf13].0 == o[p10].0); }
        }
    }
    assert(p12 < p13) by {
        if p13 < p12 {
            assert(queued_before(gates, drains, o, p13, p12));
        }
    }
    assert(g.feeds(3, 6));
    assert(feeds_in(gates, drains, o[p3].0 as int, 6));
    lemma_last_feeder_at_least(gates, drains, o, 6, p3, len);
    lemma_last_feeder_feeds(gates, drains, o, 6, len);
    let lf6 = last_feeder(gates, drains, o, 6, len);
    assert(lf6 == p3) by {
        assert(g.feeds(o[lf6].0 as int, 6));
        if o[lf6].0 == 2 {
            if lf6 != p2 { assert(o[lf6].0 == o[p2].0); }
        } else if o[lf6].0 == 3 {
            if lf6 != p3 { assert(o[lf6].0 == o[p3].0); }
        } else {
            if lf6 != p4 { assert(o[lf6].0 == o[p4].0); }
        }
    }
    assert(p13 < p6) by {
        if p6 < p13 {
            assert(queued_before(gates, drains, o, p6, p13));
        }
    }
    assert(g.feeds(3, 7));
    assert(feeds_in(gates, drains, o[p3].0 as int, 7));
    lemma_last_feeder_at_least(gates, drains, o, 7, p3, len);
    lemma_last_feeder_feeds(gates, drains, o, 7, len);
    let lf7 = last_feeder(gates, drains, o, 7, len);
    assert(lf7 == p3) by {
        assert(g.feeds(o[lf7].0 as int, 7));
        if o[lf7].0 == 2 {
            if lf7 != p2 { assert(o[lf7].0 == o[p2].0); }
        } else if o[lf7].0 == 3 {
            if lf7 != p3 { assert(o[lf7].0 == o[p3].0); }
        } else {
            if lf7 != p4 { assert(o[lf7].0 == o[p4].0); }
        }
    }
    assert(p6 < p7) by {
        if p7 < p6 {
            assert(queued_before(gates, drains, o, p7, p6));
        }
    }
    assert(g.feeds(13, 15));
    assert(feeds_in(gates, drains, o[p13].0 as int, 15));
    lemma_last_feeder_at_least(gates, drains, o, 15, p13, len);
    lemma_last_feeder_feeds(gates, drains, o, 15, len);
    let lf15 = last_feeder(gates, drains, o, 15, len);
    assert(lf15 == p13) by {
        assert(g.feeds(o[lf15].0 as int, 15));
        if o[lf15].0 == 12 {
            if lf15 != p12 { assert(o[lf15].0 == o[p12].0); }
        } else {
            if lf15 != p13 { assert(o[lf15].0 == o[p13].0); }
        }
    }
    assert(p7 < p15) by {
        if p15 < p7 {
            assert(queued_before(gates, drains, o, p15, p7));
        }
    }
    assert(g.feeds(13, 17));
    assert(feeds_in(gates, drains, o[p13].0 as int, 17));
    lemma_last_feeder_at_least(gates, drains, o, 17, p13, len);
    lemma_last_feeder_feeds(gates, drains, o, 17, len);
    let lf17 = last_feeder(gates, drains, o, 17, len);
    assert(lf17 == p13) by {
        assert(g.feeds(o[lf17].0 as int, 17));
        if o[lf17].0 == 12 {
            if lf17 != p12 { assert(o[lf17].0 == o[p12].0); }
        } else {
            if lf17 != p13 { assert(o[lf17].0 == o[p13].0); }
        }
    }
    assert(p15 < p17) by {
        if p17 < p15 {
            assert(queued_before(gates, drains, o, p17, p15));
        }
    }
    assert(g.feeds(7, 14));
    assert(feeds_in(gates, drains, o[p7].0 as int, 14));
    lemma_last_feeder_at_least(gates, drains, o, 14, p7, len);
    lemma_last_feeder_feeds(gates, drains, o, 14, len);
    let lf14 = last_feeder(gates, drains, o, 14, len);
    assert(lf14 == p7) by {
        assert(g.feeds(o[lf14].0 as int, 14));
        if o[lf14].0 == 6 {
            if lf14 != p6 { assert(o[lf14].0 == o[p6].0); }
        } else {
            if lf14 != p7 { assert(o[lf14].0 == o[p7].0); }
        }
    }
    assert(p17 < p14) by {
        if p14 < p17 {
            assert(queued_before(gates, drains, o, p14, p17));
        }
    }
    assert(g.feeds(7, 16));
    assert(feeds_in(gates, drains, o[p7].0 as int, 16));
    lemma_last_feeder_at_least(gates, drains, o, 16, p7, len);
    lemma_last_feeder_feeds(gates, drains, o, 16, len);
    let lf16 = last_feeder(gates, drains, o, 16, len);
    assert(lf16 == p7) by {
        assert(g.feeds(o[lf16].0 as int, 16));
        if o[lf16].0 == 6 {
            if lf16 != p6 { assert(o[lf16].0 == o[p6].0); }
        } else {
            if lf16 != p7 { assert(o[lf16].0 == o[p7].0); }
        }
    }
    assert(p14 < p16) by {
        if p16 < p14 {
            assert(queued_before(gates, drains, o, p16, p14));
        }
    }
    assert(g.feeds(16, 18));
    assert(feeds_in(gates, drains, o[p16].0 as int, 18));
    lemma_last_feeder_at_least(gates, drains, o, 18, p16, len);
    lemma_last_feeder_feeds(gates, drains, o, 18, len);
    let lf18 = last_feeder(gates, drains, o, 18, len);
    assert(lf18 == p16) by {
        assert(g.feeds(o[lf18].0 as int, 18));
        if o[lf18].0 == 15 {
            if lf18 != p15 { assert(o[lf18].0 == o[p15].0); }
        } else if o[lf18].0 == 16 {
            if lf18 != p16 { assert(o[lf18].0 == o[p16].0); }
        } else {
            if lf18 != p17 { assert(o[lf18].0 == o[p17].0); }
        }
    }
    assert(p16 < p18) by {
        if p18 < p16 {
            assert(queued_before(gates, drains, o, p18, p16));
        }
    }
    assert(g.feeds(16, 19));
    assert(feeds_in(gates, drains, o[p16].0 as int, 19));
    lemma_last_feeder_at_least(gates, drains, o, 19, p16, len);
    lemma_last_feeder_feeds(gates, drains, o, 19, len);
    let lf19 = last_feeder(gates, drains, o, 19, len);
    assert(lf19 == p16) by {
        assert(g.feeds(o[lf19].0 as int, 19));
        if o[lf19].0 == 15 {
            if lf19 != p15 { assert(o[lf19].0 == o[p15].0); }
        } else if o[lf19].0 == 16 {
            if lf19 != p16 { assert(o[lf19].0 == o[p16].0); }
        } else {
            if lf19 != p17 { assert(o[lf19].0 == o[p17].0); }
        }
    }
    assert(p18 < p19) by {
        if p19 < p18 {
            assert(queued_before(gates, drains, o, p19, p18));
        }
    }
    assert(o.len() == 20);
    assert(p0 == 0 && p1 == 1 && p2 == 2 && p4 == 3 && p8 == 4 && p9 == 5 && p10 == 6 && p11 == 7 && p3 == 8 && p5 == 9 && p12 == 10 && p13 == 11 && p6 == 12 && p7 == 13 && p15 == 14 && p17 == 15 && p14 == 16 && p16 == 17 && p18 == 18 && p19 == 19);
    let ids = o.map_values(|t: TransistorId| t.0);
    assert forall|k: int| 0 <= k < 20 implies ids[k] == mux2_order()[k] by {}
    assert(ids =~= mux2_order());
}

/// A sweep over the transistors in their evaluation order.
proof fn lemma_mux2_sweep(s: Seq<SignalState>, d: Seq<Option<SignalState>>, cells: Seq<Cell>)
    ensures
        sweep(s, d, cells, mux2_order()) == step(step(step(step(step(step(step(step(step(step(step(step(step(step(step(step(step(step(step(step(s, d, cells[0]), d, cells[1]), d, cells[2]), d, cells[4]), d, cells[8]), d, cells[9]), d, cells[10]), d, cells[11]), d, cells[3]), d, cells[5]), d, cells[12]), d, cells[13]), d, cells[6]), d, cells[7]), d, cells[15]), d, cells[17]), d, cells[14]), d, cells[16]), d, cells[18]), d, cells[19]),
{
    let o = mux2_order();
    assert(o.drop_last() =~= seq![0usize, 1usize, 2usize, 4usize, 8usize, 9usize, 10usize, 11usize, 3usize, 5usize, 12usize, 13usize, 6usize, 7usize, 15usize, 17usize, 14usize, 16usize, 18usize]);
    assert(o.drop_last().drop_last() =~= seq![0usize, 1usize, 2usize, 4usize, 8usize, 9usize, 10usize, 11usize, 3usize, 5usize, 12usize, 13usize, 6usize, 7usize, 15usize, 17usize, 14usize, 16usize]);
    assert(o.drop_last().drop_last().drop_last() =~= seq![0usize, 1usize, 2usize, 4usize, 8usize, 9usize, 10usize, 11usize, 3usize, 5usize, 12usize, 13usize, 6usize, 7usize, 15usize, 17usize, 14usize]);
    assert(o.drop_last().drop_last().drop_last().drop_last() =~= seq![0usize, 1usize, 2usize, 4usize, 8usize, 9usize, 10usize, 11usize, 3usize, 5usize, 12usize, 13usize, 6usize, 7usize, 15usize, 17usize]);
    assert(o.drop_last().drop_last().drop_last().drop_last().drop_last() =~= seq![0usize, 1usize, 2usize, 4usize, 8usize, 9usize, 10usize, 11usize, 3usize, 5usize, 12usize, 13usize, 6usize, 7usize, 15usize]);
    assert(o.drop_last().drop_last().drop_last().drop_last().drop_last().drop_last() =~= seq![0usize, 1usize, 2usize, 4usize, 8usize, 9usize, 10usize, 11usize, 3usize, 5usize, 12usize, 13usize, 6usize, 7usize]);
    assert(o.drop_last().drop_last().drop_last().drop_last().drop_last().drop_last().drop_last() =~= seq![0usize, 1usize, 2usize, 4usize, 8usize, 9usize, 10usize, 11usize, 3usize, 5usize, 12usize, 13usize, 6usize]);
    assert(o.drop_last().drop_last().drop_last().drop_last().drop_last().drop_last().drop_last().drop_last() =~= seq![0usize, 1usize, 2usize, 4usize, 8usize, 9usize, 10usize, 11usize, 3usize, 5usize, 12usize, 13usize]);
    assert(o.drop_last().drop_last().drop_last().drop_last().drop_last().drop_last().drop_last().drop_last().drop_last() =~= seq![0usize, 1usize, 2usize, 4usize, 8usize, 9usize, 10usize, 11usize, 3usize, 5usize, 12usize]);
    assert(o.drop_last().drop_last().drop_last().drop_last().drop_last().drop_last().drop_last().drop_last().drop_last().drop_last() =~= seq![0usize, 1usize, 2usize, 4usize, 8usize, 9usize, 10usize, 11usize, 3usize, 5usize]);
    assert(o.drop_last().drop_last().drop_last().drop_last().drop_last().drop_last().drop_last().drop_last().drop_last().drop_last().drop_last() =~= seq![0usize, 1usize, 2usize, 4usize, 8usize, 9usize, 10usize, 11usize, 3usize]);
    assert(o.drop_last().drop_last().drop_last().drop_last().drop_last().drop_last().drop_last().drop_last().drop_last().drop_last().drop_last().drop_last() =~= seq![0usize, 1usize, 2usize, 4usize, 8usize, 9usize, 10usize, 11usize]);
    assert(o.drop_last().drop_last().drop_last().drop_last().drop_last().drop_last().drop_last().drop_last().drop_last().drop_last().drop_last().drop_last().drop_last() =~= seq![0usize, 1usize, 2usize, 4usize, 8usize, 9usize, 10usize]);
    assert(o.drop_last().drop_last().drop_last().drop_last().drop_last().drop_last().drop_last().drop_last().drop_last().drop_last().drop_last().drop_last().drop_last().drop_last() =~= seq![0usize, 1usize, 2usize, 4usize, 8usize, 9usize]);
    assert(o.drop_last().drop_last().drop_last().drop_last().drop_last().drop_last().drop_last().drop_last().drop_last().drop_last().drop_last().drop_last().drop_last().drop_last().drop_last() =~= seq![0usize, 1usize, 2usize, 4usize, 8usize]);
    assert(o.drop_last().drop_last().drop_last().drop_last().drop_last().drop_last().drop_last().drop_last().drop_last().drop_last().drop_last().drop_last().drop_last().drop_last().drop_last().drop_last() =~= seq![0usize, 1usize, 2usize, 4usize]);
    assert(o.drop_last().drop_last().drop_last().drop_last().drop_last().drop_last().drop_last().drop_last().drop_last().drop_last().drop_last().drop_last().drop_last().drop_last().drop_last().drop_last().drop_last() =~= seq![0usize, 1usize, 2usize]);
    assert(o.drop_last().drop_last().drop_last().drop_last().drop_last().drop_last().drop_last().drop_last().drop_last().drop_last().drop_last().drop_last().drop_last().drop_last().drop_last().drop_last().drop_last().drop_last() =~= seq![0usize, 1usize]);
    assert(o.drop_last().drop_last().drop_last().drop_last().drop_last().drop_last().drop_last().drop_last().drop_last().drop_last().drop_last().drop_last().drop_last().drop_last().drop_last().drop_last().drop_last().drop_last().drop_last() =~= seq![0usize]);
    assert(o.drop_last().drop_last().drop_last().drop_last().drop_last().drop_last().drop_last().drop_last().drop_last().drop_last().drop_last().drop_last().drop_last().drop_last().drop_last().drop_last().drop_last().drop_last().drop_last().drop_last() =~= Seq::<usize>::empty());
    reveal_with_fuel(sweep, 21);
}

/// The wire states the sweeps settle on, for each level of the inputs.
pub open spec fn mux2_settled(x: bool, y: bool, z: bool) -> Seq<SignalState> {
    let H = SignalState::High;
    let L = SignalState::Low;
    let F = SignalState::Floating;
    if x && y && z {
        seq![H, L, H, H, H, L, H, H, L, L, L, H, L, H, H]
    } else if x && y && !z {
        seq![H, L, H, H, L, H, L, L, H, H, H, L, L, L, H]
    } else if x && !y && z {
        seq![H, L, H, L, H, L, H, H, L, H, L, L, H, H, L]
    } else if x && !y && !z {
        seq![H, L, H, L, L, H, L, L, H, H, F, L, L, L, H]
    } else if !x && y && z {
        seq![H, L, L, H, H, L, H, F, L, L, L, H, L, H, H]
    } else if !x && y && !z {
        seq![H, L, L, H, L, H, H, L, L, H, H, L, H, H, L]
    } else if !x && !y && z {
        seq![H, L, L, L, H, L, H, F, L, H, L, L, H, H, L]
    } else {
        seq![H, L, L, L, L, H, H, L, L, H, F, L, H, H, L]
    }
}

#[verifier::rlimit(40)]
proof fn lemma_mux2_settles_h_h_h()
    ensures
        settle(mux2_start(true, true, true), mux2_drives(true, true, true), mux_2to1_cells(SignalId(2), SignalId(3), SignalId(4), 5), mux2_order(), 21) == mux2_settled(true, true, true),
{
    let H = SignalState::High;
    let L = SignalState::Low;
    let F = SignalState::Floating;
    let d = mux2_drives(true, true, true);
    let cells = mux_2to1_cells(SignalId(2), SignalId(3), SignalId(4), 5);
    lemma_mux2_cells();
    let o = mux2_order();
    let s0 = mux2_start(true, true, true);
    assert(s0 =~= seq![H, L, H, H, H, F, F, F, F, F, F, F, F, F, F]);
    assert(d =~= seq![Some(H), Some(L), Some(H), Some(H), Some(H), None, None, None, None, None, None, None, None, None, None]);
    lemma_mux2_sweep(s0, d, cells);
    let s1 = seq![H, L, H, H, H, L, H, F, L, F, L, F, F, H, F];
    let s2 = seq![H, L, H, H, H, L, H, H, L, L, L, H, L, H, H];
    assert(sweep(s0, d, cells, o) =~= s1);
    lemma_mux2_sweep(s1, d, cells);
    assert(sweep(s1, d, cells, o) =~= s2);
    lemma_mux2_sweep(s2, d, cells);
    assert(sweep(s2, d, cells, o) =~= s2);
    assert(s1 != s0) by {
        assert(s1[5] != s0[5]);
    }
    assert(s2 != s1) by {
        assert(s2[7] != s1[7]);
    }
    assert(settle(s2, d, cells, o, 19) == s2);
    assert(settle(s1, d, cells, o, 20) == settle(s2, d, cells, o, 19));
    assert(settle(s0, d, cells, o, 21) == settle(s1, d, cells, o, 20));
    assert(s2 =~= mux2_settled(true, true, true));
}

#[verifier::rlimit(40)]
proof fn lemma_mux2_settles_h_h_l()
    ensures
        settle(mux2_start(true, true, false), mux2_drives(true, true, false), mux_2to1_cells(SignalId(2), SignalId(3), SignalId(4), 5), mux2_order(), 21) == mux2_settled(true, true, false),
{
    let H = SignalState::High;
    let L = SignalState::Low;
    let F = SignalState::Floating;
    let d = mux2_drives(true, true, false);
    let cells = mux_2to1_cells(SignalId(2), SignalId(3), SignalId(4), 5);
    lemma_mux2_cells();
    let o = mux2_order();
    let s0 = mux2_start(true, true, false);
    assert(s0 =~= seq![H, L, H, H, L, F, F, F, F, F, F, F, F, F, F]);
    assert(d =~= seq![Some(H), Some(L), Some(H), Some(H), Some(L), None, None, None, None, None, None, None, None, None, None]);
    lemma_mux2_sweep(s0, d, cells);
    let s1 = seq![H, L, H, H, L, H, F, L, F, H, H, L, F, F, F];
    let s2 = seq![H, L, H, H, L, H, L, L, H, H, H, L, L, F, H];
    let s3 = seq![H, L, H, H, L, H, L, L, H, H, H, L, L, L, H];
    assert(sweep(s0, d, cells, o) =~= s1);
    lemma_mux2_sweep(s1, d, cells);
    assert(sweep(s1, d, cells, o) =~= s2);
    lemma_mux2_sweep(s2, d, cells);
    assert(sweep(s2, d, cells, o) =~= s3);
    lemma_mux2_sweep(s3, d, cells);
    assert(sweep(s3, d, cells, o) =~= s3);
    assert(s1 != s0) by {
        assert(s1[5] != s0[5]);
    }
    assert(s2 != s1) by {
        assert(s2[6] != s1[6]);
    }
    assert(s3 != s2) by {
        assert(s3[13] != s2[13]);
    }
    assert(settle(s3, d, cells, o, 18) == s3);
    assert(settle(s2, d, cells, o, 19) == settle(s3, d, cells, o, 18));
    assert(settle(s1, d, cells, o, 20) == settle(s2, d, cells, o, 19));
    assert(settle(s0, d, cells, o, 21) == settle(s1, d, cells, o, 20));
    assert(s3 =~= mux2_settled(true, true, false));
}

#[verifier::rlimit(40)]
proof fn lemma_mux2_settles_h_l_h()
    ensures
        settle(mux2_start(true, false, true), mux2_drives(true, false, true), mux_2to1_cells(SignalId(2), SignalId(3), SignalId(4), 5), mux2_order(), 21) == mux2_settled(true, false, true),
{
    let H = SignalState::High;
    let L = SignalState::Low;
    let F = SignalState::Floating;
    let d = mux2_drives(true, false, true);
    let cells = mux_2to1_cells(SignalId(2), SignalId(3), SignalId(4), 5);
    lemma_mux2_cells();
    let o = mux2_order();
    let s0 = mux2_start(true, false, true);
    assert(s0 =~= seq![H, L, H, L, H, F, F, F, F, F, F, F, F, F, F]);
    assert(d =~= seq![Some(H), Some(L), Some(H), Some(L), Some(H), None, None, None, None, None, None, None, None, None, None]);
    lemma_mux2_sweep(s0, d, cells);
    let s1 = seq![H, L, H, L, H, L, H, F, L, H, L, L, F, H, F];
    let s2 = seq![H, L, H, L, H, L, H, H, L, H, L, L, H, H, L];
    assert(sweep(s0, d, cells, o) =~= s1);
    lemma_mux2_sweep(s1, d, cells);
    assert(sweep(s1, d, cells, o) =~= s2);
    lemma_mux2_sweep(s2, d, cells);
    assert(sweep(s2, d, cells, o) =~= s2);
    assert(s1 != s0) by {
        assert(s1[5] != s0[5]);
    }
    assert(s2 != s1) by {
        assert(s2[7] != s1[7]);
    }
    assert(settle(s2, d, cells, o, 19) == s2);
    assert(settle(s1, d, cells, o, 20) == settle(s2, d, cells, o, 19));
    assert(settle(s0, d, cells, o, 21) == settle(s1, d, cells, o, 20));
    assert(s2 =~= mux2_settled(true, false, true));
}

#[verifier::rlimit(40)]
proof fn lemma_mux2_settles_h_l_l()
    ensures
        settle(mux2_start(true, false, false), mux2_drives(true, false, false), mux_2to1_cells(SignalId(2), SignalId(3), SignalId(4), 5), mux2_order(), 21) == mux2_settled(true, false, false),
{
    let H = SignalState::High;
    let L = SignalState::Low;
    let F = SignalState::Floating;
    let d = mux2_drives(true, false, false);
    let cells = mux_2to1_cells(SignalId(2), SignalId(3), SignalId(4), 5);
    lemma_mux2_cells();
    let o = mux2_order();
    let s0 = mux2_start(true, false, false);
    assert(s0 =~= seq![H, L, H, L, L, F, F, F, F, F, F, F, F, F, F]);
    assert(d =~= seq![Some(H), Some(L), Some(H), Some(L), Some(L), None, None, None, None, None, None, None, None, None, None]);
    lemma_mux2_sweep(s0, d, cells);
    let s1 = seq![H, L, H, L, L, H, F, L, F, H, F, L, F, F, F];
    let s2 = seq![H, L, H, L, L, H, L, L, H, H, F, L, L, F, H];
    let s3 = seq![H, L, H, L, L, H, L, L, H, H, F, L, L, L, H];
    assert(sweep(s0, d, cells, o) =~= s1);
    lemma_mux2_sweep(s1, d, cells);
    assert(sweep(s1, d, cells, o) =~= s2);
    lemma_mux2_sweep(s2, d, cells);
    assert(sweep(s2, d, cells, o) =~= s3);
    lemma_mux2_sweep(s3, d, cells);
    assert(sweep(s3, d, cells, o) =~= s3);
    assert(s1 != s0) by {
        assert(s1[5] != s0[5]);
    }
    assert(s2 != s1) by {
        assert(s2[6] != s1[6]);
    }
    assert(s3 != s2) by {
        assert(s3[13] != s2[13]);
    }
    assert(settle(s3, d, cells, o, 18) == s3);
    assert(settle(s2, d, cells, o, 19) == settle(s3, d, cells, o, 18));
    assert(settle(s1, d, cells, o, 20) == settle(s2, d, cells, o, 19));
    assert(settle(s0, d, cells, o, 21) == settle(s1, d, cells, o, 20));
    assert(s3 =~= mux2_settled(true, false, false));
}

#[verifier::rlimit(40)]
proof fn lemma_mux2_settles_l_h_h()
    ensures
        settle(mux2_start(false, true, true), mux2_drives(false, true, true), mux_2to1_cells(SignalId(2), SignalId(3), SignalId(4), 5), mux2_order(), 21) == mux2_settled(false, true, true),
{
    let H = SignalState::High;
    let L = SignalState::Low;
    let F = SignalState::Floating;
    let d = mux2_drives(false, true, true);
    let cells = mux_2to1_cells(SignalId(2), SignalId(3), SignalId(4), 5);
    lemma_mux2_cells();
    let o = mux2_order();
    let s0 = mux2_start(false, true, true);
    assert(s0 =~= seq![H, L, L, H, H, F, F, F, F, F, F, F, F, F, F]);
    assert(d =~= seq![Some(H), Some(L), Some(L), Some(H), Some(H), None, None, None, None, None, None, None, None, None, None]);
    lemma_mux2_sweep(s0, d, cells);
    let s1 = seq![H, L, L, H, H, L, H, F, L, F, L, F, F, H, F];
    let s2 = seq![H, L, L, H, H, L, H, F, L, L, L, H, L, H, H];
    assert(sweep(s0, d, cells, o) =~= s1);
    lemma_mux2_sweep(s1, d, cells);
    assert(sweep(s1, d, cells, o) =~= s2);
    lemma_mux2_sweep(s2, d, cells);
    assert(sweep(s2, d, cells, o) =~= s2);
    assert(s1 != s0) by {
        assert(s1[5] != s0[5]);
    }
    assert(s2 != s1) by {
        assert(s2[9] != s1[9]);
    }
    assert(settle(s2, d, cells, o, 19) == s2);
    assert(settle(s1, d, cells, o, 20) == settle(s2, d, cells, o, 19));
    assert(settle(s0, d, cells, o, 21) == settle(s1, d, cells, o, 20));
    assert(s2 =~= mux2_settled(false, true, true));
}

#[verifier::rlimit(40)]
proof fn lemma_mux2_settles_l_h_l()
    ensures
        settle(mux2_start(false, true, false), mux2_drives(false, true, false), mux_2to1_cells(SignalId(2), SignalId(3), SignalId(4), 5), mux2_order(), 21) == mux2_settled(false, true, false),
{
    let H = SignalState::High;
    let L = SignalState::Low;
    let F = SignalState::Floating;
    let d = mux2_drives(false, true, false);
    let cells = mux_2to1_cells(SignalId(2), SignalId(3), SignalId(4), 5);
    lemma_mux2_cells();
    let o = mux2_order();
    let s0 = mux2_start(false, true, false);
    assert(s0 =~= seq![H, L, L, H, L, F, F, F, F, F, F, F, F, F, F]);
    assert(d =~= seq![Some(H), Some(L), Some(L), Some(H), Some(L), None, None, None, None, None, None, None, None, None, None]);
    lemma_mux2_sweep(s0, d, cells);
    let s1 = seq![H, L, L, H, L, H, H, L, L, H, H, L, F, H, F];
    let s2 = seq![H, L, L, H, L, H, H, L, L, H, H, L, H, H, L];
    assert(sweep(s0, d, cells, o) =~= s1);
    lemma_mux2_sweep(s1, d, cells);
    assert(sweep(s1, d, cells, o) =~= s2);
    lemma_mux2_sweep(s2, d, cells);
    assert(sweep(s2, d, cells, o) =~= s2);
    assert(s1 != s0) by {
        assert(s1[5] != s0[5]);
    }
    assert(s2 != s1) by {
        assert(s2[12] != s1[12]);
    }
    assert(settle(s2, d, cells, o, 19) == s2);
    assert(settle(s1, d, cells, o, 20) == settle(s2, d, cells, o, 19));
    assert(settle(s0, d, cells, o, 21) == settle(s1, d, cells, o, 20));
    assert(s2 =~= mux2_settled(false, true, false));
}

#[verifier::rlimit(40)]
proof fn lemma_mux2_settles_l_l_h()
    ensures
        settle(mux2_start(false, false, true), mux2_drives(false, false, true), mux_2to1_cells(SignalId(2), SignalId(3), SignalId(4), 5), mux2_order(), 21) == mux2_settled(false, false, true),
{
    let H = SignalState::High;
    let L = SignalState::Low;
    let F = SignalState::Floating;
    let d = mux2_drives(false, false, true);
    let cells = mux_2to1_cells(SignalId(2), SignalId(3), SignalId(4), 5);
    lemma_mux2_cells();
    let o = mux2_order();
    let s0 = mux2_start(false, false, true);
    assert(s0 =~= seq![H, L, L, L, H, F, F, F, F, F, F, F, F, F, F]);
    assert(d =~= seq![Some(H), Some(L), Some(L), Some(L), Some(H), None, None, None, None, None, None, None, None, None, None]);
    lemma_mux2_sweep(s0, d, cells);
    let s1 = seq![H, L, L, L, H, L, H, F, L, H, L, L, F, H, F];
    let s2 = seq![H, L, L, L, H, L, H, F, L, H, L, L, H, H, L];
    assert(sweep(s0, d, cells, o) =~= s1);
    lemma_mux2_sweep(s1, d, cells);
    assert(sweep(s1, d, cells, o) =~= s2);
    lemma_mux2_sweep(s2, d, cells);
    assert(sweep(s2, d, cells, o) =~= s2);
    assert(s1 != s0) by {
        assert(s1[5] != s0[5]);
    }
    assert(s2 != s1) by {
        assert(s2[12] != s1[12]);
    }
    assert(settle(s2, d, cells, o, 19) == s2);
    assert(settle(s1, d, cells, o, 20) == settle(s2, d, cells, o, 19));
    assert(settle(s0, d, cells, o, 21) == settle(s1, d, cells, o, 20));
    assert(s2 =~= mux2_settled(false, false, true));
}

#[verifier::rlimit(40)]
proof fn lemma_mux2_settles_l_l_l()
    ensures
        settle(mux2_start(false, false, false), mux2_drives(false, false, false), mux_2to1_cells(SignalId(2), SignalId(3), SignalId(4), 5), mux2_order(), 21) == mux2_settled(false, false, false),
{
    let H = SignalState::High;
    let L = SignalState::Low;
    let F = SignalState::Floating;
    let d = mux2_drives(false, false, false);
    let cells = mux_2to1_cells(SignalId(2), SignalId(3), SignalId(4), 5);
    lemma_mux2_cells();
    let o = mux2_order();
    let s0 = mux2_start(false, false, false);
    assert(s0 =~= seq![H, L, L, L, L, F, F, F, F, F, F, F, F, F, F]);
    assert(d =~= seq![Some(H), Some(L), Some(L), Some(L), Some(L), None, None, None, None, None, None, None, None, None, None]);
    lemma_mux2_sweep(s0, d, cells);
    let s1 = seq![H, L, L, L, L, H, H, L, L, H, F, L, F, H, F];
    let s2 = seq![H, L, L, L, L, H, H, L, L, H, F, L, H, H, L];
    assert(sweep(s0, d, cells, o) =~= s1);
    lemma_mux2_sweep(s1, d, cells);
    assert(sweep(s1, d, cells, o) =~= s2);
    lemma_mux2_sweep(s2, d, cells);
    assert(sweep(s2, d, cells, o) =~= s2);
    assert(s1 != s0) by {
        assert(s1[5] != s0[5]);
    }
    assert(s2 != s1) by {
        assert(s2[12] != s1[12]);
    }
    assert(settle(s2, d, cells, o, 19) == s2);
    assert(settle(s1, d, cells, o, 20) == settle(s2, d, cells, o, 19));
    assert(settle(s0, d, cells, o, 21) == settle(s1, d, cells, o, 20));
    assert(s2 =~= mux2_settled(false, false, false));
}

proof fn lemma_mux2_settles(x: bool, y: bool, z: bool)
    ensures
        settle(mux2_start(x, y, z), mux2_drives(x, y, z), mux_2to1_cells(SignalId(2), SignalId(3), SignalId(4), 5), mux2_order(), 21) == mux2_settled(x, y, z),
{
    if x && y && z {
        lemma_mux2_settles_h_h_h();
    } else if x && y && !z {
        lemma_mux2_settles_h_h_l();
    } else if x && !y && z {
        lemma_mux2_settles_h_l_h();
    } else if x && !y && !z {
        lemma_mux2_settles_h_l_l();
    } else if !x && y && z {
        lemma_mux2_settles_l_h_h();
    } else if !x && y && !z {
        lemma_mux2_settles_l_h_l();
    } else if !x && !y && z {
        lemma_mux2_settles_l_l_h();
    } else {
        lemma_mux2_settles_l_l_l();
    }
}

/// A 2:1 multiplexer selects. On the graph that `new`, three
/// `add_signal`s (a, b and the select line) and `mux_2to1` on them build
/// (inputs 2, 3 and 4, the output on wire 14), with every input driven High
/// or Low, the wire states `propagate` settles in (with the evaluation
/// order it builds) put the output at b's level when the select line is
/// High and at a's level when it is Low.
#[verifier::rlimit(40)]
pub proof fn lemma_mux2_truth_table(g: SignalGraph, prev: Seq<SignalState>, x: bool, y: bool, z: bool)
    requires
        lone_mux2(g),
        g.driven@ == mux2_drives(x, y, z),
        g.is_schedule(g.eval_order@),
        g.is_queue_order(g.eval_order@),
        prev.len() == 15,
    ensures
        g.settled_from(prev)[14] == level(if z { y } else { x }),
{
    let o = g.eval_order@;
    assert(g.cells().len() == g.kinds@.len());
    lemma_mux2_order(g);
    lemma_all_scheduled(o, 20);
    assert(full_order(o, 20) =~= mux2_order());
    assert(reset_states(prev, g.driven@) =~= mux2_start(x, y, z));
    lemma_mux2_settles(x, y, z);
    let st = mux2_settled(x, y, z);
    lemma_mux2_cells();
    assert(g.kinds@.len() == 20);
    assert(unscheduled(o, 20).len() == 0);
    assert(settle(reset_states(prev, g.driven@), g.driven@, g.cells(), full_order(o, 20), 21) == st);
    assert(keep_stored(st, prev, g.sequential@) =~= st);
    assert(g.settled_from(prev) == apply_drives(st, g.driven@));
    assert(apply_drives(st, g.driven@)[14] == st[14]);
}

} // verus!
