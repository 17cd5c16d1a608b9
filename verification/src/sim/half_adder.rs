use vstd::prelude::*;

use crate::sim::gate::half_adder_cells;
use crate::sim::transistor::{and_cells, xor_cells};
use crate::sim::transistor::{
    apply_drives, feeds_in, full_order, unscheduled, keep_stored, last_feeder, lemma_last_feeder_none,
    lemma_schedule_len, queued_before, reset_states, scheduled, settle, sig, step, sweep, Cell,
    SignalGraph, SignalId, SignalState, TransistorId, TransistorKind,
};
use crate::sim::truth::{lemma_all_scheduled, lemma_last_feeder_at_least, lemma_last_feeder_feeds, level};

verus! {

/// The graph `new` makes, with two signals added and a half adder on them:
/// rails 0 and 1, inputs 2 and 3, the XOR's wires 4 to 11 (the sum on 10),
/// the AND's wires 12 to 14 (the carry on 14).
pub open spec fn lone_half_adder(g: SignalGraph) -> bool {
    &&& g.wf()
    &&& g.cells() == half_adder_cells(SignalId(2), SignalId(3), 4)
    &&& g.signals@.len() == 15
    &&& g.sequential@.len() == 0
}

/// The wires before a propagation: the rails, the inputs at the given
/// levels, every other wire floating.
pub open spec fn half_adder_start(x: bool, y: bool) -> Seq<SignalState> {
    seq![SignalState::High, SignalState::Low, level(x), level(y)] + seq![SignalState::Floating; 11]
}

/// The rails and the inputs driven, nothing else.
pub open spec fn half_adder_drives(x: bool, y: bool) -> Seq<Option<SignalState>> {
    seq![Some(SignalState::High), Some(SignalState::Low), Some(level(x)), Some(level(y))] + seq![None::<SignalState>; 11]
}

/// The order Kahn's queue gives the transistors.
pub open spec fn half_adder_order() -> Seq<usize> {
    seq![0usize, 1usize, 2usize, 3usize, 4usize, 6usize, 8usize, 10usize, 16usize, 17usize, 18usize, 19usize, 5usize, 7usize, 9usize, 11usize, 20usize, 21usize, 12usize, 14usize, 13usize, 15usize]
}

proof fn lemma_half_adder_cells()
    ensures
        half_adder_cells(SignalId(2), SignalId(3), 4) == seq![
        (TransistorKind::PMOS, SignalId(2), sig(0), sig(4)),
        (TransistorKind::PMOS, SignalId(3), sig(0), sig(4)),
        (TransistorKind::NMOS, SignalId(2), sig(5), sig(4)),
        (TransistorKind::NMOS, SignalId(3), sig(1), sig(5)),
        (TransistorKind::PMOS, SignalId(2), sig(0), sig(6)),
        (TransistorKind::PMOS, sig(4), sig(0), sig(6)),
        (TransistorKind::NMOS, SignalId(2), sig(7), sig(6)),
        (TransistorKind::NMOS, sig(4), sig(1), sig(7)),
        (TransistorKind::PMOS, SignalId(3), sig(0), sig(8)),
        (TransistorKind::PMOS, sig(4), sig(0), sig(8)),
        (TransistorKind::NMOS, SignalId(3), sig(9), sig(8)),
        (TransistorKind::NMOS, sig(4), sig(1), sig(9)),
        (TransistorKind::PMOS, sig(6), sig(0), sig(10)),
        (TransistorKind::PMOS, sig(8), sig(0), sig(10)),
        (TransistorKind::NMOS, sig(6), sig(11), sig(10)),
        (TransistorKind::NMOS, sig(8), sig(1), sig(11)),
        (TransistorKind::PMOS, SignalId(2), sig(0), sig(12)),
        (TransistorKind::PMOS, SignalId(3), sig(0), sig(12)),
        (TransistorKind::NMOS, SignalId(2), sig(13), sig(12)),
        (TransistorKind::NMOS, SignalId(3), sig(1), sig(13)),
        (TransistorKind::PMOS, sig(12), sig(0), sig(14)),
        (TransistorKind::NMOS, sig(12), sig(1), sig(14))
    ],
{
    assert(xor_cells(SignalId(2), SignalId(3), 4) =~= seq![
        (TransistorKind::PMOS, SignalId(2), sig(0), sig(4)),
        (TransistorKind::PMOS, SignalId(3), sig(0), sig(4)),
        (TransistorKind::NMOS, SignalId(2), sig(5), sig(4)),
        (TransistorKind::NMOS, SignalId(3), sig(1), sig(5)),
        (TransistorKind::PMOS, SignalId(2), sig(0), sig(6)),
        (TransistorKind::PMOS, sig(4), sig(0), sig(6)),
        (TransistorKind::NMOS, SignalId(2), sig(7), sig(6)),
        (TransistorKind::NMOS, sig(4), sig(1), sig(7)),
        (TransistorKind::PMOS, SignalId(3), sig(0), sig(8)),
        (TransistorKind::PMOS, sig(4), sig(0), sig(8)),
        (TransistorKind::NMOS, SignalId(3), sig(9), sig(8)),
        (TransistorKind::NMOS, sig(4), sig(1), sig(9)),
        (TransistorKind::PMOS, sig(6), sig(0), sig(10)),
        (TransistorKind::PMOS, sig(8), sig(0), sig(10)),
        (TransistorKind::NMOS, sig(6), sig(11), sig(10)),
        (TransistorKind::NMOS, sig(8), sig(1), sig(11))
    ]);
    assert(and_cells(SignalId(2), SignalId(3), 12) =~= seq![
        (TransistorKind::PMOS, SignalId(2), sig(0), sig(12)),
        (TransistorKind::PMOS, SignalId(3), sig(0), sig(12)),
        (TransistorKind::NMOS, SignalId(2), sig(13), sig(12)),
        (TransistorKind::NMOS, SignalId(3), sig(1), sig(13)),
        (TransistorKind::PMOS, sig(12), sig(0), sig(14)),
        (TransistorKind::NMOS, sig(12), sig(1), sig(14))
    ]);
    reveal(half_adder_cells);
    assert(half_adder_cells(SignalId(2), SignalId(3), 4) == xor_cells(SignalId(2), SignalId(3), 4) + and_cells(
        SignalId(2),
        SignalId(3),
        12,
    ));
    assert(half_adder_cells(SignalId(2), SignalId(3), 4) =~= seq![
        (TransistorKind::PMOS, SignalId(2), sig(0), sig(4)),
        (TransistorKind::PMOS, SignalId(3), sig(0), sig(4)),
        (TransistorKind::NMOS, SignalId(2), sig(5), sig(4)),
        (TransistorKind::NMOS, SignalId(3), sig(1), sig(5)),
        (TransistorKind::PMOS, SignalId(2), sig(0), sig(6)),
        (TransistorKind::PMOS, sig(4), sig(0), sig(6)),
        (TransistorKind::NMOS, SignalId(2), sig(7), sig(6)),
        (TransistorKind::NMOS, sig(4), sig(1), sig(7)),
        (TransistorKind::PMOS, SignalId(3), sig(0), sig(8)),
        (TransistorKind::PMOS, sig(4), sig(0), sig(8)),
        (TransistorKind::NMOS, SignalId(3), sig(9), sig(8)),
        (TransistorKind::NMOS, sig(4), sig(1), sig(9)),
        (TransistorKind::PMOS, sig(6), sig(0), sig(10)),
        (TransistorKind::PMOS, sig(8), sig(0), sig(10)),
        (TransistorKind::NMOS, sig(6), sig(11), sig(10)),
        (TransistorKind::NMOS, sig(8), sig(1), sig(11)),
        (TransistorKind::PMOS, SignalId(2), sig(0), sig(12)),
        (TransistorKind::PMOS, SignalId(3), sig(0), sig(12)),
        (TransistorKind::NMOS, SignalId(2), sig(13), sig(12)),
        (TransistorKind::NMOS, SignalId(3), sig(1), sig(13)),
        (TransistorKind::PMOS, sig(12), sig(0), sig(14)),
        (TransistorKind::NMOS, sig(12), sig(1), sig(14))
    ]);
}

#[verifier::rlimit(100)]
proof fn lemma_half_adder_order(g: SignalGraph)
    requires
        lone_half_adder(g),
        g.is_schedule(g.eval_order@),
        g.is_queue_order(g.eval_order@),
    ensures
        g.eval_order@.map_values(|t: TransistorId| t.0) == half_adder_order(),
        forall|v: int| 0 <= v < 22 ==> scheduled(g.eval_order@, v),
{
    let cells = half_adder_cells(SignalId(2), SignalId(3), 4);
    let o = g.eval_order@;
    let gates = g.gates@;
    let drains = g.drains@;
    lemma_half_adder_cells();
    assert(g.cells().len() == g.kinds@.len());
    assert(g.kinds@.len() == 22);
    assert forall|i: int| 0 <= i < 22 implies gates[i] == (#[trigger] cells[i]).1 && drains[i] == cells[i].3 by {
        assert(g.cells()[i] == cells[i]);
    }
    assert forall|i: int, j: int| 0 <= i < 22 && 0 <= j < 22 && #[trigger] g.feeds(i, j) implies ((i == 0 || i == 1 || i == 2) && (j == 5 || j == 7 || j == 9 || j == 11)) || ((i == 4 || i == 5 || i == 6) && (j == 12 || j == 14)) || ((i == 8 || i == 9 || i == 10) && (j == 13 || j == 15)) || ((i == 16 || i == 17 || i == 18) && (j == 20 || j == 21)) by {
        assert(gates[j] == cells[j].1 && drains[i] == cells[i].3);
    }
    assert(g.feeds(2, 5) && g.feeds(2, 7) && g.feeds(2, 9) && g.feeds(2, 11) && g.feeds(5, 12) && g.feeds(9, 13) && g.feeds(5, 14) && g.feeds(9, 15) && g.feeds(18, 20) && g.feeds(18, 21)) by {
        assert forall|i: int, j: int| 0 <= i < 22 && 0 <= j < 22 implies (#[trigger] g.feeds(i, j) <==> drains[i].0
            == gates[j].0) by {}
    }
    assert forall|j: int| j == 0 || j == 1 || j == 2 || j == 3 || j == 4 || j == 6 || j == 8 || j == 10 || j == 16 || j == 17 || j == 18 || j == 19 implies scheduled(o, j) by {
        if !scheduled(o, j) {
            let i = choose|i: int| 0 <= i < 22 && #[trigger] g.feeds(i, j) && !scheduled(o, i);
            assert(scheduled(o, i));
        }
    }
    assert forall|j: int| j == 0 || j == 1 || j == 2 || j == 3 || j == 4 || j == 5 || j == 6 || j == 7 || j == 8 || j == 9 || j == 10 || j == 11 || j == 16 || j == 17 || j == 18 || j == 19 || j == 20 || j == 21 implies scheduled(o, j) by {
        if !scheduled(o, j) {
            let i = choose|i: int| 0 <= i < 22 && #[trigger] g.feeds(i, j) && !scheduled(o, i);
            assert(scheduled(o, i));
        }
    }
    assert forall|j: int| j == 0 || j == 1 || j == 2 || j == 3 || j == 4 || j == 5 || j == 6 || j == 7 || j == 8 || j == 9 || j == 10 || j == 11 || j == 12 || j == 13 || j == 14 || j == 15 || j == 16 || j == 17 || j == 18 || j == 19 || j == 20 || j == 21 implies scheduled(o, j) by {
        if !scheduled(o, j) {
            let i = choose|i: int| 0 <= i < 22 && #[trigger] g.feeds(i, j) && !scheduled(o, i);
            assert(scheduled(o, i));
        }
    }
    lemma_schedule_len(o, 22);
    assert(scheduled(o, 0) && scheduled(o, 1) && scheduled(o, 2) && scheduled(o, 3) && scheduled(o, 4) && scheduled(o, 5) && scheduled(o, 6) && scheduled(o, 7) && scheduled(o, 8) && scheduled(o, 9) && scheduled(o, 10) && scheduled(o, 11) && scheduled(o, 12) && scheduled(o, 13) && scheduled(o, 14) && scheduled(o, 15) && scheduled(o, 16) && scheduled(o, 17) && scheduled(o, 18) && scheduled(o, 19) && scheduled(o, 20) && scheduled(o, 21));
    let p0 = choose|k: int| 0 <= k < o.len() && #[trigger] o[k].0 == 0;
    let p1 = choose|k: int| 0 <= k < o.len() && #[trigger] o[k].0 == 1;
    let p2 = choose|k: int| 0 <= k < o.len() && #[trigger] o[k].0 == 2;
    let p3 = choose|k: int| 0 <= k < o.len() && #[trigger] o[k].0 == 3;
    let p4 = choose|k: int| 0 <= k < o.len() && #[trigger] o[k].0 == 4;
    let p5 = choose|k: int| 0 <= k < o.len() && #[trigger] o[k].0 == 5;
    let p6 = choose|k: int| 0 <= k < o.len() && #[trigger] o[k].0 == 6;
    let p7 = choose|k: int| 0 <= k < o.len() && #[trigger] o[k].0 == 7;
    let p8 = choose|k: int| 0 <= k < o.len() && #[trigger] o[k].0 == 8;
    let p9 = choose|k: int| 0 <= k < o.len() && #[trigger] o[k].0 == 9;
    let p10 = choose|k: int| 0 <= k < o.len() && #[trigger] o[k].0 == 10;
    let p11 = choose|k: int| 0 <= k < o.len() && #[trigger] o[k].0 == 11;
    let p12 = choose|k: int| 0 <= k < o.len() && #[trigger] o[k].0 == 12;
    let p13 = choose|k: int| 0 <= k < o.len() && #[trigger] o[k].0 == 13;
    let p14 = choose|k: int| 0 <= k < o.len() && #[trigger] o[k].0 == 14;
    let p15 = choose|k: int| 0 <= k < o.len() && #[trigger] o[k].0 == 15;
    let p16 = choose|k: int| 0 <= k < o.len() && #[trigger] o[k].0 == 16;
    let p17 = choose|k: int| 0 <= k < o.len() && #[trigger] o[k].0 == 17;
    let p18 = choose|k: int| 0 <= k < o.len() && #[trigger] o[k].0 == 18;
    let p19 = choose|k: int| 0 <= k < o.len() && #[trigger] o[k].0 == 19;
    let p20 = choose|k: int| 0 <= k < o.len() && #[trigger] o[k].0 == 20;
    let p21 = choose|k: int| 0 <= k < o.len() && #[trigger] o[k].0 == 21;
    let len = o.len() as int;
    assert forall|v: int| v == 0 || v == 1 || v == 2 || v == 3 || v == 4 || v == 6 || v == 8 || v == 10 || v == 16 || v == 17 || v == 18 || v == 19 implies last_feeder(gates, drains, o, v, len) == -1 by {
        assert forall|q: int| 0 <= q < len implies !feeds_in(gates, drains, #[trigger] o[q].0 as int, v) by {
            assert(!g.feeds(o[q].0 as int, v));
        }
        lemma_last_feeder_none(gates, drains, o, v, len);
    }
    assert(p0 < p1) by {
        if p1 < p0 {
            assert(queued_before(gates, drains, o, p1, p0));
        }
    }
    assert(p1 < p2) by {
        if p2 < p1 {
            assert(queued_before(gates, drains, o, p2, p1));
        }
    }
    assert(p2 < p3) by {
        if p3 < p2 {
            assert(queued_before(gates, drains, o, p3, p2));
        }
    }
    assert(p3 < p4) by {
        if p4 < p3 {
            assert(queued_before(gates, drains, o, p4, p3));
        }
    }
    assert(p4 < p6) by {
        if p6 < p4 {
            assert(queued_before(gates, drains, o, p6, p4));
        }
    }
    assert(p6 < p8) by {
        if p8 < p6 {
            assert(queued_before(gates, drains, o, p8, p6));
        }
    }
    assert(p8 < p10) by {
        if p10 < p8 {
            assert(queued_before(gates, drains, o, p10, p8));
        }
    }
    assert(p10 < p16) by {
        if p16 < p10 {
            assert(queued_before(gates, drains, o, p16, p10));
        }
    }
    assert(p16 < p17) by {
        if p17 < p16 {
            assert(queued_before(gates, drains, o, p17, p16));
        }
    }
    assert(p17 < p18) by {
        if p18 < p17 {
            assert(queued_before(gates, drains, o, p18, p17));
        }
    }
    assert(p18 < p19) by {
        if p19 < p18 {
            assert(queued_before(gates, drains, o, p19, p18));
        }
    }
    assert(g.feeds(2, 5));
    assert(feeds_in(gates, drains, o[p2].0 as int, 5));
    lemma_last_feeder_at_least(gates, drains, o, 5, p2, len);
    lemma_last_feeder_feeds(gates, drains, o, 5, len);
    let lf5 = last_feeder(gates, drains, o, 5, len);
    assert(lf5 == p2) by {
        assert(g.feeds(o[lf5].0 as int, 5));
        if o[lf5].0 == 0 {
            if lf5 != p0 { assert(o[lf5].0 == o[p0].0); }
        } else if o[lf5].0 == 1 {
            if lf5 != p1 { assert(o[lf5].0 == o[p1].0); }
        } else {
            if lf5 != p2 { assert(o[lf5].0 == o[p2].0); }
        }
    }
    assert(p19 < p5) by {
        if p5 < p19 {
            assert(queued_before(gates, drains, o, p5, p19));
        }
    }
    assert(g.feeds(2, 7));
    assert(feeds_in(gates, drains, o[p2].0 as int, 7));
    lemma_last_feeder_at_least(gates, drains, o, 7, p2, len);
    lemma_last_feeder_feeds(gates, drains, o, 7, len);
    let lf7 = last_feeder(gates, drains, o, 7, len);
    assert(lf7 == p2) by {
        assert(g.feeds(o[lf7].0 as int, 7));
        if o[lf7].0 == 0 {
            if lf7 != p0 { assert(o[lf7].0 == o[p0].0); }
        } else if o[lf7].0 == 1 {
            if lf7 != p1 { assert(o[lf7].0 == o[p1].0); }
        } else {
            if lf7 != p2 { assert(o[lf7].0 == o[p2].0); }
        }
    }
    assert(p5 < p7) by {
        if p7 < p5 {
            assert(queued_before(gates, drains, o, p7, p5));
        }
    }
    assert(g.feeds(2, 9));
    assert(feeds_in(gates, drains, o[p2].0 as int, 9));
    lemma_last_feeder_at_least(gates, drains, o, 9, p2, len);
    lemma_last_feeder_feeds(gates, drains, o, 9, len);
    let lf9 = last_feeder(gates, drains, o, 9, len);
    assert(lf9 == p2) by {
        assert(g.feeds(o[lf9].0 as int, 9));
        if o[lf9].0 == 0 {
            if lf9 != p0 { assert(o[lf9].0 == o[p0].0); }
        } else if o[lf9].0 == 1 {
            if lf9 != p1 { assert(o[lf9].0 == o[p1].0); }
        } else {
            if lf9 != p2 { assert(o[lf9].0 == o[p2].0); }
        }
    }
    assert(p7 < p9) by {
        if p9 < p7 {
            assert(queued_before(gates, drains, o, p9, p7));
        }
    }
    assert(g.feeds(2, 11));
    assert(feeds_in(gates, drains, o[p2].0 as int, 11));
    lemma_last_feeder_at_least(gates, drains, o, 11, p2, len);
    lemma_last_feeder_feeds(gates, drains, o, 11, len);
    let lf11 = last_feeder(gates, drains, o, 11, len);
    assert(lf11 == p2) by {
        assert(g.feeds(o[lf11].0 as int, 11));
        if o[lf11].0 == 0 {
            if lf11 != p0 { assert(o[lf11].0 == o[p0].0); }
        } else if o[lf11].0 == 1 {
            if lf11 != p1 { assert(o[lf11].0 == o[p1].0); }
        } else {
            if lf11 != p2 { assert(o[lf11].0 == o[p2].0); }
        }
    }
    assert(p9 < p11) by {
        if p11 < p9 {
            assert(queued_before(gates, drains, o, p11, p9));
        }
    }
    assert(g.feeds(18, 20));
    assert(feeds_in(gates, drains, o[p18].0 as int, 20));
    lemma_last_feeder_at_least(gates, drains, o, 20, p18, len);
    lemma_last_feeder_feeds(gates, drains, o, 20, len);
    let lf20 = last_feeder(gates, drains, o, 20, len);
    assert(lf20 == p18) by {
        assert(g.feeds(o[lf20].0 as int, 20));
        if o[lf20].0 == 16 {
            if lf20 != p16 { assert(o[lf20].0 == o[p16].0); }
        } else if o[lf20].0 == 17 {
            if lf20 != p17 { assert(o[lf20].0 == o[p17].0); }
        } else {
            if lf20 != p18 { assert(o[lf20].0 == o[p18].0); }
        }
    }
    assert(p11 < p20) by {
        if p20 < p11 {
            assert(queued_before(gates, drains, o, p20, p11));
        }
    }
    assert(g.feeds(18, 21));
    assert(feeds_in(gates, drains, o[p18].0 as int, 21));
    lemma_last_feeder_at_least(gates, drains, o, 21, p18, len);
    lemma_last_feeder_feeds(gates, drains, o, 21, len);
    let lf21 = last_feeder(gates, drains, o, 21, len);
    assert(lf21 == p18) by {
        assert(g.feeds(o[lf21].0 as int, 21));
        if o[lf21].0 == 16 {
            if lf21 != p16 { assert(o[lf21].0 == o[p16].0); }
        } else if o[lf21].0 == 17 {
            if lf21 != p17 { assert(o[lf21].0 == o[p17].0); }
        } else {
            if lf21 != p18 { assert(o[lf21].0 == o[p18].0); }
        }
    }
    assert(p20 < p21) by {
        if p21 < p20 {
            assert(queued_before(gates, drains, o, p21, p20));
        }
    }
    assert(g.feeds(5, 12));
    assert(feeds_in(gates, drains, o[p5].0 as int, 12));
    lemma_last_feeder_at_least(gates, drains, o, 12, p5, len);
    lemma_last_feeder_feeds(gates, drains, o, 12, len);
    let lf12 = last_feeder(gates, drains, o, 12, len);
    assert(lf12 == p5) by {
        assert(g.feeds(o[lf12].0 as int, 12));
        if o[lf12].0 == 4 {
            if lf12 != p4 { assert(o[lf12].0 == o[p4].0); }
        } else if o[lf12].0 == 5 {
            if lf12 != p5 { assert(o[lf12].0 == o[p5].0); }
        } else {
            if lf12 != p6 { assert(o[lf12].0 == o[p6].0); }
        }
    }
    assert(p21 < p12) by {
        if p12 < p21 {
            assert(queued_before(gates, drains, o, p12, p21));
        }
    }
    assert(g.feeds(5, 14));
    assert(feeds_in(gates, drains, o[p5].0 as int, 14));
    lemma_last_feeder_at_least(gates, drains, o, 14, p5, len);
    lemma_last_feeder_feeds(gates, drains, o, 14, len);
    let lf14 = last_feeder(gates, drains, o, 14, len);
    assert(lf14 == p5) by {
        assert(g.feeds(o[lf14].0 as int, 14));
        if o[lf14].0 == 4 {
            if lf14 != p4 { assert(o[lf14].0 == o[p4].0); }
        } else if o[lf14].0 == 5 {
            if lf14 != p5 { assert(o[lf14].0 == o[p5].0); }
        } else {
            if lf14 != p6 { assert(o[lf14].0 == o[p6].0); }
        }
    }
    assert(p12 < p14) by {
        if p14 < p12 {
            assert(queued_before(gates, drains, o, p14, p12));
        }
    }
    assert(g.feeds(9, 13));
    assert(feeds_in(gates, drains, o[p9].0 as int, 13));
    lemma_last_feeder_at_least(gates, drains, o, 13, p9, len);
    lemma_last_feeder_feeds(gates, drains, o, 13, len);
    let lf13 = last_feeder(gates, drains, o, 13, len);
    assert(lf13 == p9) by {
        assert(g.feeds(o[lf13].0 as int, 13));
        if o[lf13].0 == 8 {
            if lf13 != p8 { assert(o[lf13].0 == o[p8].0); }
        } else if o[lf13].0 == 9 {
            if lf13 != p9 { assert(o[lf13].0 == o[p9].0); }
        } else {
            if lf13 != p10 { assert(o[lf13].0 == o[p10].0); }
        }
    }
    assert(p14 < p13) by {
        if p13 < p14 {
            assert(queued_before(gates, drains, o, p13, p14));
        }
    }
    assert(g.feeds(9, 15));
    assert(feeds_in(gates, drains, o[p9].0 as int, 15));
    lemma_last_feeder_at_least(gates, drains, o, 15, p9, len);
    lemma_last_feeder_feeds(gates, drains, o, 15, len);
    let lf15 = last_feeder(gates, drains, o, 15, len);
    assert(lf15 == p9) by {
        assert(g.feeds(o[lf15].0 as int, 15));
        if o[lf15].0 == 8 {
            if lf15 != p8 { assert(o[lf15].0 == o[p8].0); }
        } else if o[lf15].0 == 9 {
            if lf15 != p9 { assert(o[lf15].0 == o[p9].0); }
        } else {
            if lf15 != p10 { assert(o[lf15].0 == o[p10].0); }
        }
    }
    assert(p13 < p15) by {
        if p15 < p13 {
            assert(queued_before(gates, drains, o, p15, p13));
        }
    }
    assert(o.len() == 22);
    assert(p0 == 0 && p1 == 1 && p2 == 2 && p3 == 3 && p4 == 4 && p6 == 5 && p8 == 6 && p10 == 7 && p16 == 8 && p17 == 9 && p18 == 10 && p19 == 11 && p5 == 12 && p7 == 13 && p9 == 14 && p11 == 15 && p20 == 16 && p21 == 17 && p12 == 18 && p14 == 19 && p13 == 20 && p15 == 21);
    let ids = o.map_values(|t: TransistorId| t.0);
    assert forall|k: int| 0 <= k < 22 implies ids[k] == half_adder_order()[k] by {}
    assert(ids =~= half_adder_order());
}

/// A sweep over the transistors in their evaluation order.
proof fn lemma_half_adder_sweep(s: Seq<SignalState>, d: Seq<Option<SignalState>>, cells: Seq<Cell>)
    ensures
        sweep(s, d, cells, half_adder_order()) == step(step(step(step(step(step(step(step(step(step(step(step(step(step(step(step(step(step(step(step(step(step(s, d, cells[0]), d, cells[1]), d, cells[2]), d, cells[3]), d, cells[4]), d, cells[6]), d, cells[8]), d, cells[10]), d, cells[16]), d, cells[17]), d, cells[18]), d, cells[19]), d, cells[5]), d, cells[7]), d, cells[9]), d, cells[11]), d, cells[20]), d, cells[21]), d, cells[12]), d, cells[14]), d, cells[13]), d, cells[15]),
{
    let o = half_adder_order();
    assert(o.drop_last() =~= seq![0usize, 1usize, 2usize, 3usize, 4usize, 6usize, 8usize, 10usize, 16usize, 17usize, 18usize, 19usize, 5usize, 7usize, 9usize, 11usize, 20usize, 21usize, 12usize, 14usize, 13usize]);
    assert(o.drop_last().drop_last() =~= seq![0usize, 1usize, 2usize, 3usize, 4usize, 6usize, 8usize, 10usize, 16usize, 17usize, 18usize, 19usize, 5usize, 7usize, 9usize, 11usize, 20usize, 21usize, 12usize, 14usize]);
    assert(o.drop_last().drop_last().drop_last() =~= seq![0usize, 1usize, 2usize, 3usize, 4usize, 6usize, 8usize, 10usize, 16usize, 17usize, 18usize, 19usize, 5usize, 7usize, 9usize, 11usize, 20usize, 21usize, 12usize]);
    assert(o.drop_last().drop_last().drop_last().drop_last() =~= seq![0usize, 1usize, 2usize, 3usize, 4usize, 6usize, 8usize, 10usize, 16usize, 17usize, 18usize, 19usize, 5usize, 7usize, 9usize, 11usize, 20usize, 21usize]);
    assert(o.drop_last().drop_last().drop_last().drop_last().drop_last() =~= seq![0usize, 1usize, 2usize, 3usize, 4usize, 6usize, 8usize, 10usize, 16usize, 17usize, 18usize, 19usize, 5usize, 7usize, 9usize, 11usize, 20usize]);
    assert(o.drop_last().drop_last().drop_last().drop_last().drop_last().drop_last() =~= seq![0usize, 1usize, 2usize, 3usize, 4usize, 6usize, 8usize, 10usize, 16usize, 17usize, 18usize, 19usize, 5usize, 7usize, 9usize, 11usize]);
    assert(o.drop_last().drop_last().drop_last().drop_last().drop_last().drop_last().drop_last() =~= seq![0usize, 1usize, 2usize, 3usize, 4usize, 6usize, 8usize, 10usize, 16usize, 17usize, 18usize, 19usize, 5usize, 7usize, 9usize]);
    assert(o.drop_last().drop_last().drop_last().drop_last().drop_last().drop_last().drop_last().drop_last() =~= seq![0usize, 1usize, 2usize, 3usize, 4usize, 6usize, 8usize, 10usize, 16usize, 17usize, 18usize, 19usize, 5usize, 7usize]);
    assert(o.drop_last().drop_last().drop_last().drop_last().drop_last().drop_last().drop_last().drop_last().drop_last() =~= seq![0usize, 1usize, 2usize, 3usize, 4usize, 6usize, 8usize, 10usize, 16usize, 17usize, 18usize, 19usize, 5usize]);
    assert(o.drop_last().drop_last().drop_last().drop_last().drop_last().drop_last().drop_last().drop_last().drop_last().drop_last() =~= seq![0usize, 1usize, 2usize, 3usize, 4usize, 6usize, 8usize, 10usize, 16usize, 17usize, 18usize, 19usize]);
    assert(o.drop_last().drop_last().drop_last().drop_last().drop_last().drop_last().drop_last().drop_last().drop_last().drop_last().drop_last() =~= seq![0usize, 1usize, 2usize, 3usize, 4usize, 6usize, 8usize, 10usize, 16usize, 17usize, 18usize]);
    assert(o.drop_last().drop_last().drop_last().drop_last().drop_last().drop_last().drop_last().drop_last().drop_last().drop_last().drop_last().drop_last() =~= seq![0usize, 1usize, 2usize, 3usize, 4usize, 6usize, 8usize, 10usize, 16usize, 17usize]);
    assert(o.drop_last().drop_last().drop_last().drop_last().drop_last().drop_last().drop_last().drop_last().drop_last().drop_last().drop_last().drop_last().drop_last() =~= seq![0usize, 1usize, 2usize, 3usize, 4usize, 6usize, 8usize, 10usize, 16usize]);
    assert(o.drop_last().drop_last().drop_last().drop_last().drop_last().drop_last().drop_last().drop_last().drop_last().drop_last().drop_last().drop_last().drop_last().drop_last() =~= seq![0usize, 1usize, 2usize, 3usize, 4usize, 6usize, 8usize, 10usize]);
    assert(o.drop_last().drop_last().drop_last().drop_last().drop_last().drop_last().drop_last().drop_last().drop_last().drop_last().drop_last().drop_last().drop_last().drop_last().drop_last() =~= seq![0usize, 1usize, 2usize, 3usize, 4usize, 6usize, 8usize]);
    assert(o.drop_last().drop_last().drop_last().drop_last().drop_last().drop_last().drop_last().drop_last().drop_last().drop_last().drop_last().drop_last().drop_last().drop_last().drop_last().drop_last() =~= seq![0usize, 1usize, 2usize, 3usize, 4usize, 6usize]);
    assert(o.drop_last().drop_last().drop_last().drop_last().drop_last().drop_last().drop_last().drop_last().drop_last().drop_last().drop_last().drop_last().drop_last().drop_last().drop_last().drop_last().drop_last() =~= seq![0usize, 1usize, 2usize, 3usize, 4usize]);
    assert(o.drop_last().drop_last().drop_last().drop_last().drop_last().drop_last().drop_last().drop_last().drop_last().drop_last().drop_last().drop_last().drop_last().drop_last().drop_last().drop_last().drop_last().drop_last() =~= seq![0usize, 1usize, 2usize, 3usize]);
    assert(o.drop_last().drop_last().drop_last().drop_last().drop_last().drop_last().drop_last().drop_last().drop_last().drop_last().drop_last().drop_last().drop_last().drop_last().drop_last().drop_last().drop_last().drop_last().drop_last() =~= seq![0usize, 1usize, 2usize]);
    assert(o.drop_last().drop_last().drop_last().drop_last().drop_last().drop_last().drop_last().drop_last().drop_last().drop_last().drop_last().drop_last().drop_last().drop_last().drop_last().drop_last().drop_last().drop_last().drop_last().drop_last() =~= seq![0usize, 1usize]);
    assert(o.drop_last().drop_last().drop_last().drop_last().drop_last().drop_last().drop_last().drop_last().drop_last().drop_last().drop_last().drop_last().drop_last().drop_last().drop_last().drop_last().drop_last().drop_last().drop_last().drop_last().drop_last() =~= seq![0usize]);
    assert(o.drop_last().drop_last().drop_last().drop_last().drop_last().drop_last().drop_last().drop_last().drop_last().drop_last().drop_last().drop_last().drop_last().drop_last().drop_last().drop_last().drop_last().drop_last().drop_last().drop_last().drop_last().drop_last() =~= Seq::<usize>::empty());
    reveal_with_fuel(sweep, 23);
}

/// The wire states the sweeps settle on, for each level of the inputs.
pub open spec fn half_adder_settled(x: bool, y: bool) -> Seq<SignalState> {
    let H = SignalState::High;
    let L = SignalState::Low;
    let F = SignalState::Floating;
    if x && y {
        seq![H, L, H, H, L, L, H, H, H, H, L, L, L, L, H]
    } else if x && !y {
        seq![H, L, H, L, H, H, L, L, H, L, H, L, H, H, L]
    } else if !x && y {
        seq![H, L, L, H, H, L, H, L, L, L, H, H, H, L, L]
    } else {
        seq![H, L, L, L, H, F, H, L, H, L, L, L, H, F, L]
    }
}

#[verifier::rlimit(40)]
proof fn lemma_half_adder_settles_h_h()
    ensures
        settle(half_adder_start(true, true), half_adder_drives(true, true), half_adder_cells(SignalId(2), SignalId(3), 4), half_adder_order(), 23) == half_adder_settled(true, true),
{
    let H = SignalState::High;
    let L = SignalState::Low;
    let F = SignalState::Floating;
    let d = half_adder_drives(true, true);
    let cells = half_adder_cells(SignalId(2), SignalId(3), 4);
    lemma_half_adder_cells();
    let o = half_adder_order();
    let s0 = half_adder_start(true, true);
    assert(s0 =~= seq![H, L, H, H, F, F, F, F, F, F, F, F, F, F, F]);
    assert(d =~= seq![Some(H), Some(L), Some(H), Some(H), None, None, None, None, None, None, None, None, None, None, None]);
    lemma_half_adder_sweep(s0, d, cells);
    let s1 = seq![H, L, H, H, F, L, F, F, F, F, F, F, F, L, F];
    let s2 = seq![H, L, H, H, L, L, H, F, H, F, F, L, L, L, H];
    let s3 = seq![H, L, H, H, L, L, H, H, H, H, L, L, L, L, H];
    assert(sweep(s0, d, cells, o) =~= s1);
    lemma_half_adder_sweep(s1, d, cells);
    assert(sweep(s1, d, cells, o) =~= s2);
    lemma_half_adder_sweep(s2, d, cells);
    assert(sweep(s2, d, cells, o) =~= s3);
    lemma_half_adder_sweep(s3, d, cells);
    assert(sweep(s3, d, cells, o) =~= s3);
    assert(s1 != s0) by {
        assert(s1[5] != s0[5]);
    }
    assert(s2 != s1) by {
        assert(s2[4] != s1[4]);
    }
    assert(s3 != s2) by {
        assert(s3[7] != s2[7]);
    }
    assert(settle(s3, d, cells, o, 20) == s3);
    assert(settle(s2, d, cells, o, 21) == settle(s3, d, cells, o, 20));
    assert(settle(s1, d, cells, o, 22) == settle(s2, d, cells, o, 21));
    assert(settle(s0, d, cells, o, 23) == settle(s1, d, cells, o, 22));
    assert(s3 =~= half_adder_settled(true, true));
}

#[verifier::rlimit(40)]
proof fn lemma_half_adder_settles_h_l()
    ensures
        settle(half_adder_start(true, false), half_adder_drives(true, false), half_adder_cells(SignalId(2), SignalId(3), 4), half_adder_order(), 23) == half_adder_settled(true, false),
{
    let H = SignalState::High;
    let L = SignalState::Low;
    let F = SignalState::Floating;
    let d = half_adder_drives(true, false);
    let cells = half_adder_cells(SignalId(2), SignalId(3), 4);
    lemma_half_adder_cells();
    let o = half_adder_order();
    let s0 = half_adder_start(true, false);
    assert(s0 =~= seq![H, L, H, L, F, F, F, F, F, F, F, F, F, F, F]);
    assert(d =~= seq![Some(H), Some(L), Some(H), Some(L), None, None, None, None, None, None, None, None, None, None, None]);
    lemma_half_adder_sweep(s0, d, cells);
    let s1 = seq![H, L, H, L, H, H, F, L, H, L, F, L, H, H, L];
    let s2 = seq![H, L, H, L, H, H, L, L, H, L, H, L, H, H, L];
    assert(sweep(s0, d, cells, o) =~= s1);
    lemma_half_adder_sweep(s1, d, cells);
    assert(sweep(s1, d, cells, o) =~= s2);
    lemma_half_adder_sweep(s2, d, cells);
    assert(sweep(s2, d, cells, o) =~= s2);
    assert(s1 != s0) by {
        assert(s1[4] != s0[4]);
    }
    assert(s2 != s1) by {
        assert(s2[6] != s1[6]);
    }
    assert(settle(s2, d, cells, o, 21) == s2);
    assert(settle(s1, d, cells, o, 22) == settle(s2, d, cells, o, 21));
    assert(settle(s0, d, cells, o, 23) == settle(s1, d, cells, o, 22));
    assert(s2 =~= half_adder_settled(true, false));
}

#[verifier::rlimit(40)]
proof fn lemma_half_adder_settles_l_h()
    ensures
        settle(half_adder_start(false, true), half_adder_drives(false, true), half_adder_cells(SignalId(2), SignalId(3), 4), half_adder_order(), 23) == half_adder_settled(false, true),
{
    let H = SignalState::High;
    let L = SignalState::Low;
    let F = SignalState::Floating;
    let d = half_adder_drives(false, true);
    let cells = half_adder_cells(SignalId(2), SignalId(3), 4);
    lemma_half_adder_cells();
    let o = half_adder_order();
    let s0 = half_adder_start(false, true);
    assert(s0 =~= seq![H, L, L, H, F, F, F, F, F, F, F, F, F, F, F]);
    assert(d =~= seq![Some(H), Some(L), Some(L), Some(H), None, None, None, None, None, None, None, None, None, None, None]);
    lemma_half_adder_sweep(s0, d, cells);
    let s1 = seq![H, L, L, H, H, L, H, L, F, L, F, F, H, L, L];
    let s2 = seq![H, L, L, H, H, L, H, L, L, L, H, F, H, L, L];
    let s3 = seq![H, L, L, H, H, L, H, L, L, L, H, H, H, L, L];
    assert(sweep(s0, d, cells, o) =~= s1);
    lemma_half_adder_sweep(s1, d, cells);
    assert(sweep(s1, d, cells, o) =~= s2);
    lemma_half_adder_sweep(s2, d, cells);
    assert(sweep(s2, d, cells, o) =~= s3);
    lemma_half_adder_sweep(s3, d, cells);
    assert(sweep(s3, d, cells, o) =~= s3);
    assert(s1 != s0) by {
        assert(s1[4] != s0[4]);
    }
    assert(s2 != s1) by {
        assert(s2[8] != s1[8]);
    }
    assert(s3 != s2) by {
        assert(s3[11] != s2[11]);
    }
    assert(settle(s3, d, cells, o, 20) == s3);
    assert(settle(s2, d, cells, o, 21) == settle(s3, d, cells, o, 20));
    assert(settle(s1, d, cells, o, 22) == settle(s2, d, cells, o, 21));
    assert(settle(s0, d, cells, o, 23) == settle(s1, d, cells, o, 22));
    assert(s3 =~= half_adder_settled(false, true));
}

#[verifier::rlimit(40)]
proof fn lemma_half_adder_settles_l_l()
    ensures
        settle(half_adder_start(false, false), half_adder_drives(false, false), half_adder_cells(SignalId(2), SignalId(3), 4), half_adder_order(), 23) == half_adder_settled(false, false),
{
    let H = SignalState::High;
    let L = SignalState::Low;
    let F = SignalState::Floating;
    let d = half_adder_drives(false, false);
    let cells = half_adder_cells(SignalId(2), SignalId(3), 4);
    lemma_half_adder_cells();
    let o = half_adder_order();
    let s0 = half_adder_start(false, false);
    assert(s0 =~= seq![H, L, L, L, F, F, F, F, F, F, F, F, F, F, F]);
    assert(d =~= seq![Some(H), Some(L), Some(L), Some(L), None, None, None, None, None, None, None, None, None, None, None]);
    lemma_half_adder_sweep(s0, d, cells);
    let s1 = seq![H, L, L, L, H, F, H, L, H, L, F, L, H, F, L];
    let s2 = seq![H, L, L, L, H, F, H, L, H, L, L, L, H, F, L];
    assert(sweep(s0, d, cells, o) =~= s1);
    lemma_half_adder_sweep(s1, d, cells);
    assert(sweep(s1, d, cells, o) =~= s2);
    lemma_half_adder_sweep(s2, d, cells);
    assert(sweep(s2, d, cells, o) =~= s2);
    assert(s1 != s0) by {
        assert(s1[4] != s0[4]);
    }
    assert(s2 != s1) by {
        assert(s2[10] != s1[10]);
    }
    assert(settle(s2, d, cells, o, 21) == s2);
    assert(settle(s1, d, cells, o, 22) == settle(s2, d, cells, o, 21));
    assert(settle(s0, d, cells, o, 23) == settle(s1, d, cells, o, 22));
    assert(s2 =~= half_adder_settled(false, false));
}

proof fn lemma_half_adder_settles(x: bool, y: bool)
    ensures
        settle(half_adder_start(x, y), half_adder_drives(x, y), half_adder_cells(SignalId(2), SignalId(3), 4), half_adder_order(), 23) == half_adder_settled(x, y),
{
    if x && y {
        lemma_half_adder_settles_h_h();
    } else if x && !y {
        lemma_half_adder_settles_h_l();
    } else if !x && y {
        lemma_half_adder_settles_l_h();
    } else {
        lemma_half_adder_settles_l_l();
    }
}

/// A half adder adds two bits. On the graph that `new`, two `add_signal`s
/// and `half_adder` on those two signals build (inputs 2 and 3, the sum
/// on wire 10, the carry on wire 14), with both inputs driven High or Low,
/// the wire states `propagate` settles in (with the evaluation order it
/// builds) put the sum High exactly when one input is High and the carry
/// High exactly when both are.
#[verifier::rlimit(40)]
pub proof fn lemma_half_adder_truth_table(g: SignalGraph, prev: Seq<SignalState>, x: bool, y: bool)
    requires
        lone_half_adder(g),
        g.driven@ == half_adder_drives(x, y),
        g.is_schedule(g.eval_order@),
        g.is_queue_order(g.eval_order@),
        prev.len() == 15,
    ensures
        g.settled_from(prev)[10] == level(x != y),
        g.settled_from(prev)[14] == level(x && y),
{
    let o = g.eval_order@;
    assert(g.cells().len() == g.kinds@.len());
    lemma_half_adder_order(g);
    lemma_all_scheduled(o, 22);
    assert(full_order(o, 22) =~= half_adder_order());
    assert(reset_states(prev, g.driven@) =~= half_adder_start(x, y));
    lemma_half_adder_settles(x, y);
    let st = half_adder_settled(x, y);
    lemma_half_adder_cells();
    assert(g.kinds@.len() == 22);
    assert(unscheduled(o, 22).len() == 0);
    assert(settle(reset_states(prev, g.driven@), g.driven@, g.cells(), full_order(o, 22), 23) == st);
    assert(keep_stored(st, prev, g.sequential@) =~= st);
    assert(g.settled_from(prev) == apply_drives(st, g.driven@));
    assert(apply_drives(st, g.driven@)[10] == st[10]);
    assert(apply_drives(st, g.driven@)[14] == st[14]);
}

} // verus!
