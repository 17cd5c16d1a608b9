use vstd::prelude::*;

use crate::sim::transistor::{
    cap_level, cap_step, cap_steps, clock_start, lemma_clock_fall, lemma_clock_period,
    lemma_clock_rise, tick_cap, CapacitorState, SignalGraph, SignalId, SignalState,
};

verus! {

/// The charge of a clock of period `period` (at least one) after `m`
/// ticks from empty: it climbs one per tick up to the period, falls back
/// one per tick to zero, and starts over every `2 * period` ticks.
pub open spec fn clock_charge(period: nat, m: nat) -> nat {
    let j = m % (2 * period);
    if j <= period {
        j
    } else {
        (2 * period - j) as nat
    }
}

proof fn lemma_cap_steps_add(c: CapacitorState, a: nat, b: nat)
    ensures
        cap_steps(c, a + b) == cap_steps(cap_steps(c, a), b),
    decreases b,
{
    if b > 0 {
        lemma_cap_steps_add(c, a, (b - 1) as nat);
        assert(cap_steps(c, a + b) == cap_step(cap_steps(c, (a + b - 1) as nat)));
    }
}

/// A clock that `add_clock(period)` started, `m` ticks later (a period of
/// at least one): its charge follows the triangle `clock_charge`, it is
/// charging in the first half of each cycle, and its wire is High exactly
/// when the charge has reached half the period.
pub proof fn lemma_clock_after(period: u8, m: nat)
    requires
        period >= 1,
    ensures
        cap_steps(clock_start(period / 2, period), m).charge == clock_charge(period as nat, m),
        cap_steps(clock_start(period / 2, period), m).charging == (m % (2 * period as nat) < period),
        cap_level(cap_steps(clock_start(period / 2, period), m)) == (if clock_charge(period as nat, m)
            >= period / 2 {
            SignalState::High
        } else {
            SignalState::Low
        }),
    decreases m,
{
    let p = period as nat;
    let c0 = clock_start(period / 2, period);
    if m < 2 * p {
        assert(m % (2 * p) == m) by (nonlinear_arith)
            requires
                m < 2 * p,
        ;
        if m <= p {
            lemma_clock_rise(period / 2, period, m);
        } else {
            lemma_clock_fall(period / 2, period, (m - p) as nat);
        }
    } else {
        let r = (m - 2 * p) as nat;
        lemma_clock_after(period, r);
        lemma_cap_steps_add(c0, 2 * p, r);
        lemma_clock_period(period / 2, period);
        assert(m % (2 * p) == r % (2 * p)) by (nonlinear_arith)
            requires
                r == m - 2 * p,
                p >= 1,
        ;
    }
}


/// The clock through calls of `tick`: `gs[0]` holds a clock that
/// `add_clock(period)` started on wire `clk` (a period of at least one),
/// and each `gs[i]` is what `tick` leaves of `gs[i - 1]`. Then `m` ticks
/// on, the clock's charge follows the triangle `clock_charge` (it never
/// goes past the period), and from the first tick on its wire is High
/// exactly when the charge has reached half the period.
pub proof fn lemma_clock_ticks(gs: Seq<SignalGraph>, clk: SignalId, period: u8, m: int)
    requires
        period >= 1,
        0 <= m < gs.len(),
        clk.0 < gs[0].signals@.len(),
        clk.0 < gs[0].driven@.len(),
        clk.0 < gs[0].capacitors@.len(),
        gs[0].capacitors@[clk.0 as int] == Some(clock_start(period / 2, period)),
        forall|i: int| #![trigger gs[i]] 1 <= i < gs.len() ==> gs[i].ticked_from(gs[i - 1]),
    ensures
        clk.0 < gs[m].signals@.len(),
        clk.0 < gs[m].driven@.len(),
        clk.0 < gs[m].capacitors@.len(),
        gs[m].capacitors@[clk.0 as int] == Some(cap_steps(clock_start(period / 2, period), m as nat)),
        gs[m].capacitors@[clk.0 as int]->Some_0.charge == clock_charge(period as nat, m as nat),
        clock_charge(period as nat, m as nat) <= period,
        m >= 1 ==> gs[m].signals@[clk.0 as int] == (if clock_charge(period as nat, m as nat) >= period / 2 {
            SignalState::High
        } else {
            SignalState::Low
        }),
    decreases m,
{
    let c0 = clock_start(period / 2, period);
    lemma_clock_after(period, m as nat);
    assert(clock_charge(period as nat, m as nat) <= period) by (nonlinear_arith)
        requires
            period >= 1,
    {
        let j = (m as nat) % (2 * period as nat);
        assert(j < 2 * period);
    }
    if m > 0 {
        lemma_clock_ticks(gs, clk, period, m - 1);
        let g0 = gs[m - 1];
        let g1 = gs[m];
        assert(g1.ticked_from(g0));
        let k = clk.0 as int;
        assert(g1.capacitors@[k] == tick_cap(g0.capacitors@[k]));
        assert(cap_steps(c0, m as nat) == cap_step(cap_steps(c0, (m - 1) as nat)));
        assert(g0.clock_at(k) == g0.capacitors@[k]);
        assert(g1.driven@[k] == Some(cap_level(cap_step(cap_steps(c0, (m - 1) as nat)))));
    }
}

} // verus!
