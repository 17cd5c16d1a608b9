#![allow(clippy::upper_case_acronyms)]
use vstd::prelude::*;

use crate::sim::transistor::{
    and_cells, and_names, cells_within, is_and_gate, is_leaf_gate, is_not_gate, is_or_gate,
    is_xor_gate, lemma_grown_trans, lemma_grown_wf, not_cells, not_names, or_cells, or_names, sig,
    str_name_view, xor_cells, xor_names, Cell, CapacitorState, GateDescriptor, SignalGraph,
    SignalId, SignalState, TransistorKind,
};

verus! {

#[derive(Clone, Copy, PartialEq, Eq, Structural, Debug)]
pub enum GateKind {
    NOT,
    NAND,
    AND,
    OR,
    NOR,
    XOR,
    XNOR,
}

pub enum UnitKind {
    Primitive(GateKind),
    Composite,
}

/// What one unit builder produced: its name, kind, inputs and outputs, the
/// gates it placed directly and the units it is made of.
pub struct UnitDescriptor {
    pub name: String,
    pub kind: UnitKind,
    pub inputs: Vec<SignalId>,
    pub outputs: Vec<SignalId>,
    /// for composites
    pub gates: Option<Vec<GateDescriptor>>,
    /// for nested units
    pub children: Option<Vec<UnitDescriptor>>,
}

/// A registry of units.
pub struct Schematic {
    pub units: Vec<UnitDescriptor>,
}

/// Index of a unit in a [`Schematic`].
pub struct UnitId(pub usize);

pub open spec fn gate_at(u: UnitDescriptor, i: int) -> GateDescriptor {
    u.gates->Some_0@[i]
}

pub open spec fn child(u: UnitDescriptor, i: int) -> UnitDescriptor {
    u.children->Some_0@[i]
}

/// `u` is a composite unit with the given name, inputs and outputs, `g`
/// gates of its own and `c` children (`None` where it has none).
pub open spec fn is_unit(
    u: UnitDescriptor,
    name: Seq<char>,
    inputs: Seq<SignalId>,
    outputs: Seq<SignalId>,
    g: nat,
    c: nat,
) -> bool {
    &&& u.name@ == name
    &&& u.kind is Composite
    &&& u.inputs@ == inputs
    &&& u.outputs@ == outputs
    &&& if g == 0 { u.gates is None } else { u.gates matches Some(v) && v@.len() == g }
    &&& if c == 0 { u.children is None } else { u.children matches Some(v) && v@.len() == c }
}

/// Half adder: sum is XOR (output `s0 + 6`), carry is AND (output `s0 + 10`).
#[verifier::opaque]
pub open spec fn half_adder_cells(a: SignalId, b: SignalId, s0: nat) -> Seq<Cell> {
    xor_cells(a, b, s0) + and_cells(a, b, s0 + 8)
}

#[verifier::opaque]
pub open spec fn half_adder_names() -> Seq<Option<Seq<char>>> {
    xor_names() + and_names()
}

#[verifier::opaque]
pub open spec fn is_half_adder(u: UnitDescriptor, a: SignalId, b: SignalId, s0: nat, t0: nat) -> bool {
    &&& is_unit(u, "Half Adder"@, seq![a, b], seq![sig(s0 + 6), sig(s0 + 10)], 2, 0)
    &&& is_xor_gate(gate_at(u, 0), a, b, s0, t0)
    &&& is_and_gate(gate_at(u, 1), a, b, s0 + 8, t0 + 16)
}

/// Full adder: two half adders and an OR of their carries; sum is signal
/// `s0 + 17`, carry out is `s0 + 24`.
#[verifier::opaque]
pub open spec fn full_adder_cells(a: SignalId, b: SignalId, cin: SignalId, s0: nat) -> Seq<Cell> {
    half_adder_cells(a, b, s0) + half_adder_cells(sig(s0 + 6), cin, s0 + 11) + or_cells(
        sig(s0 + 10),
        sig(s0 + 21),
        true,
        s0 + 22,
    )
}

#[verifier::opaque]
pub open spec fn full_adder_names() -> Seq<Option<Seq<char>>> {
    half_adder_names() + half_adder_names() + or_names(true)
}

#[verifier::opaque]
pub open spec fn is_full_adder(
    u: UnitDescriptor,
    a: SignalId,
    b: SignalId,
    cin: SignalId,
    s0: nat,
    t0: nat,
) -> bool {
    &&& is_unit(u, "Full Adder"@, seq![a, b, cin], seq![sig(s0 + 17), sig(s0 + 24)], 1, 2)
    &&& is_or_gate(gate_at(u, 0), sig(s0 + 10), sig(s0 + 21), true, s0 + 22, t0 + 44)
    &&& is_half_adder(child(u, 0), a, b, s0, t0)
    &&& is_half_adder(child(u, 1), sig(s0 + 6), cin, s0 + 11, t0 + 22)
}

/// The carry into bit `k` of the ripple adder placed at `s0`.
pub open spec fn ripple_carry(cin: SignalId, s0: nat, k: nat) -> SignalId {
    if k == 0 {
        cin
    } else {
        sig((s0 + 25 * (k - 1) + 24) as nat)
    }
}

/// Four full adders chained through their carries; bit `k` starts at
/// signal `s0 + 25 k`.
#[verifier::opaque]
pub open spec fn adder_4bit_cells(a: Seq<SignalId>, b: Seq<SignalId>, cin: SignalId, s0: nat) -> Seq<Cell> {
    full_adder_cells(a[0], b[0], ripple_carry(cin, s0, 0), s0)
        + full_adder_cells(a[1], b[1], ripple_carry(cin, s0, 1), s0 + 25)
        + full_adder_cells(a[2], b[2], ripple_carry(cin, s0, 2), s0 + 50)
        + full_adder_cells(a[3], b[3], ripple_carry(cin, s0, 3), s0 + 75)
}

#[verifier::opaque]
pub open spec fn adder_4bit_names() -> Seq<Option<Seq<char>>> {
    full_adder_names() + full_adder_names() + full_adder_names() + full_adder_names()
}

pub open spec fn is_adder_4bit(
    u: UnitDescriptor,
    a: Seq<SignalId>,
    b: Seq<SignalId>,
    cin: SignalId,
    s0: nat,
    t0: nat,
) -> bool {
    &&& is_unit(
        u,
        "4 bit Ripple Adder"@,
        a + b + seq![cin],
        seq![sig(s0 + 17), sig(s0 + 42), sig(s0 + 67), sig(s0 + 92), sig(s0 + 99)],
        0,
        4,
    )
    &&& forall|k: int|
        0 <= k < 4 ==> is_full_adder(
            #[trigger] child(u, k),
            a[k],
            b[k],
            ripple_carry(cin, s0, k as nat),
            (s0 + 25 * k) as nat,
            (t0 + 50 * k) as nat,
        )
}

/// 2:1 multiplexer: NOT sel, a AND NOT sel, b AND sel, OR of the two;
/// output is signal `s0 + 9`.
#[verifier::opaque]
pub open spec fn mux_2to1_cells(a: SignalId, b: SignalId, sel: SignalId, s0: nat) -> Seq<Cell> {
    not_cells(sel, s0) + and_cells(a, sig(s0), s0 + 1) + and_cells(b, sel, s0 + 4) + or_cells(
        sig(s0 + 3),
        sig(s0 + 6),
        true,
        s0 + 7,
    )
}

#[verifier::opaque]
pub open spec fn mux_2to1_names() -> Seq<Option<Seq<char>>> {
    not_names() + and_names() + and_names() + or_names(true)
}

#[verifier::opaque]
pub open spec fn is_mux_2to1(
    u: UnitDescriptor,
    a: SignalId,
    b: SignalId,
    sel: SignalId,
    s0: nat,
    t0: nat,
) -> bool {
    &&& is_unit(u, "MUX 2:1"@, seq![a, b, sel], seq![sig(s0 + 9)], 4, 0)
    &&& is_not_gate(gate_at(u, 0), sel, s0, t0)
    &&& is_and_gate(gate_at(u, 1), a, sig(s0), s0 + 1, t0 + 2)
    &&& is_and_gate(gate_at(u, 2), b, sel, s0 + 4, t0 + 8)
    &&& is_or_gate(gate_at(u, 3), sig(s0 + 3), sig(s0 + 6), true, s0 + 7, t0 + 14)
}

/// 4:1 multiplexer: `sel1` picks within (a, b) and (c, d), `sel2` picks
/// between them; output is signal `s0 + 29`.
#[verifier::opaque]
pub open spec fn mux_4to1_cells(
    a: SignalId,
    b: SignalId,
    c: SignalId,
    d: SignalId,
    sel1: SignalId,
    sel2: SignalId,
    s0: nat,
) -> Seq<Cell> {
    mux_2to1_cells(a, b, sel1, s0) + mux_2to1_cells(c, d, sel1, s0 + 10) + mux_2to1_cells(
        sig(s0 + 9),
        sig(s0 + 19),
        sel2,
        s0 + 20,
    )
}

#[verifier::opaque]
pub open spec fn mux_4to1_names() -> Seq<Option<Seq<char>>> {
    mux_2to1_names() + mux_2to1_names() + mux_2to1_names()
}

pub open spec fn is_mux_4to1(
    u: UnitDescriptor,
    a: SignalId,
    b: SignalId,
    c: SignalId,
    d: SignalId,
    sel1: SignalId,
    sel2: SignalId,
    s0: nat,
    t0: nat,
) -> bool {
    &&& is_unit(u, "MUX 4:1"@, seq![a, b, c, d, sel1, sel2], seq![sig(s0 + 29)], 0, 3)
    &&& is_mux_2to1(child(u, 0), a, b, sel1, s0, t0)
    &&& is_mux_2to1(child(u, 1), c, d, sel1, s0 + 10, t0 + 20)
    &&& is_mux_2to1(child(u, 2), sig(s0 + 9), sig(s0 + 19), sel2, s0 + 20, t0 + 40)
}

/// SR latch: two cross-coupled NANDs. Q is signal `s0`, !Q is `s0 + 1`,
/// the NANDs' inner nodes are `s0 + 2` and `s0 + 3`.
pub open spec fn sr_latch_cells(set: SignalId, reset: SignalId, s0: nat) -> Seq<Cell> {
    let q = sig(s0);
    let not_q = sig(s0 + 1);
    let mid_top = sig(s0 + 2);
    let mid_bot = sig(s0 + 3);
    seq![
        (TransistorKind::PMOS, set, sig(0), q),
        (TransistorKind::PMOS, not_q, sig(0), q),
        (TransistorKind::NMOS, set, mid_top, q),
        (TransistorKind::NMOS, not_q, sig(1), mid_top),
        (TransistorKind::PMOS, reset, sig(0), not_q),
        (TransistorKind::PMOS, q, sig(0), not_q),
        (TransistorKind::NMOS, reset, mid_bot, not_q),
        (TransistorKind::NMOS, q, sig(1), mid_bot),
    ]
}

pub open spec fn sr_latch_names() -> Seq<Option<Seq<char>>> {
    seq![Some("Q"@), Some("!Q"@), None, None]
}

pub open spec fn is_sr_latch(u: UnitDescriptor, set: SignalId, reset: SignalId, s0: nat, t0: nat) -> bool {
    &&& is_unit(u, "SR Latch"@, seq![set, reset], seq![sig(s0), sig(s0 + 1)], 2, 0)
    &&& is_leaf_gate(gate_at(u, 0), GateKind::NAND, seq![set, sig(s0 + 1)], sig(s0), t0, 4)
    &&& is_leaf_gate(gate_at(u, 1), GateKind::NAND, seq![reset, sig(s0)], sig(s0 + 1), t0 + 4, 4)
}


impl Schematic {
    pub fn new() -> (s: Self)
        ensures
            s.units@.len() == 0,
    {
        Schematic { units: Vec::new() }
    }

    /// Registers a unit and returns its id.
    pub fn add_unit(&mut self, unit: UnitDescriptor) -> (id: UnitId)
        ensures
            id.0 == old(self).units@.len(),
            final(self).units@ == old(self).units@.push(unit),
    {
        let id = self.units.len();
        self.units.push(unit);
        UnitId(id)
    }
}

impl Schematic {
    /// A half adder on `a` and `b`: outputs are sum (XOR) then carry (AND).
    pub fn half_adder(&mut self, graph: &mut SignalGraph, a: SignalId, b: SignalId) -> (u: UnitDescriptor)
        ensures
            final(self).units@ == old(self).units@,
            old(graph).wf_shape() ==> final(graph).grown_from(
                *old(graph),
                half_adder_cells(a, b, old(graph).signals@.len()),
                half_adder_names(),
            ),
            is_half_adder(u, a, b, old(graph).signals@.len(), old(graph).kinds@.len()),
            final(graph).signals@.len() == old(graph).signals@.len() + 11,
            final(graph).kinds@.len() == old(graph).kinds@.len() + 22,
            old(graph).wf() && a.0 < old(graph).signals@.len() && b.0 < old(graph).signals@.len()
                ==> final(graph).wf(),
    {
        reveal(half_adder_cells);
        reveal(half_adder_names);
        reveal(is_half_adder);
        let ghost g0 = *graph;
        let ghost s0 = graph.signals@.len();
        let sum = graph.xor(a, b);
        let ghost g1 = *graph;
        let carry = graph.and(a, b);
        proof {
            if g0.wf_shape() {
                lemma_grown_trans(*graph, g1, g0, xor_cells(a, b, s0), xor_names(), and_cells(a, b, s0 + 8), and_names());
            }
        }
        let sum_out = sum.output;
        let carry_out = carry.output;
        UnitDescriptor {
            name: String::from_str("Half Adder"),
            kind: UnitKind::Composite,
            inputs: vec![a, b],
            outputs: vec![sum_out, carry_out],
            gates: Some(vec![sum, carry]),
            children: None,
        }
    }

    /// A full adder on `a`, `b` and carry in `cin`: outputs are sum then
    /// carry out.
    pub fn full_adder(
        &mut self,
        graph: &mut SignalGraph,
        a: SignalId,
        b: SignalId,
        cin: SignalId,
    ) -> (u: UnitDescriptor)
        ensures
            final(self).units@ == old(self).units@,
            old(graph).wf_shape() ==> final(graph).grown_from(
                *old(graph),
                full_adder_cells(a, b, cin, old(graph).signals@.len()),
                full_adder_names(),
            ),
            is_full_adder(u, a, b, cin, old(graph).signals@.len(), old(graph).kinds@.len()),
            final(graph).signals@.len() == old(graph).signals@.len() + 25,
            final(graph).kinds@.len() == old(graph).kinds@.len() + 50,
            old(graph).wf() && a.0 < old(graph).signals@.len() && b.0 < old(graph).signals@.len()
                && cin.0 < old(graph).signals@.len() ==> final(graph).wf(),
    {
        reveal(full_adder_cells);
        reveal(full_adder_names);
        reveal(is_half_adder);
        reveal(is_full_adder);
        let ghost g0 = *graph;
        let ghost s0 = graph.signals@.len();
        let ha1 = self.half_adder(graph, a, b);
        let ghost g1 = *graph;
        let ha2 = self.half_adder(graph, ha1.outputs[0], cin);
        let ghost g2 = *graph;
        let cout = graph.or(ha1.outputs[1], ha2.outputs[1], true);
        proof {
            if g0.wf_shape() {
                lemma_grown_trans(g2, g1, g0, half_adder_cells(a, b, s0), half_adder_names(), half_adder_cells(sig(s0 + 6), cin, s0 + 11), half_adder_names());
                lemma_grown_trans(*graph, g2, g0, half_adder_cells(a, b, s0) + half_adder_cells(sig(s0 + 6), cin, s0 + 11), half_adder_names() + half_adder_names(), or_cells(sig(s0 + 10), sig(s0 + 21), true, s0 + 22), or_names(true));
            }
        }
        let sum_out = ha2.outputs[0];
        let cout_out = cout.output;
        UnitDescriptor {
            name: String::from_str("Full Adder"),
            kind: UnitKind::Composite,
            inputs: vec![a, b, cin],
            outputs: vec![sum_out, cout_out],
            gates: Some(vec![cout]),
            children: Some(vec![ha1, ha2]),
        }
    }
}


impl Schematic {
    /// A 4-bit ripple carry adder: bit 0 first in `a` and `b`; outputs are
    /// the four sum bits then the carry out.
    pub fn adder_4bit(
        &mut self,
        graph: &mut SignalGraph,
        a: [SignalId; 4],
        b: [SignalId; 4],
        cin: SignalId,
    ) -> (u: UnitDescriptor)
        ensures
            final(self).units@ == old(self).units@,
            old(graph).wf_shape() ==> final(graph).grown_from(
                *old(graph),
                adder_4bit_cells(a@, b@, cin, old(graph).signals@.len()),
                adder_4bit_names(),
            ),
            is_adder_4bit(u, a@, b@, cin, old(graph).signals@.len(), old(graph).kinds@.len()),
            final(graph).signals@.len() == old(graph).signals@.len() + 100,
            final(graph).kinds@.len() == old(graph).kinds@.len() + 200,
            old(graph).wf() && cin.0 < old(graph).signals@.len() && (forall|k: int|
                0 <= k < 4 ==> (#[trigger] a@[k]).0 < old(graph).signals@.len()
                    && b@[k].0 < old(graph).signals@.len()) ==> final(graph).wf(),
    {
        reveal(adder_4bit_cells);
        reveal(adder_4bit_names);
        reveal(is_full_adder);
        let ghost g0 = *graph;
        let ghost s0 = graph.signals@.len();
        let ghost t0 = graph.kinds@.len();
        let ghost fan = full_adder_names();
        let ad1 = self.full_adder(graph, a[0], b[0], cin);
        let ghost g1 = *graph;
        let ad2 = self.full_adder(graph, a[1], b[1], ad1.outputs[1]);
        let ghost g2 = *graph;
        let ad3 = self.full_adder(graph, a[2], b[2], ad2.outputs[1]);
        let ghost g3 = *graph;
        let ad4 = self.full_adder(graph, a[3], b[3], ad3.outputs[1]);
        proof {
            let c0 = full_adder_cells(a@[0], b@[0], ripple_carry(cin, s0, 0), s0);
            let c1 = full_adder_cells(a@[1], b@[1], ripple_carry(cin, s0, 1), s0 + 25);
            let c2 = full_adder_cells(a@[2], b@[2], ripple_carry(cin, s0, 2), s0 + 50);
            let c3 = full_adder_cells(a@[3], b@[3], ripple_carry(cin, s0, 3), s0 + 75);
            if g0.wf_shape() {
                lemma_grown_trans(g2, g1, g0, c0, fan, c1, fan);
                lemma_grown_trans(g3, g2, g0, c0 + c1, fan + fan, c2, fan);
                lemma_grown_trans(*graph, g3, g0, c0 + c1 + c2, fan + fan + fan, c3, fan);
            }
            if g0.wf() && cin.0 < s0 && (forall|k: int|
                0 <= k < 4 ==> (#[trigger] a@[k]).0 < s0 && b@[k].0 < s0) {
                assert(a@[1].0 < s0 && b@[1].0 < s0);
                assert(a@[2].0 < s0 && b@[2].0 < s0);
                assert(a@[3].0 < s0 && b@[3].0 < s0);
            }
        }
        let mut inputs: Vec<SignalId> = Vec::new();
        inputs.push(a[0]);
        inputs.push(a[1]);
        inputs.push(a[2]);
        inputs.push(a[3]);
        inputs.push(b[0]);
        inputs.push(b[1]);
        inputs.push(b[2]);
        inputs.push(b[3]);
        inputs.push(cin);
        assert(inputs@ =~= a@ + b@ + seq![cin]);
        let outputs = vec![ad1.outputs[0], ad2.outputs[0], ad3.outputs[0], ad4.outputs[0], ad4.outputs[1]];
        let u = UnitDescriptor {
            name: String::from_str("4 bit Ripple Adder"),
            kind: UnitKind::Composite,
            inputs,
            outputs,
            gates: None,
            children: Some(vec![ad1, ad2, ad3, ad4]),
        };
        proof {
            lemma_ripple_children(u, a@, b@, cin, s0, t0);
        }
        u
    }

    /// A 2:1 multiplexer: the output follows `a` while `sel` is Low and `b`
    /// while `sel` is High.
    pub fn mux_2to1(
        &mut self,
        graph: &mut SignalGraph,
        a: SignalId,
        b: SignalId,
        sel: SignalId,
    ) -> (u: UnitDescriptor)
        ensures
            final(self).units@ == old(self).units@,
            old(graph).wf_shape() ==> final(graph).grown_from(
                *old(graph),
                mux_2to1_cells(a, b, sel, old(graph).signals@.len()),
                mux_2to1_names(),
            ),
            is_mux_2to1(u, a, b, sel, old(graph).signals@.len(), old(graph).kinds@.len()),
            final(graph).signals@.len() == old(graph).signals@.len() + 10,
            final(graph).kinds@.len() == old(graph).kinds@.len() + 20,
            old(graph).wf() && a.0 < old(graph).signals@.len() && b.0 < old(graph).signals@.len()
                && sel.0 < old(graph).signals@.len() ==> final(graph).wf(),
    {
        reveal(mux_2to1_cells);
        reveal(mux_2to1_names);
        reveal(is_mux_2to1);
        let ghost g0 = *graph;
        let ghost s0 = graph.signals@.len();
        let not_sel = graph.not(sel);
        let ghost g1 = *graph;
        let a_gate = graph.and(a, not_sel.output);
        let ghost g2 = *graph;
        let b_gate = graph.and(b, sel);
        let ghost g3 = *graph;
        let out = graph.or(a_gate.output, b_gate.output, true);
        proof {
            if g0.wf_shape() {
                let c0 = not_cells(sel, s0);
                let c1 = and_cells(a, sig(s0), s0 + 1);
                let c2 = and_cells(b, sel, s0 + 4);
                let c3 = or_cells(sig(s0 + 3), sig(s0 + 6), true, s0 + 7);
                lemma_grown_trans(g2, g1, g0, c0, not_names(), c1, and_names());
                lemma_grown_trans(g3, g2, g0, c0 + c1, not_names() + and_names(), c2, and_names());
                lemma_grown_trans(*graph, g3, g0, c0 + c1 + c2, not_names() + and_names() + and_names(), c3, or_names(true));
            }
        }
        let output = out.output;
        let outputs = vec![output];
        assert(outputs@ =~= seq![output]);
        let u = UnitDescriptor {
            name: String::from_str("MUX 2:1"),
            kind: UnitKind::Composite,
            inputs: vec![a, b, sel],
            outputs,
            gates: Some(vec![not_sel, a_gate, b_gate, out]),
            children: None,
        };
        u
    }

    /// A 4:1 multiplexer: with (`sel2`, `sel1`) as a two-bit number, the
    /// output follows `a`, `b`, `c` or `d`.
    #[allow(clippy::too_many_arguments)]
    pub fn mux_4to1(
        &mut self,
        graph: &mut SignalGraph,
        a: SignalId,
        b: SignalId,
        c: SignalId,
        d: SignalId,
        sel1: SignalId,
        sel2: SignalId,
    ) -> (u: UnitDescriptor)
        ensures
            final(self).units@ == old(self).units@,
            old(graph).wf_shape() ==> final(graph).grown_from(
                *old(graph),
                mux_4to1_cells(a, b, c, d, sel1, sel2, old(graph).signals@.len()),
                mux_4to1_names(),
            ),
            is_mux_4to1(u, a, b, c, d, sel1, sel2, old(graph).signals@.len(), old(graph).kinds@.len()),
            final(graph).signals@.len() == old(graph).signals@.len() + 30,
            final(graph).kinds@.len() == old(graph).kinds@.len() + 60,
            old(graph).wf() && a.0 < old(graph).signals@.len() && b.0 < old(graph).signals@.len()
                && c.0 < old(graph).signals@.len() && d.0 < old(graph).signals@.len() && sel1.0
                < old(graph).signals@.len() && sel2.0 < old(graph).signals@.len() ==> final(graph).wf(),
    {
        reveal(mux_4to1_cells);
        reveal(mux_4to1_names);
        reveal(is_mux_2to1);
        let ghost g0 = *graph;
        let ghost s0 = graph.signals@.len();
        let r1 = self.mux_2to1(graph, a, b, sel1);
        let ghost g1 = *graph;
        let r2 = self.mux_2to1(graph, c, d, sel1);
        let ghost g2 = *graph;
        let out = self.mux_2to1(graph, r1.outputs[0], r2.outputs[0], sel2);
        proof {
            if g0.wf_shape() {
                let c0 = mux_2to1_cells(a, b, sel1, s0);
                let c1 = mux_2to1_cells(c, d, sel1, s0 + 10);
                let c2 = mux_2to1_cells(sig(s0 + 9), sig(s0 + 19), sel2, s0 + 20);
                lemma_grown_trans(g2, g1, g0, c0, mux_2to1_names(), c1, mux_2to1_names());
                lemma_grown_trans(*graph, g2, g0, c0 + c1, mux_2to1_names() + mux_2to1_names(), c2, mux_2to1_names());
            }
        }
        let output = out.outputs[0];
        let outputs = vec![output];
        assert(outputs@ =~= seq![output]);
        UnitDescriptor {
            name: String::from_str("MUX 4:1"),
            kind: UnitKind::Composite,
            inputs: vec![a, b, c, d, sel1, sel2],
            outputs,
            gates: None,
            children: Some(vec![r1, r2, out]),
        }
    }
}


proof fn lemma_ripple_children(
    u: UnitDescriptor,
    a: Seq<SignalId>,
    b: Seq<SignalId>,
    cin: SignalId,
    s0: nat,
    t0: nat,
)
    requires
        is_full_adder(child(u, 0), a[0], b[0], cin, s0, t0),
        is_full_adder(child(u, 1), a[1], b[1], sig(s0 + 24), s0 + 25, t0 + 50),
        is_full_adder(child(u, 2), a[2], b[2], sig(s0 + 49), s0 + 50, t0 + 100),
        is_full_adder(child(u, 3), a[3], b[3], sig(s0 + 74), s0 + 75, t0 + 150),
    ensures
        forall|k: int|
            0 <= k < 4 ==> is_full_adder(
                #[trigger] child(u, k),
                a[k],
                b[k],
                ripple_carry(cin, s0, k as nat),
                (s0 + 25 * k) as nat,
                (t0 + 50 * k) as nat,
            ),
{
    assert forall|k: int| 0 <= k < 4 implies is_full_adder(
        #[trigger] child(u, k),
        a[k],
        b[k],
        ripple_carry(cin, s0, k as nat),
        (s0 + 25 * k) as nat,
        (t0 + 50 * k) as nat,
    ) by {
        if k == 0 {
        } else if k == 1 {
        } else if k == 2 {
        } else {
        }
    }
}


impl Schematic {
    /// An SR latch from two cross-coupled NANDs; outputs are Q then !Q,
    /// which keep their state while nothing drives them.
    ///
    /// set High, reset High: hold; set Low: Q goes High; reset Low: Q goes
    /// Low; both Low: both outputs High.
    pub fn sr_latch(&mut self, graph: &mut SignalGraph, set: SignalId, reset: SignalId) -> (u: UnitDescriptor)
        ensures
            final(self).units@ == old(self).units@,
            old(graph).wf_shape() ==> {
                &&& final(graph).cells() == old(graph).cells() + sr_latch_cells(
                    set,
                    reset,
                    old(graph).signals@.len(),
                )
                &&& final(graph).names() == old(graph).names() + sr_latch_names()
                &&& final(graph).wf_shape()
            },
            final(graph).signals@ == old(graph).signals@ + seq![
                SignalState::Floating,
                SignalState::Floating,
                SignalState::Floating,
                SignalState::Floating,
            ],
            final(graph).driven@ == old(graph).driven@ + seq![
                None::<SignalState>,
                None::<SignalState>,
                None::<SignalState>,
                None::<SignalState>,
            ],
            final(graph).capacitors@ == old(graph).capacitors@ + seq![
                None::<CapacitorState>,
                None::<CapacitorState>,
                None::<CapacitorState>,
                None::<CapacitorState>,
            ],
            final(graph).sequential@ == old(graph).sequential@ + seq![
                sig(old(graph).signals@.len()),
                sig(old(graph).signals@.len() + 1),
            ],
            final(graph).eval_order@ == old(graph).eval_order@,
            final(graph).cycle_count == old(graph).cycle_count,
            final(graph).kinds@.len() == old(graph).kinds@.len() + 8,
            old(graph).wf_shape() ==> final(graph).dirty,
            is_sr_latch(u, set, reset, old(graph).signals@.len(), old(graph).kinds@.len()),
            old(graph).wf() && set.0 < old(graph).signals@.len() && reset.0 < old(graph).signals@.len()
                ==> final(graph).wf(),
    {
        let ghost g0 = *graph;
        let ghost s0 = graph.signals@.len();
        let q = graph.add_sequential_signal(Some("Q"));
        let not_q = graph.add_sequential_signal(Some("!Q"));
        let ghost g2 = *graph;
        let mid_top = graph.add_signal(None);
        let ghost g3 = *graph;
        let mid_bot = graph.add_signal(None);
        let ghost g4 = *graph;
        let vdd = graph.vdd();
        let gnd = graph.gnd();
        let first1 = graph.kinds.len();
        let cells = vec![
            (TransistorKind::PMOS, set, vdd, q),
            (TransistorKind::PMOS, not_q, vdd, q),
            (TransistorKind::NMOS, set, mid_top, q),
            (TransistorKind::NMOS, not_q, gnd, mid_top),
            (TransistorKind::PMOS, reset, vdd, not_q),
            (TransistorKind::PMOS, q, vdd, not_q),
            (TransistorKind::NMOS, reset, mid_bot, not_q),
            (TransistorKind::NMOS, q, gnd, mid_bot),
        ];
        assert(cells@ =~= sr_latch_cells(set, reset, s0));
        graph.place(&cells);
        let last2 = graph.kinds.len();
        let last1 = last2 - 4;
        proof {
            let e = Seq::<Cell>::empty();
            let nn = seq![None::<Seq<char>>];
            assert(g2.names() == g0.names().push(Some("Q"@)).push(Some("!Q"@)));
            if g0.wf_shape() {
                lemma_grown_trans(g4, g3, g2, e, nn, e, nn);
                lemma_grown_trans(*graph, g4, g2, e + e, nn + nn, cells@, Seq::empty());
                assert(e + e + cells@ =~= cells@);
                assert(g0.cells() == g2.cells());
                assert(g0.names() + sr_latch_names() =~= g2.names() + (nn + nn + Seq::empty()));
                if g0.wf() && set.0 < s0 && reset.0 < s0 {
                    lemma_grown_wf(*graph, g2, cells@, nn + nn + Seq::empty());
                }
            }
            assert(graph.signals@ =~= g0.signals@ + seq![
                SignalState::Floating,
                SignalState::Floating,
                SignalState::Floating,
                SignalState::Floating,
            ]);
            assert(graph.driven@ =~= g0.driven@ + seq![
                None::<SignalState>,
                None::<SignalState>,
                None::<SignalState>,
                None::<SignalState>,
            ]);
            assert(graph.capacitors@ =~= g0.capacitors@ + seq![
                None::<CapacitorState>,
                None::<CapacitorState>,
                None::<CapacitorState>,
                None::<CapacitorState>,
            ]);
            assert(graph.sequential@ =~= g0.sequential@ + seq![sig(s0), sig(s0 + 1)]);
        }
        let nand1 = GateDescriptor {
            kind: GateKind::NAND,
            inputs: vec![set, not_q],
            output: q,
            transistors: Some(crate::sim::transistor::index_block(first1, last1)),
            sub_gates: None,
        };
        let nand2 = GateDescriptor {
            kind: GateKind::NAND,
            inputs: vec![reset, q],
            output: not_q,
            transistors: Some(crate::sim::transistor::index_block(last1, last2)),
            sub_gates: None,
        };
        UnitDescriptor {
            name: String::from_str("SR Latch"),
            kind: UnitKind::Composite,
            inputs: vec![set, reset],
            outputs: vec![q, not_q],
            gates: Some(vec![nand1, nand2]),
            children: None,
        }
    }
}

} // verus!
