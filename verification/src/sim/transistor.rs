#![allow(clippy::upper_case_acronyms)]
use vstd::prelude::*;

use crate::sim::gate::GateKind;

verus! {

/// Index of a signal (a wire) in a [`SignalGraph`].
#[derive(Clone, Copy, PartialEq, Eq, Structural, Debug, Hash)]
pub struct SignalId(pub usize);

/// The electrical state of a wire.
#[derive(Clone, Copy, PartialEq, Eq, Structural, Debug)]
pub enum SignalState {
    High,
    Low,
    /// undriven wire
    Floating,
    /// two drivers fighting: a short circuit
    Conflict,
}

/// Index of a transistor in a [`SignalGraph`].
#[derive(Clone, Copy, PartialEq, Eq, Structural, Debug)]
pub struct TransistorId(pub usize);

#[derive(Clone, Copy, PartialEq, Eq, Structural, Debug)]
pub enum TransistorKind {
    NMOS,
    PMOS,
}

/// The charge of a clock capacitor: it charges up to `period`, then drains
/// back to zero, and its signal is High while `charge >= threshold`.
#[derive(Clone, Copy)]
pub struct CapacitorState {
    pub charge: u8,
    pub threshold: u8,
    pub period: u8,
    pub charging: bool,
}


/// A transistor as the simulator sees it: kind, gate, source, drain.
pub type Cell = (TransistorKind, SignalId, SignalId, SignalId);

/// A circuit of signals and transistors, held as parallel vectors.
pub struct SignalGraph {
    // signal data
    pub signals: Vec<SignalState>,
    pub driven: Vec<Option<SignalState>>,
    pub signal_names: Vec<Option<String>>,
    /// signals that keep their state across propagations (latch outputs)
    pub sequential: Vec<SignalId>,
    // transistor data
    pub kinds: Vec<TransistorKind>,
    pub gates: Vec<SignalId>,
    pub sources: Vec<SignalId>,
    pub drains: Vec<SignalId>,
    pub eval_order: Vec<TransistorId>,
    pub dirty: bool,
    pub capacitors: Vec<Option<CapacitorState>>,
    pub cycle_count: u64,
}

/// What one gate builder produced: its kind, inputs, output, and either
/// the transistors it placed itself or the sub-gates it is made of.
pub struct GateDescriptor {
    pub kind: GateKind,
    pub inputs: Vec<SignalId>,
    pub output: SignalId,
    pub transistors: Option<Vec<usize>>,
    pub sub_gates: Option<Vec<GateDescriptor>>,
}

pub open spec fn name_view(name: Option<String>) -> Option<Seq<char>> {
    match name {
        Some(s) => Some(s@),
        None => None,
    }
}

/// Wire states combine like a lattice: Floating is no information, High
/// and Low are values, and Conflict is two drivers that disagree.
pub open spec fn resolve_spec(a: SignalState, b: SignalState) -> SignalState {
    match (a, b) {
        (SignalState::Conflict, _) => SignalState::Conflict,
        (_, SignalState::Conflict) => SignalState::Conflict,
        (SignalState::Floating, x) => x,
        (x, SignalState::Floating) => x,
        (SignalState::High, SignalState::High) => SignalState::High,
        (SignalState::Low, SignalState::Low) => SignalState::Low,
        _ => SignalState::Conflict,
    }
}

/// An NMOS conducts on a High gate, a PMOS on a Low gate.
pub open spec fn conducts(kind: TransistorKind, gate_state: SignalState) -> bool {
    match kind {
        TransistorKind::NMOS => gate_state == SignalState::High,
        TransistorKind::PMOS => gate_state == SignalState::Low,
    }
}

/// One transistor evaluated against the current wire states: when it
/// conducts, a driven terminal pushes its state onto an undriven one, and
/// two undriven (or two driven) terminals settle on their resolved state,
/// which is only written to the undriven ones.
pub open spec fn step(s: Seq<SignalState>, driven: Seq<Option<SignalState>>, c: Cell) -> Seq<SignalState> {
    let (kind, g, src, drn) = c;
    if !conducts(kind, s[g.0 as int]) {
        s
    } else {
        let sd = driven[src.0 as int] is Some;
        let dd = driven[drn.0 as int] is Some;
        if sd && !dd {
            s.update(drn.0 as int, s[src.0 as int])
        } else if dd && !sd {
            s.update(src.0 as int, s[drn.0 as int])
        } else {
            let r = resolve_spec(s[src.0 as int], s[drn.0 as int]);
            let s1 = if !sd { s.update(src.0 as int, r) } else { s };
            if !dd { s1.update(drn.0 as int, r) } else { s1 }
        }
    }
}

/// The transistors of `order` evaluated one after another.
pub open spec fn sweep(
    s: Seq<SignalState>,
    driven: Seq<Option<SignalState>>,
    cells: Seq<Cell>,
    order: Seq<usize>,
) -> Seq<SignalState>
    decreases order.len(),
{
    if order.len() == 0 {
        s
    } else {
        step(sweep(s, driven, cells, order.drop_last()), driven, cells[order.last() as int])
    }
}

/// Sweeps repeated until the wires stop changing or `budget` sweeps ran.
pub open spec fn settle(
    s: Seq<SignalState>,
    driven: Seq<Option<SignalState>>,
    cells: Seq<Cell>,
    order: Seq<usize>,
    budget: nat,
) -> Seq<SignalState>
    decreases budget,
{
    let next = sweep(s, driven, cells, order);
    if next == s || budget <= 1 {
        next
    } else {
        settle(next, driven, cells, order, (budget - 1) as nat)
    }
}

pub open spec fn is_sequential(sequential: Seq<SignalId>, i: int) -> bool {
    exists|k: int| 0 <= k < sequential.len() && #[trigger] sequential[k].0 == i
}

/// The state every wire starts a propagation from: a driven wire holds its
/// drive, every other wire floats.
pub open spec fn reset_states(s: Seq<SignalState>, driven: Seq<Option<SignalState>>) -> Seq<SignalState> {
    Seq::new(
        s.len(),
        |i: int|
            match driven[i] {
                Some(st) => st,
                None => SignalState::Floating,
            },
    )
}

/// A sequential wire that nothing drove during a propagation (it settled
/// floating) keeps the state it had before: its stored charge.
pub open spec fn keep_stored(
    settled: Seq<SignalState>,
    prev: Seq<SignalState>,
    sequential: Seq<SignalId>,
) -> Seq<SignalState> {
    Seq::new(
        settled.len(),
        |i: int|
            if is_sequential(sequential, i) && settled[i] == SignalState::Floating {
                prev[i]
            } else {
                settled[i]
            },
    )
}

/// Every driven wire set to its drive.
pub open spec fn apply_drives(s: Seq<SignalState>, driven: Seq<Option<SignalState>>) -> Seq<SignalState> {
    Seq::new(
        s.len(),
        |i: int|
            match driven[i] {
                Some(st) => st,
                None => s[i],
            },
    )
}

pub open spec fn scheduled(order: Seq<TransistorId>, t: int) -> bool {
    exists|k: int| 0 <= k < order.len() && #[trigger] order[k].0 == t
}

/// The transistors below `k` that `order` leaves out, in increasing order.
pub open spec fn unscheduled(order: Seq<TransistorId>, k: nat) -> Seq<usize>
    decreases k,
{
    if k == 0 {
        Seq::empty()
    } else {
        let prev = unscheduled(order, (k - 1) as nat);
        if scheduled(order, k - 1) {
            prev
        } else {
            prev.push((k - 1) as usize)
        }
    }
}

/// The scheduled transistors first, then the remaining (cyclic) ones.
pub open spec fn full_order(order: Seq<TransistorId>, n: nat) -> Seq<usize> {
    order.map_values(|t: TransistorId| t.0) + unscheduled(order, n)
}

impl SignalGraph {
    pub open spec fn cell(&self, t: int) -> Cell {
        (self.kinds@[t], self.gates@[t], self.sources@[t], self.drains@[t])
    }

    /// The transistors, in placement order.
    pub open spec fn cells(&self) -> Seq<Cell> {
        Seq::new(self.kinds@.len(), |t: int| self.cell(t))
    }

    /// The signal names, as character sequences.
    pub open spec fn names(&self) -> Seq<Option<Seq<char>>> {
        Seq::new(self.signal_names@.len(), |i: int| name_view(self.signal_names@[i]))
    }

    /// The per-signal vectors agree in length, the per-transistor vectors
    /// agree in length, and the two rails exist.
    pub open spec fn wf_shape(&self) -> bool {
        &&& self.signals@.len() >= 2
        &&& self.driven@.len() == self.signals@.len()
        &&& self.signal_names@.len() == self.signals@.len()
        &&& self.capacitors@.len() == self.signals@.len()
        &&& self.gates@.len() == self.kinds@.len()
        &&& self.sources@.len() == self.kinds@.len()
        &&& self.drains@.len() == self.kinds@.len()
    }

    /// Every transistor terminal is an existing signal.
    pub open spec fn terminals_ok(&self) -> bool {
        &&& forall|t: int|
            0 <= t < self.kinds@.len() ==> (#[trigger] self.gates@[t]).0 < self.signals@.len()
        &&& forall|t: int|
            0 <= t < self.kinds@.len() ==> (#[trigger] self.sources@[t]).0 < self.signals@.len()
        &&& forall|t: int|
            0 <= t < self.kinds@.len() ==> (#[trigger] self.drains@[t]).0 < self.signals@.len()
    }

    /// The evaluation order names existing transistors.
    pub open spec fn order_ok(&self) -> bool {
        forall|k: int|
            0 <= k < self.eval_order@.len() ==> (#[trigger] self.eval_order@[k]).0
                < self.kinds@.len()
    }

    /// Every transistor terminal is an existing signal and the evaluation
    /// order names existing transistors.
    pub open spec fn wf_refs(&self) -> bool {
        self.terminals_ok() && self.order_ok()
    }

    /// What settling the wires reads: a drive slot for every wire, a gate,
    /// source and drain for every transistor, and every terminal an
    /// existing wire. Names, clocks and the two rails play no part.
    pub open spec fn wires_ok(&self) -> bool {
        &&& self.driven@.len() == self.signals@.len()
        &&& self.gates@.len() == self.kinds@.len()
        &&& self.sources@.len() == self.kinds@.len()
        &&& self.drains@.len() == self.kinds@.len()
        &&& self.terminals_ok()
    }

    /// What `propagate` needs: the wires can settle, and the evaluation
    /// order names existing transistors unless it is about to be rebuilt.
    pub open spec fn can_propagate(&self) -> bool {
        self.wires_ok() && (!self.dirty ==> self.order_ok())
    }

    pub open spec fn wf(&self) -> bool {
        self.wf_shape() && self.wf_refs()
    }

    /// Every field but the wire states agrees with `other`.
    pub open spec fn same_but_signals(&self, other: SignalGraph) -> bool {
        &&& self.driven@ == other.driven@
        &&& self.signal_names@ == other.signal_names@
        &&& self.sequential@ == other.sequential@
        &&& self.kinds@ == other.kinds@
        &&& self.gates@ == other.gates@
        &&& self.sources@ == other.sources@
        &&& self.drains@ == other.drains@
        &&& self.eval_order@ == other.eval_order@
        &&& self.dirty == other.dirty
        &&& self.capacitors@ == other.capacitors@
        &&& self.cycle_count == other.cycle_count
    }

    /// `self` is `old` with `cells` placed after its transistors and one new
    /// floating, undriven signal for each entry of `names`.
    pub open spec fn grown_from(
        &self,
        old: SignalGraph,
        cells: Seq<Cell>,
        names: Seq<Option<Seq<char>>>,
    ) -> bool {
        &&& self.cells() == old.cells() + cells
        &&& self.names() == old.names() + names
        &&& self.signals@ == old.signals@ + Seq::new(names.len(), |i: int| SignalState::Floating)
        &&& self.driven@ == old.driven@ + Seq::new(names.len(), |i: int| None::<SignalState>)
        &&& self.capacitors@ == old.capacitors@ + Seq::new(names.len(), |i: int| None::<CapacitorState>)
        &&& self.sequential@ == old.sequential@
        &&& self.eval_order@ == old.eval_order@
        &&& self.cycle_count == old.cycle_count
        &&& self.dirty == (old.dirty || cells.len() > 0)
        &&& old.wf_shape() ==> self.wf_shape()
    }

    /// The state the wires settle in under the current drives, evaluation
    /// order and transistors, starting from the wire states `prev`: every
    /// undriven wire starts floating and the sweeps settle them; each
    /// sequential wire that nothing drove (it settled floating) then takes
    /// back its stored state from `prev`, and, when that changed anything,
    /// the sweeps settle the wires again with the stored states in place,
    /// so the gates a held wire feeds see its state.
    pub open spec fn settled_from(&self, prev: Seq<SignalState>) -> Seq<SignalState> {
        let n = self.kinds@.len();
        let order = full_order(self.eval_order@, n);
        let budget = if unscheduled(self.eval_order@, n).len() > 0 { 4 * n } else { n + 1 };
        let first = settle(reset_states(prev, self.driven@), self.driven@, self.cells(), order, budget);
        let held = keep_stored(first, prev, self.sequential@);
        let second = if held == first {
            first
        } else {
            settle(held, self.driven@, self.cells(), order, budget)
        };
        apply_drives(second, self.driven@)
    }

    /// `self` is what `propagate` leaves of `old`: the wires settled from
    /// `old`'s wire states, the evaluation order rebuilt by Kahn's queue
    /// when `old` was dirty and kept otherwise, everything else unchanged.
    pub open spec fn propagated_from(&self, old: SignalGraph) -> bool {
        &&& self.signals@ == self.settled_from(old.signals@)
        &&& self.signals@.len() == old.signals@.len()
        &&& old.dirty ==> self.is_schedule(self.eval_order@) && self.is_queue_order(self.eval_order@)
        &&& !old.dirty ==> self.eval_order@ == old.eval_order@
        &&& !self.dirty
        &&& self.driven@ == old.driven@
        &&& self.signal_names@ == old.signal_names@
        &&& self.sequential@ == old.sequential@
        &&& self.kinds@ == old.kinds@
        &&& self.gates@ == old.gates@
        &&& self.sources@ == old.sources@
        &&& self.drains@ == old.drains@
        &&& self.capacitors@ == old.capacitors@
        &&& self.cycle_count == old.cycle_count
        &&& self.wires_ok()
        &&& self.order_ok()
    }

    /// Transistor `j`'s gate is the wire that transistor `i` drains into.
    pub open spec fn feeds(&self, i: int, j: int) -> bool {
        self.drains@[i].0 == self.gates@[j].0
    }

    /// `order` is the evaluation order of the transistors: each appears at
    /// most once, after every transistor that feeds it, and a transistor is
    /// left out only when one that feeds it is left out too (it sits on or
    /// behind a cycle).
    pub open spec fn is_schedule(&self, order: Seq<TransistorId>) -> bool {
        let n = self.kinds@.len();
        &&& forall|k: int| 0 <= k < order.len() ==> (#[trigger] order[k]).0 < n
        &&& forall|k1: int, k2: int|
            0 <= k1 < k2 < order.len() ==> (#[trigger] order[k1]).0 != (#[trigger] order[k2]).0
        &&& forall|k: int, i: int|
            0 <= k < order.len() && 0 <= i < n && #[trigger] self.feeds(i, order[k].0 as int)
                ==> exists|k2: int| 0 <= k2 < k && (#[trigger] order[k2]).0 == i
        &&& forall|j: int|
            0 <= j < n && !scheduled(order, j) ==> exists|i: int|
                0 <= i < n && #[trigger] self.feeds(i, j) && !scheduled(order, i)
    }
}

pub open spec fn str_name_view(name: Option<&str>) -> Option<Seq<char>> {
    match name {
        Some(s) => Some(s@),
        None => None,
    }
}

/// The terminals of every transistor in `cells` are signals below `ns`.
pub open spec fn cells_within(cells: Seq<Cell>, ns: nat) -> bool {
    forall|k: int|
        0 <= k < cells.len() ==> {
            &&& (#[trigger] cells[k]).1.0 < ns
            &&& cells[k].2.0 < ns
            &&& cells[k].3.0 < ns
        }
}

/// Growing a well-formed graph by transistors whose terminals exist keeps
/// it well-formed.
pub proof fn lemma_grown_wf(
    new: SignalGraph,
    old: SignalGraph,
    cells: Seq<Cell>,
    names: Seq<Option<Seq<char>>>,
)
    requires
        old.wf(),
        new.grown_from(old, cells, names),
        cells_within(cells, old.signals@.len() + names.len()),
    ensures
        new.wf(),
{
    assert(new.kinds@.len() == old.kinds@.len() + cells.len()) by {
        assert(new.cells().len() == new.kinds@.len());
    }
    assert forall|t: int| 0 <= t < new.kinds@.len() implies (#[trigger] new.gates@[t]).0
        < new.signals@.len() by {
        assert(new.cells()[t] == new.cell(t));
        if t < old.kinds@.len() {
            assert(old.cells()[t] == old.cell(t));
        } else {
            assert(cells[t - old.kinds@.len()] == new.cells()[t]);
        }
    }
    assert forall|t: int| 0 <= t < new.kinds@.len() implies (#[trigger] new.sources@[t]).0
        < new.signals@.len() by {
        assert(new.cells()[t] == new.cell(t));
        if t < old.kinds@.len() {
            assert(old.cells()[t] == old.cell(t));
        } else {
            assert(cells[t - old.kinds@.len()] == new.cells()[t]);
        }
    }
    assert forall|t: int| 0 <= t < new.kinds@.len() implies (#[trigger] new.drains@[t]).0
        < new.signals@.len() by {
        assert(new.cells()[t] == new.cell(t));
        if t < old.kinds@.len() {
            assert(old.cells()[t] == old.cell(t));
        } else {
            assert(cells[t - old.kinds@.len()] == new.cells()[t]);
        }
    }
}

/// Growth composes: growing by `c1, n1` then by `c2, n2` is growing by
/// their concatenations.
pub proof fn lemma_grown_trans(
    c: SignalGraph,
    b: SignalGraph,
    a: SignalGraph,
    c1: Seq<Cell>,
    n1: Seq<Option<Seq<char>>>,
    c2: Seq<Cell>,
    n2: Seq<Option<Seq<char>>>,
)
    requires
        b.grown_from(a, c1, n1),
        c.grown_from(b, c2, n2),
    ensures
        c.grown_from(a, c1 + c2, n1 + n2),
{
    assert(a.cells() + c1 + c2 =~= a.cells() + (c1 + c2));
    assert(a.names() + n1 + n2 =~= a.names() + (n1 + n2));
    assert(a.signals@ + Seq::new(n1.len(), |i: int| SignalState::Floating) + Seq::new(
        n2.len(),
        |i: int| SignalState::Floating,
    ) =~= a.signals@ + Seq::new((n1 + n2).len(), |i: int| SignalState::Floating));
    assert(a.driven@ + Seq::new(n1.len(), |i: int| None::<SignalState>) + Seq::new(
        n2.len(),
        |i: int| None::<SignalState>,
    ) =~= a.driven@ + Seq::new((n1 + n2).len(), |i: int| None::<SignalState>));
    assert(a.capacitors@ + Seq::new(n1.len(), |i: int| None::<CapacitorState>) + Seq::new(
        n2.len(),
        |i: int| None::<CapacitorState>,
    ) =~= a.capacitors@ + Seq::new((n1 + n2).len(), |i: int| None::<CapacitorState>));
}

impl SignalGraph {
    /// A graph holding only the two rails: signal 0 is VDD (driven High)
    /// and signal 1 is GND (driven Low).
    pub fn new() -> (g: Self)
        ensures
            g.wf(),
            g.signals@ == seq![SignalState::High, SignalState::Low],
            g.driven@ == seq![Some(SignalState::High), Some(SignalState::Low)],
            g.names() == seq![Some("VDD"@), Some("GND"@)],
            g.capacitors@ == seq![None::<CapacitorState>, None::<CapacitorState>],
            g.sequential@.len() == 0,
            g.kinds@.len() == 0,
            g.gates@.len() == 0,
            g.sources@.len() == 0,
            g.drains@.len() == 0,
            g.eval_order@.len() == 0,
            !g.dirty,
            g.cycle_count == 0,
    {
        let vdd = SignalState::High;
        let gnd = SignalState::Low;
        let g = SignalGraph {
            signals: vec![vdd, gnd],
            driven: vec![Some(vdd), Some(gnd)],
            signal_names: vec![Some(String::from_str("VDD")), Some(String::from_str("GND"))],
            sequential: Vec::new(),
            kinds: Vec::new(),
            gates: Vec::new(),
            sources: Vec::new(),
            drains: Vec::new(),
            eval_order: Vec::new(),
            dirty: false,
            capacitors: vec![None, None],
            cycle_count: 0,
        };
        assert(g.names() =~= seq![Some("VDD"@), Some("GND"@)]);
        g
    }

    /// Adds a floating, undriven signal and returns its id.
    pub fn add_signal(&mut self, name: Option<&str>) -> (id: SignalId)
        ensures
            id.0 == old(self).signals@.len(),
            final(self).grown_from(*old(self), Seq::empty(), seq![str_name_view(name)]),
            final(self).kinds@ == old(self).kinds@,
            final(self).gates@ == old(self).gates@,
            final(self).sources@ == old(self).sources@,
            final(self).drains@ == old(self).drains@,
            final(self).signal_names@.len() == old(self).signal_names@.len() + 1,
            old(self).wf() ==> final(self).wf(),
    {
        let id = SignalId(self.signals.len());
        self.signals.push(SignalState::Floating);
        self.driven.push(None);
        let owned = match name {
            Some(s) => Some(String::from_str(s)),
            None => None,
        };
        self.signal_names.push(owned);
        self.capacitors.push(None);
        proof {
            let ghost names = seq![str_name_view(name)];
            assert(self.cells() =~= old(self).cells() + Seq::empty());
            assert(self.names() =~= old(self).names() + names);
            assert(self.signals@ =~= old(self).signals@ + Seq::new(names.len(), |i: int| SignalState::Floating));
            assert(self.driven@ =~= old(self).driven@ + Seq::new(names.len(), |i: int| None::<SignalState>));
            assert(self.capacitors@ =~= old(self).capacitors@ + Seq::new(names.len(), |i: int| None::<CapacitorState>));
            if old(self).wf() {
                lemma_grown_wf(*self, *old(self), Seq::empty(), names);
            }
        }
        id
    }

    /// Adds a signal that keeps its state across propagations (a latch
    /// output) and returns its id.
    pub fn add_sequential_signal(&mut self, name: Option<&str>) -> (id: SignalId)
        ensures
            id.0 == old(self).signals@.len(),
            final(self).cells() == old(self).cells(),
            final(self).names() == old(self).names().push(str_name_view(name)),
            final(self).signals@ == old(self).signals@.push(SignalState::Floating),
            final(self).driven@ == old(self).driven@.push(None),
            final(self).capacitors@ == old(self).capacitors@.push(None),
            final(self).sequential@ == old(self).sequential@.push(id),
            final(self).eval_order@ == old(self).eval_order@,
            final(self).dirty == old(self).dirty,
            final(self).cycle_count == old(self).cycle_count,
            final(self).kinds@ == old(self).kinds@,
            final(self).gates@ == old(self).gates@,
            final(self).sources@ == old(self).sources@,
            final(self).drains@ == old(self).drains@,
            old(self).wf_shape() ==> final(self).wf_shape(),
            old(self).wf() ==> final(self).wf(),
    {
        let id = self.add_signal(name);
        assert(old(self).wf() ==> self.wf());
        self.sequential.push(id);
        proof {
            assert(self.names() =~= old(self).names().push(str_name_view(name)));
            assert(self.cells() =~= old(self).cells());
        }
        id
    }

    /// Places a transistor and marks the evaluation order stale.
    pub fn add_transistor(
        &mut self,
        kind: TransistorKind,
        gate: SignalId,
        source: SignalId,
        drain: SignalId,
    ) -> (id: TransistorId)
        ensures
            id.0 == old(self).kinds@.len(),
            final(self).kinds@ == old(self).kinds@.push(kind),
            final(self).gates@ == old(self).gates@.push(gate),
            final(self).sources@ == old(self).sources@.push(source),
            final(self).drains@ == old(self).drains@.push(drain),
            final(self).signals@ == old(self).signals@,
            final(self).driven@ == old(self).driven@,
            final(self).signal_names@ == old(self).signal_names@,
            final(self).capacitors@ == old(self).capacitors@,
            final(self).sequential@ == old(self).sequential@,
            final(self).eval_order@ == old(self).eval_order@,
            final(self).cycle_count == old(self).cycle_count,
            final(self).dirty,
            old(self).wf_shape() ==> final(self).grown_from(
                *old(self),
                seq![(kind, gate, source, drain)],
                Seq::empty(),
            ),
            old(self).wf() && gate.0 < old(self).signals@.len() && source.0 < old(self).signals@.len()
                && drain.0 < old(self).signals@.len() ==> final(self).wf(),
    {
        let id = self.kinds.len();
        self.kinds.push(kind);
        self.gates.push(gate);
        self.sources.push(source);
        self.drains.push(drain);
        self.dirty = true;
        proof {
            let ghost cells = seq![(kind, gate, source, drain)];
            let ghost names = Seq::<Option<Seq<char>>>::empty();
            if old(self).wf_shape() {
                assert(self.cells() =~= old(self).cells() + cells);
            }
            assert(self.names() =~= old(self).names() + names);
            assert(self.signals@ =~= old(self).signals@ + Seq::new(names.len(), |i: int| SignalState::Floating));
            assert(self.driven@ =~= old(self).driven@ + Seq::new(names.len(), |i: int| None::<SignalState>));
            assert(self.capacitors@ =~= old(self).capacitors@ + Seq::new(names.len(), |i: int| None::<CapacitorState>));
            if old(self).wf() && gate.0 < old(self).signals@.len() && source.0 < old(self).signals@.len()
                && drain.0 < old(self).signals@.len() {
                lemma_grown_wf(*self, *old(self), cells, names);
            }
        }
        TransistorId(id)
    }

    /// Adds a clock signal: a capacitor of the given period that starts
    /// empty and charging, with its wire driven Low.
    pub fn add_clock(&mut self, period: u8) -> (id: SignalId)
        requires
            old(self).driven@.len() == old(self).signals@.len(),
            old(self).capacitors@.len() == old(self).signals@.len(),
        ensures
            id.0 == old(self).signals@.len(),
            final(self).cells() == old(self).cells(),
            final(self).names() == old(self).names().push(Some("CLK"@)),
            final(self).signals@ == old(self).signals@.push(SignalState::Low),
            final(self).driven@ == old(self).driven@.push(Some(SignalState::Low)),
            final(self).capacitors@ == old(self).capacitors@.push(Some(clock_start(period / 2, period))),
            final(self).sequential@ == old(self).sequential@,
            final(self).eval_order@ == old(self).eval_order@,
            final(self).dirty == old(self).dirty,
            final(self).cycle_count == old(self).cycle_count,
            old(self).wf() ==> final(self).wf(),
    {
        let id = self.add_signal(Some("CLK"));
        let threshold = period / 2;
        self.capacitors.set(id.0, Some(CapacitorState { charge: 0, threshold, period, charging: true }));
        self.signals.set(id.0, SignalState::Low);
        self.driven.set(id.0, Some(SignalState::Low));
        proof {
            assert(self.names() =~= old(self).names().push(Some("CLK"@)));
            assert(self.cells() =~= old(self).cells());
            assert(self.signals@ =~= old(self).signals@.push(SignalState::Low));
            assert(self.driven@ =~= old(self).driven@.push(Some(SignalState::Low)));
        }
        id
    }

    /// Sets (`Some`) or releases (`None`) the external drive of a signal.
    pub fn drive(&mut self, id: SignalId, state: Option<SignalState>)
        requires
            id.0 < old(self).driven@.len(),
        ensures
            final(self).driven@ == old(self).driven@.update(id.0 as int, state),
            final(self).signals@ == old(self).signals@,
            final(self).signal_names@ == old(self).signal_names@,
            final(self).sequential@ == old(self).sequential@,
            final(self).kinds@ == old(self).kinds@,
            final(self).gates@ == old(self).gates@,
            final(self).sources@ == old(self).sources@,
            final(self).drains@ == old(self).drains@,
            final(self).eval_order@ == old(self).eval_order@,
            final(self).dirty == old(self).dirty,
            final(self).capacitors@ == old(self).capacitors@,
            final(self).cycle_count == old(self).cycle_count,
            old(self).wf() ==> final(self).wf(),
    {
        self.driven.set(id.0, state);
    }

    /// The supply rail.
    pub fn vdd(&self) -> (id: SignalId)
        ensures
            id == SignalId(0),
    {
        SignalId(0)
    }

    /// The ground rail.
    pub fn gnd(&self) -> (id: SignalId)
        ensures
            id == SignalId(1),
    {
        SignalId(1)
    }

    /// The state of a wire that two conducting terminals share.
    pub fn resolve(a: SignalState, b: SignalState) -> (r: SignalState)
        ensures
            r == resolve_spec(a, b),
    {
        match (a, b) {
            (SignalState::High, SignalState::High) => SignalState::High,
            (SignalState::Low, SignalState::Low) => SignalState::Low,
            (SignalState::High, SignalState::Floating) => SignalState::High,
            (SignalState::Low, SignalState::Floating) => SignalState::Low,
            (SignalState::Floating, SignalState::High) => SignalState::High,
            (SignalState::Floating, SignalState::Low) => SignalState::Low,
            (SignalState::Floating, SignalState::Floating) => SignalState::Floating,
            (SignalState::High, SignalState::Low) => SignalState::Conflict,
            (SignalState::Low, SignalState::High) => SignalState::Conflict,
            (_, SignalState::Conflict) => SignalState::Conflict,
            (SignalState::Conflict, _) => SignalState::Conflict,
        }
    }
}

/// The transistors below `k` whose gate is signal `sig`, in increasing order.
pub open spec fn gated_by(gates: Seq<SignalId>, sig: int, k: nat) -> Seq<usize>
    decreases k,
{
    if k == 0 {
        Seq::empty()
    } else {
        let prev = gated_by(gates, sig, (k - 1) as nat);
        if gates[k - 1].0 == sig {
            prev.push((k - 1) as usize)
        } else {
            prev
        }
    }
}

proof fn lemma_gated_by(gates: Seq<SignalId>, sig: int, k: nat)
    requires
        k <= gates.len(),
        k <= usize::MAX,
    ensures
        forall|x: int|
            0 <= x < gated_by(gates, sig, k).len() ==> (#[trigger] gated_by(gates, sig, k)[x]) < k
                && gates[gated_by(gates, sig, k)[x] as int].0 == sig,
        forall|x: int, y: int|
            0 <= x < y < gated_by(gates, sig, k).len() ==> (#[trigger] gated_by(gates, sig, k)[x])
                < (#[trigger] gated_by(gates, sig, k)[y]),
        forall|j: int|
            0 <= j < k && gates[j].0 == sig ==> exists|x: int|
                0 <= x < gated_by(gates, sig, k).len() && #[trigger] gated_by(gates, sig, k)[x]
                    == j,
    decreases k,
{
    if k > 0 {
        lemma_gated_by(gates, sig, (k - 1) as nat);
        let prev = gated_by(gates, sig, (k - 1) as nat);
        let cur = gated_by(gates, sig, k);
        assert forall|j: int| 0 <= j < k && gates[j].0 == sig implies exists|x: int|
            0 <= x < cur.len() && #[trigger] cur[x] == j by {
            if j < k - 1 {
                let x = choose|x: int| 0 <= x < prev.len() && #[trigger] prev[x] == j;
                assert(cur[x] == j);
            } else {
                assert(cur[cur.len() - 1] == j);
            }
        }
    }
}

/// How many transistors below `k` drain into signal `sig` and are not in `done`.
pub open spec fn pred_count(drains: Seq<SignalId>, sig: int, done: Set<int>, k: nat) -> nat
    decreases k,
{
    if k == 0 {
        0
    } else {
        pred_count(drains, sig, done, (k - 1) as nat) + if drains[k - 1].0 == sig && !done.contains(
            k - 1,
        ) {
            1nat
        } else {
            0nat
        }
    }
}

proof fn lemma_pred_count_bound(drains: Seq<SignalId>, sig: int, done: Set<int>, k: nat)
    ensures
        pred_count(drains, sig, done, k) <= k,
    decreases k,
{
    if k > 0 {
        lemma_pred_count_bound(drains, sig, done, (k - 1) as nat);
    }
}

proof fn lemma_pred_count_insert(drains: Seq<SignalId>, sig: int, done: Set<int>, x: int, k: nat)
    requires
        0 <= x,
        !done.contains(x),
    ensures
        pred_count(drains, sig, done.insert(x), k) + if x < k && drains[x].0 == sig {
            1nat
        } else {
            0nat
        } == pred_count(drains, sig, done, k),
    decreases k,
{
    if k > 0 {
        lemma_pred_count_insert(drains, sig, done, x, (k - 1) as nat);
    }
}

proof fn lemma_pred_count_zero(drains: Seq<SignalId>, sig: int, done: Set<int>, k: nat)
    ensures
        pred_count(drains, sig, done, k) == 0 <==> forall|i: int|
            0 <= i < k && #[trigger] drains[i].0 == sig ==> done.contains(i),
    decreases k,
{
    if k > 0 {
        lemma_pred_count_zero(drains, sig, done, (k - 1) as nat);
    }
}

/// A schedule of distinct transistors below `n` has at most `n` entries.
pub(crate) proof fn lemma_schedule_len(order: Seq<TransistorId>, n: nat)
    requires
        forall|k: int| 0 <= k < order.len() ==> (#[trigger] order[k]).0 < n,
        forall|k1: int, k2: int|
            0 <= k1 < k2 < order.len() ==> (#[trigger] order[k1]).0 != (#[trigger] order[k2]).0,
    ensures
        order.len() <= n,
{
    let ids = order.map_values(|t: TransistorId| t.0 as int);
    assert(ids.no_duplicates()) by {
        assert forall|a: int, b: int| 0 <= a < ids.len() && 0 <= b < ids.len() && a != b implies ids[a]
            != ids[b] by {
            if a < b {
                assert(order[a].0 != order[b].0);
            } else {
                assert(order[b].0 != order[a].0);
            }
        }
    }
    ids.unique_seq_to_set();
    assert(ids.to_set().subset_of(vstd::set_lib::set_int_range(0, n as int))) by {
        assert forall|v: int| ids.to_set().contains(v) implies vstd::set_lib::set_int_range(
            0,
            n as int,
        ).contains(v) by {
            let k = choose|k: int| 0 <= k < ids.len() && ids[k] == v;
            assert(order[k].0 < n);
        }
    }
    vstd::set_lib::lemma_int_range(0, n as int);
    vstd::set_lib::lemma_len_subset(ids.to_set(), vstd::set_lib::set_int_range(0, n as int));
}

/// Transistor `i` drains into the wire that gates transistor `j`.
pub open spec fn feeds_in(gates: Seq<SignalId>, drains: Seq<SignalId>, i: int, j: int) -> bool {
    drains[i].0 == gates[j].0
}

/// The last position below `k` in `order` of a transistor that feeds
/// transistor `j`, or -1 when there is none.
pub open spec fn last_feeder(gates: Seq<SignalId>, drains: Seq<SignalId>, order: Seq<TransistorId>, j: int, k: int) -> int
    decreases k,
{
    if k <= 0 || k > order.len() {
        -1
    } else if feeds_in(gates, drains, order[k - 1].0 as int, j) {
        k - 1
    } else {
        last_feeder(gates, drains, order, j, k - 1)
    }
}

/// Entry `k1` of `order` leaves Kahn's queue before entry `k2`: it was
/// queued earlier, that is after an earlier last feeder (a transistor that
/// nothing in the order feeds is queued first of all), or after the same
/// one and with the lower index.
pub open spec fn queued_before(gates: Seq<SignalId>, drains: Seq<SignalId>, order: Seq<TransistorId>, k1: int, k2: int) -> bool {
    let f1 = last_feeder(gates, drains, order, order[k1].0 as int, order.len() as int);
    let f2 = last_feeder(gates, drains, order, order[k2].0 as int, order.len() as int);
    f1 < f2 || (f1 == f2 && order[k1].0 < order[k2].0)
}

impl SignalGraph {
    /// `order` is in the order Kahn's queue hands the transistors out.
    pub open spec fn is_queue_order(&self, order: Seq<TransistorId>) -> bool {
        forall|k1: int, k2: int|
            0 <= k1 < k2 < order.len() ==> #[trigger] queued_before(self.gates@, self.drains@, order, k1, k2)
    }
}

proof fn lemma_last_feeder_prefix(gates: Seq<SignalId>, drains: Seq<SignalId>, a: Seq<TransistorId>, b: Seq<TransistorId>, j: int, k: int)
    requires
        0 <= k <= a.len() <= b.len(),
        forall|x: int| 0 <= x < a.len() ==> #[trigger] b[x] == a[x],
    ensures
        last_feeder(gates, drains, a, j, k) == last_feeder(gates, drains, b, j, k),
    decreases k,
{
    if k > 0 {
        lemma_last_feeder_prefix(gates, drains, a, b, j, k - 1);
        assert(b[k - 1] == a[k - 1]);
    }
}

/// A feeder at `p` with none after it below `k` is the last feeder.
proof fn lemma_last_feeder_is(gates: Seq<SignalId>, drains: Seq<SignalId>, o: Seq<TransistorId>, j: int, p: int, k: int)
    requires
        0 <= p < k <= o.len(),
        feeds_in(gates, drains, o[p].0 as int, j),
        forall|q: int| p < q < k ==> !feeds_in(gates, drains, #[trigger] o[q].0 as int, j),
    ensures
        last_feeder(gates, drains, o, j, k) == p,
    decreases k,
{
    if k - 1 > p {
        assert(!feeds_in(gates, drains, o[k - 1].0 as int, j));
        lemma_last_feeder_is(gates, drains, o, j, p, k - 1);
    }
}

/// No feeder of `j` below `k`: the last feeder is -1.
pub(crate) proof fn lemma_last_feeder_none(gates: Seq<SignalId>, drains: Seq<SignalId>, o: Seq<TransistorId>, j: int, k: int)
    requires
        0 <= k <= o.len(),
        forall|q: int| 0 <= q < k ==> !feeds_in(gates, drains, #[trigger] o[q].0 as int, j),
    ensures
        last_feeder(gates, drains, o, j, k) == -1,
    decreases k,
{
    if k > 0 {
        assert(!feeds_in(gates, drains, o[k - 1].0 as int, j));
        lemma_last_feeder_none(gates, drains, o, j, k - 1);
    }
}

/// Appending a transistor that does not feed `j` leaves `j`'s last feeder.
proof fn lemma_last_feeder_push(gates: Seq<SignalId>, drains: Seq<SignalId>, o: Seq<TransistorId>, e: TransistorId, j: int)
    requires
        !feeds_in(gates, drains, e.0 as int, j),
    ensures
        last_feeder(gates, drains, o.push(e), j, o.len() + 1 as int) == last_feeder(gates, drains, o, j, o.len() as int),
{
    lemma_last_feeder_prefix(gates, drains, o, o.push(e), j, o.len() as int);
}

/// One step of Kahn's inner loop keeps the queue in order: a transistor
/// queued while `o0[head]` is taken has it as its last feeder, and comes
/// after every earlier entry.
proof fn lemma_queue_step(
    gates: Seq<SignalId>,
    drains: Seq<SignalId>,
    n: nat,
    o0: Seq<TransistorId>,
    before: Seq<TransistorId>,
    cur: Seq<TransistorId>,
    deps: Seq<usize>,
    head: int,
    u: int,
    k: int,
)
    requires
        0 <= head < o0.len() <= before.len() <= n,
        forall|x: int| 0 <= x < o0.len() ==> #[trigger] before[x] == o0[x],
        o0[head].0 == u,
        0 <= k < deps.len(),
        forall|x: int| 0 <= x < deps.len() ==> gates[#[trigger] deps[x] as int].0 == drains[u].0 && deps[x] < n,
        forall|x: int, y: int| 0 <= x < y < deps.len() ==> #[trigger] deps[x] < #[trigger] deps[y],
        forall|p: int| 0 <= p < before.len() ==> (#[trigger] before[p]).0 < n,
        forall|p1: int, p2: int|
            0 <= p1 < p2 < before.len() ==> (#[trigger] before[p1]).0 != (#[trigger] before[p2]).0,
        forall|kk: int, ii: int|
            0 <= kk < before.len() && 0 <= ii < n && drains[ii].0 == gates[before[kk].0 as int].0 ==> exists|k2: int|
                0 <= k2 < kk && (#[trigger] before[k2]).0 == ii,
        forall|k1: int, k2: int| 0 <= k1 < k2 < before.len() ==> #[trigger] queued_before(gates, drains, before, k1, k2),
        forall|kk: int|
            0 <= kk < o0.len() ==> last_feeder(gates, drains, before, #[trigger] before[kk].0 as int, before.len() as int)
                < head,
        forall|kk: int|
            o0.len() <= kk < before.len() ==> last_feeder(
                gates,
                drains,
                before,
                #[trigger] before[kk].0 as int,
                before.len() as int,
            ) == head && exists|x: int| 0 <= x < k && deps[x] == before[kk].0,
        cur == before || {
            &&& cur == before.push(TransistorId(deps[k]))
            &&& !scheduled(before, deps[k] as int)
            &&& forall|x: int|
                0 <= x < n && drains[x].0 == gates[deps[k] as int].0 ==> scheduled_set(o0, head + 1).contains(x)
        },
    ensures
        forall|k1: int, k2: int| 0 <= k1 < k2 < cur.len() ==> #[trigger] queued_before(gates, drains, cur, k1, k2),
        forall|kk: int|
            0 <= kk < o0.len() ==> last_feeder(gates, drains, cur, #[trigger] cur[kk].0 as int, cur.len() as int) < head,
        forall|kk: int|
            o0.len() <= kk < cur.len() ==> last_feeder(gates, drains, cur, #[trigger] cur[kk].0 as int, cur.len() as int)
                == head && exists|x: int| 0 <= x < k + 1 && deps[x] == cur[kk].0,
{
    let j = deps[k];
    if cur != before {
        // the new entry feeds no earlier entry
        assert forall|kk: int| 0 <= kk < before.len() implies !feeds_in(gates, drains, j as int, before[kk].0 as int) by {
            if feeds_in(gates, drains, j as int, before[kk].0 as int) {
                let k2 = choose|k2: int| 0 <= k2 < kk && (#[trigger] before[k2]).0 == j as int;
                assert(scheduled(before, j as int));
            }
        }
        assert forall|kk: int| 0 <= kk < before.len() implies last_feeder(
            gates,
            drains,
            cur,
            #[trigger] cur[kk].0 as int,
            cur.len() as int,
        ) == last_feeder(gates, drains, before, before[kk].0 as int, before.len() as int) by {
            assert(cur[kk] == before[kk]);
            assert(!feeds_in(gates, drains, j as int, before[kk].0 as int));
            lemma_last_feeder_push(gates, drains, before, TransistorId(j), before[kk].0 as int);
        }
        // its last feeder is the transistor taken at `head`
        assert(!feeds_in(gates, drains, j as int, j as int)) by {
            if feeds_in(gates, drains, j as int, j as int) {
                assert(scheduled_set(o0, head + 1).contains(j as int));
                let p = choose|p: int| 0 <= p < head + 1 && #[trigger] o0[p].0 == j as int;
                assert(before[p] == o0[p]);
                assert(scheduled(before, j as int));
            }
        }
        lemma_last_feeder_push(gates, drains, before, TransistorId(j), j as int);
        assert(before[head] == o0[head]);
        assert(feeds_in(gates, drains, before[head].0 as int, j as int));
        assert forall|q: int| head < q < before.len() implies !feeds_in(gates, drains, #[trigger] before[q].0 as int, j as int) by {
            if feeds_in(gates, drains, before[q].0 as int, j as int) {
                assert(scheduled_set(o0, head + 1).contains(before[q].0 as int));
                let p = choose|p: int| 0 <= p < head + 1 && #[trigger] o0[p].0 == before[q].0;
                assert(before[p] == o0[p]);
            }
        }
        lemma_last_feeder_is(gates, drains, before, j as int, head, before.len() as int);
        let last = before.len() as int;
        assert(cur[last] == TransistorId(j));
        assert(last_feeder(gates, drains, cur, j as int, cur.len() as int) == head);
        assert forall|k1: int, k2: int| 0 <= k1 < k2 < cur.len() implies #[trigger] queued_before(
            gates,
            drains,
            cur,
            k1,
            k2,
        ) by {
            assert(cur[k1] == before[k1]);
            if k2 < last {
                assert(cur[k2] == before[k2]);
                assert(queued_before(gates, drains, before, k1, k2));
            } else if k1 >= o0.len() {
                let x = choose|x: int| 0 <= x < k && deps[x] == before[k1].0;
                assert(deps[x] < deps[k]);
            }
        }
        assert forall|kk: int| o0.len() <= kk < cur.len() implies last_feeder(
            gates,
            drains,
            cur,
            #[trigger] cur[kk].0 as int,
            cur.len() as int,
        ) == head && exists|x: int| 0 <= x < k + 1 && deps[x] == cur[kk].0 by {
            if kk < last {
                assert(cur[kk] == before[kk]);
                let x = choose|x: int| 0 <= x < k && deps[x] == before[kk].0;
            } else {
                assert(deps[k] == cur[kk].0);
            }
        }
        assert forall|kk: int| 0 <= kk < o0.len() implies last_feeder(
            gates,
            drains,
            cur,
            #[trigger] cur[kk].0 as int,
            cur.len() as int,
        ) < head by {
            assert(cur[kk] == before[kk]);
        }
    } else {
        assert forall|kk: int| o0.len() <= kk < cur.len() implies last_feeder(
            gates,
            drains,
            cur,
            #[trigger] cur[kk].0 as int,
            cur.len() as int,
        ) == head && exists|x: int| 0 <= x < k + 1 && deps[x] == cur[kk].0 by {
            let x = choose|x: int| 0 <= x < k && deps[x] == before[kk].0;
        }
    }
}

pub open spec fn scheduled_set(order: Seq<TransistorId>, head: int) -> Set<int> {
    Set::new(|i: int| exists|k: int| 0 <= k < head && #[trigger] order[k].0 == i)
}

impl SignalGraph {
    /// Orders the transistors so that each comes after every transistor
    /// that feeds its gate (Kahn's algorithm); transistors on or behind a
    /// cycle are left out.
    fn kahn(&mut self)
        requires
            old(self).wires_ok(),
        ensures
            final(self).is_schedule(final(self).eval_order@),
            final(self).is_queue_order(final(self).eval_order@),
            !final(self).dirty,
            final(self).signals@ == old(self).signals@,
            final(self).driven@ == old(self).driven@,
            final(self).signal_names@ == old(self).signal_names@,
            final(self).sequential@ == old(self).sequential@,
            final(self).kinds@ == old(self).kinds@,
            final(self).gates@ == old(self).gates@,
            final(self).sources@ == old(self).sources@,
            final(self).drains@ == old(self).drains@,
            final(self).capacitors@ == old(self).capacitors@,
            final(self).cycle_count == old(self).cycle_count,
            final(self).wires_ok(),
    {
        let n = self.kinds.len();
        let ns = self.signals.len();
        let ghost gates = self.gates@;
        let ghost drains = self.drains@;

        // step 1: for each signal, the transistors it gates
        let mut signal_to_transistors: Vec<Vec<usize>> = Vec::new();
        for s in 0..ns
            invariant
                signal_to_transistors@.len() == s,
                forall|x: int| 0 <= x < s ==> (#[trigger] signal_to_transistors@[x])@.len() == 0,
        {
            signal_to_transistors.push(Vec::new());
        }
        for t in 0..n
            invariant
                n == self.kinds@.len(),
                ns == self.signals@.len(),
                self.wires_ok(),
                gates == self.gates@,
                signal_to_transistors@.len() == ns,
                forall|x: int|
                    0 <= x < ns ==> (#[trigger] signal_to_transistors@[x])@ == gated_by(
                        gates,
                        x,
                        t as nat,
                    ),
        {
            let g = self.gates[t].0;
            signal_to_transistors[g].push(t);
            assert forall|x: int| 0 <= x < ns implies (#[trigger] signal_to_transistors@[x])@
                == gated_by(gates, x, (t + 1) as nat) by {}
        }
        assert forall|x: int| 0 <= x < ns implies #[trigger] gated_by(gates, x, n as nat).len() <= n by {
            lemma_gated_by(gates, x, n as nat);
            let q = gated_by(gates, x, n as nat);
            let ids = q.map_values(|v: usize| TransistorId(v));
            assert forall|k1: int, k2: int| 0 <= k1 < k2 < ids.len() implies (#[trigger] ids[k1]).0
                != (#[trigger] ids[k2]).0 by {
                assert(q[k1] < q[k2]);
            }
            lemma_schedule_len(ids, n as nat);
        }

        // step 2: in-degree of every transistor
        let mut in_degree: Vec<usize> = Vec::new();
        for j in 0..n
            invariant
                in_degree@.len() == j,
                forall|x: int| 0 <= x < j ==> #[trigger] in_degree@[x] == 0,
        {
            in_degree.push(0);
        }
        for i in 0..n
            invariant
                n == self.kinds@.len(),
                ns == self.signals@.len(),
                self.wires_ok(),
                gates == self.gates@,
                drains == self.drains@,
                signal_to_transistors@.len() == ns,
                forall|x: int|
                    0 <= x < ns ==> (#[trigger] signal_to_transistors@[x])@ == gated_by(
                        gates,
                        x,
                        n as nat,
                    ),
                in_degree@.len() == n,
                forall|j: int|
                    0 <= j < n ==> #[trigger] in_degree@[j] == pred_count(
                        drains,
                        gates[j].0 as int,
                        Set::empty(),
                        i as nat,
                    ),
        {
            let d = self.drains[i].0;
            let deps = &signal_to_transistors[d];
            proof {
                lemma_gated_by(gates, d as int, n as nat);
            }
            for k in 0..deps.len()
                invariant
                    n == self.kinds@.len(),
                    self.wires_ok(),
                    gates == self.gates@,
                    drains == self.drains@,
                    d == drains[i as int].0,
                    i < n,
                    deps@ == gated_by(gates, d as int, n as nat),
                    in_degree@.len() == n,
                    forall|j: int|
                        0 <= j < n ==> #[trigger] in_degree@[j] == pred_count(
                            drains,
                            gates[j].0 as int,
                            Set::empty(),
                            i as nat,
                        ) + if exists|x: int| 0 <= x < k && deps@[x] == j {
                            1nat
                        } else {
                            0nat
                        },
            {
                proof {
                    lemma_gated_by(gates, d as int, n as nat);
                }
                let j = deps[k];
                proof {
                    lemma_pred_count_bound(drains, gates[j as int].0 as int, Set::empty(), i as nat);
                    assert(!exists|x: int| 0 <= x < k && deps@[x] == j) by {
                        if exists|x: int| 0 <= x < k && deps@[x] == j {
                            let x = choose|x: int| 0 <= x < k && deps@[x] == j;
                            assert(deps@[x] < deps@[k as int]);
                        }
                    }
                }
                in_degree[j] = in_degree[j] + 1;
                assert forall|jj: int| 0 <= jj < n implies #[trigger] in_degree@[jj] == pred_count(
                    drains,
                    gates[jj].0 as int,
                    Set::empty(),
                    i as nat,
                ) + if exists|x: int| 0 <= x < k + 1 && deps@[x] == jj {
                    1nat
                } else {
                    0nat
                } by {
                    if jj == j {
                        assert(deps@[k as int] == jj);
                    } else if exists|x: int| 0 <= x < k + 1 && deps@[x] == jj {
                        let x = choose|x: int| 0 <= x < k + 1 && deps@[x] == jj;
                        assert(x < k);
                    }
                }
            }
            assert forall|j: int| 0 <= j < n implies #[trigger] in_degree@[j] == pred_count(
                drains,
                gates[j].0 as int,
                Set::empty(),
                (i + 1) as nat,
            ) by {
                if drains[i as int].0 == gates[j].0 {
                    assert(exists|x: int| 0 <= x < deps@.len() && deps@[x] == j);
                } else if exists|x: int| 0 <= x < deps@.len() && deps@[x] == j {
                    let x = choose|x: int| 0 <= x < deps@.len() && deps@[x] == j;
                    assert(gates[deps@[x] as int].0 == d);
                }
            }
        }

        // step 3: Kahn's queue; the evaluation order doubles as the queue
        let mut order: Vec<TransistorId> = Vec::new();
        for j in 0..n
            invariant
                n == self.kinds@.len(),
                ns == self.signals@.len(),
                self.wires_ok(),
                gates == self.gates@,
                drains == self.drains@,
                forall|t: int|
                    0 <= t < n ==> (#[trigger] drains[t]).0 < ns,
                signal_to_transistors@.len() == ns,
                forall|x: int|
                    0 <= x < ns ==> (#[trigger] signal_to_transistors@[x])@ == gated_by(
                        gates,
                        x,
                        n as nat,
                    ),
                in_degree@.len() == n,
                forall|jj: int|
                    0 <= jj < n ==> #[trigger] in_degree@[jj] == pred_count(
                        drains,
                        gates[jj].0 as int,
                        Set::empty(),
                        n as nat,
                    ),
                forall|k: int| 0 <= k < order@.len() ==> (#[trigger] order@[k]).0 < j,
                forall|k1: int, k2: int|
                    0 <= k1 < k2 < order@.len() ==> (#[trigger] order@[k1]).0
                        < (#[trigger] order@[k2]).0,
                forall|x: int|
                    0 <= x < j ==> (scheduled(order@, x) <==> #[trigger] in_degree@[x] == 0),
        {
            let ghost before = order@;
            if in_degree[j] == 0 {
                order.push(TransistorId(j));
            }
            assert forall|x: int| 0 <= x < j + 1 implies (scheduled(order@, x)
                <==> #[trigger] in_degree@[x] == 0) by {
                lemma_scheduled_push(before, TransistorId(j), x);
                if !(x < j) && scheduled(before, x) {
                    let k = choose|k: int| 0 <= k < before.len() && #[trigger] before[k].0 == x;
                }
            }
        }
        proof {
            assert(scheduled_set(order@, 0) =~= Set::<int>::empty());
            assert forall|k: int, i: int|
                0 <= k < order@.len() && 0 <= i < n && drains[i].0 == gates[
                    order@[k].0 as int].0 implies exists|k2: int|
                0 <= k2 < k && (#[trigger] order@[k2]).0 == i by {
                let j = order@[k].0 as int;
                assert(scheduled(order@, j));
                assert(in_degree@[j] == 0);
                assert(!Set::<int>::empty().contains(i));
                lemma_pred_count_zero(drains, gates[j].0 as int, Set::empty(), n as nat);
            }
            lemma_schedule_len(order@, n as nat);
            // nothing feeds the transistors queued first
            assert forall|k: int| 0 <= k < order@.len() implies last_feeder(
                gates,
                drains,
                order@,
                #[trigger] order@[k].0 as int,
                order@.len() as int,
            ) == -1 by {
                let j = order@[k].0 as int;
                assert(scheduled(order@, j));
                assert(in_degree@[j] == 0);
                lemma_pred_count_zero(drains, gates[j].0 as int, Set::empty(), n as nat);
                assert forall|q: int| 0 <= q < order@.len() implies !feeds_in(
                    gates,
                    drains,
                    #[trigger] order@[q].0 as int,
                    j,
                ) by {
                    assert(!Set::<int>::empty().contains(order@[q].0 as int));
                }
                lemma_last_feeder_none(gates, drains, order@, j, order@.len() as int);
            }
            assert forall|k1: int, k2: int| 0 <= k1 < k2 < order@.len() implies #[trigger] queued_before(
                gates,
                drains,
                order@,
                k1,
                k2,
            ) by {
                assert(last_feeder(gates, drains, order@, order@[k1].0 as int, order@.len() as int) == -1);
                assert(last_feeder(gates, drains, order@, order@[k2].0 as int, order@.len() as int) == -1);
            }
        }
        let mut head: usize = 0;
        while head < order.len()
            invariant
                n == self.kinds@.len(),
                ns == self.signals@.len(),
                self.wires_ok(),
                gates == self.gates@,
                drains == self.drains@,
                forall|t: int|
                    0 <= t < n ==> (#[trigger] drains[t]).0 < ns,
                signal_to_transistors@.len() == ns,
                forall|x: int|
                    0 <= x < ns ==> (#[trigger] signal_to_transistors@[x])@ == gated_by(
                        gates,
                        x,
                        n as nat,
                    ),
                in_degree@.len() == n,
                head <= order@.len() <= n,
                forall|k: int| 0 <= k < order@.len() ==> (#[trigger] order@[k]).0 < n,
                forall|k1: int, k2: int|
                    0 <= k1 < k2 < order@.len() ==> (#[trigger] order@[k1]).0
                        != (#[trigger] order@[k2]).0,
                forall|j: int|
                    0 <= j < n ==> #[trigger] in_degree@[j] == pred_count(
                        drains,
                        gates[j].0 as int,
                        scheduled_set(order@, head as int),
                        n as nat,
                    ),
                forall|j: int|
                    0 <= j < n ==> (scheduled(order@, j) <==> #[trigger] in_degree@[j] == 0),
                forall|k: int, i: int|
                    0 <= k < order@.len() && 0 <= i < n && drains[i].0 == gates[
                        order@[k].0 as int].0 ==> exists|k2: int|
                        0 <= k2 < k && (#[trigger] order@[k2]).0 == i,
                forall|k1: int, k2: int|
                    0 <= k1 < k2 < order@.len() ==> #[trigger] queued_before(gates, drains, order@, k1, k2),
                forall|k: int|
                    0 <= k < order@.len() ==> last_feeder(
                        gates,
                        drains,
                        order@,
                        #[trigger] order@[k].0 as int,
                        order@.len() as int,
                    ) < head,
            decreases n - head,
        {
            let i = order[head].0;
            let d = self.drains[i].0;
            let deps = &signal_to_transistors[d];
            let ghost o0 = order@;
            let ghost done = scheduled_set(o0, head as int);
            let ghost done2 = done.insert(i as int);
            proof {
                lemma_gated_by(gates, d as int, n as nat);
                assert(!done.contains(i as int)) by {
                    if done.contains(i as int) {
                        let k = choose|k: int| 0 <= k < head && #[trigger] o0[k].0 == i;
                        assert(o0[k].0 != o0[head as int].0);
                    }
                }
                assert(scheduled_set(o0, head + 1) =~= done2);
            }
            for k in 0..deps.len()
                invariant
                    n == self.kinds@.len(),
                    self.wires_ok(),
                    gates == self.gates@,
                    drains == self.drains@,
                    i < n,
                    d == drains[i as int].0,
                    deps@ == gated_by(gates, d as int, n as nat),
                    in_degree@.len() == n,
                    head < o0.len(),
                    o0.len() <= order@.len() <= n,
                    forall|x: int| 0 <= x < o0.len() ==> #[trigger] order@[x] == o0[x],
                    o0[head as int].0 == i,
                    done == scheduled_set(o0, head as int),
                    done2 == done.insert(i as int),
                    !done.contains(i as int),
                    forall|k: int| 0 <= k < order@.len() ==> (#[trigger] order@[k]).0 < n,
                    forall|k1: int, k2: int|
                        0 <= k1 < k2 < order@.len() ==> (#[trigger] order@[k1]).0
                            != (#[trigger] order@[k2]).0,
                    forall|j: int|
                        0 <= j < n ==> #[trigger] in_degree@[j] + if exists|x: int|
                            0 <= x < k && deps@[x] == j {
                            1nat
                        } else {
                            0nat
                        } == pred_count(drains, gates[j].0 as int, done, n as nat),
                    forall|j: int|
                        0 <= j < n ==> (scheduled(order@, j) <==> #[trigger] in_degree@[j] == 0),
                    forall|kk: int, ii: int|
                        0 <= kk < order@.len() && 0 <= ii < n && drains[ii].0 == gates[
                            order@[kk].0 as int].0 ==> exists|k2: int|
                            0 <= k2 < kk && (#[trigger] order@[k2]).0 == ii,
                    forall|k1: int, k2: int|
                        0 <= k1 < k2 < order@.len() ==> #[trigger] queued_before(gates, drains, order@, k1, k2),
                    forall|kk: int|
                        0 <= kk < o0.len() ==> last_feeder(
                            gates,
                            drains,
                            order@,
                            #[trigger] order@[kk].0 as int,
                            order@.len() as int,
                        ) < head,
                    forall|kk: int|
                        o0.len() <= kk < order@.len() ==> last_feeder(
                            gates,
                            drains,
                            order@,
                            #[trigger] order@[kk].0 as int,
                            order@.len() as int,
                        ) == head && exists|x: int| 0 <= x < k && deps@[x] == order@[kk].0,
            {
                proof {
                    lemma_gated_by(gates, d as int, n as nat);
                }
                let j = deps[k];
                let ghost before = order@;
                proof {
                    assert(!exists|x: int| 0 <= x < k && deps@[x] == j) by {
                        if exists|x: int| 0 <= x < k && deps@[x] == j {
                            let x = choose|x: int| 0 <= x < k && deps@[x] == j;
                            assert(deps@[x] < deps@[k as int]);
                        }
                    }
                    lemma_pred_count_insert(drains, gates[j as int].0 as int, done, i as int, n as nat);
                }
                in_degree[j] = in_degree[j] - 1;
                if in_degree[j] == 0 {
                    proof {
                        lemma_pred_count_zero(drains, gates[j as int].0 as int, done2, n as nat);
                        assert(!scheduled(before, j as int));
                        assert forall|k1: int, k2: int|
                            0 <= k1 < k2 < before.push(TransistorId(j)).len() implies (#[trigger] before.push(
                            TransistorId(j),
                        )[k1]).0 != (#[trigger] before.push(TransistorId(j))[k2]).0 by {
                            if k2 == before.len() {
                                assert(before[k1].0 != j);
                            }
                        }
                        lemma_schedule_len(before.push(TransistorId(j)), n as nat);
                    }
                    order.push(TransistorId(j));
                }
                proof {
                    let cur = order@;
                    assert forall|jj: int| 0 <= jj < n implies (scheduled(cur, jj)
                        <==> #[trigger] in_degree@[jj] == 0) by {
                        if cur.len() > before.len() {
                            lemma_scheduled_push(before, TransistorId(j), jj);
                        }
                    }
                    assert forall|jj: int| 0 <= jj < n implies #[trigger] in_degree@[jj] + if exists|x: int|
                        0 <= x < k + 1 && deps@[x] == jj {
                        1nat
                    } else {
                        0nat
                    } == pred_count(drains, gates[jj].0 as int, done, n as nat) by {
                        if jj == j {
                            assert(deps@[k as int] == jj);
                        } else if exists|x: int| 0 <= x < k + 1 && deps@[x] == jj {
                            let x = choose|x: int| 0 <= x < k + 1 && deps@[x] == jj;
                            assert(x < k);
                        }
                    }
                    assert forall|kk: int, ii: int|
                        0 <= kk < cur.len() && 0 <= ii < n && drains[ii].0 == gates[cur[kk].0 as int].0
                            implies exists|k2: int| 0 <= k2 < kk && (#[trigger] cur[k2]).0 == ii by {
                        if kk < before.len() {
                            assert(cur[kk] == before[kk]);
                            let k2 = choose|k2: int| 0 <= k2 < kk && (#[trigger] before[k2]).0 == ii;
                            assert(cur[k2] == before[k2]);
                        } else {
                            assert(cur[kk].0 == j);
                            assert(done2.contains(ii));
                            if ii == i {
                                assert(cur[head as int] == o0[head as int]);
                            } else {
                                let k2 = choose|k2: int| 0 <= k2 < head && #[trigger] o0[k2].0 == ii;
                                assert(cur[k2] == o0[k2]);
                            }
                        }
                    }
                    lemma_queue_step(gates, drains, n as nat, o0, before, cur, deps@, head as int, i as int, k as int);
                }
            }
            proof {
                assert forall|j: int| 0 <= j < n implies #[trigger] in_degree@[j] == pred_count(
                    drains,
                    gates[j].0 as int,
                    scheduled_set(order@, head + 1),
                    n as nat,
                ) by {
                    lemma_pred_count_insert(drains, gates[j].0 as int, done, i as int, n as nat);
                    lemma_scheduled_set_prefix(o0, order@, head + 1);
                    if drains[i as int].0 == gates[j].0 {
                        assert(exists|x: int| 0 <= x < deps@.len() && deps@[x] == j);
                    } else if exists|x: int| 0 <= x < deps@.len() && deps@[x] == j {
                        let x = choose|x: int| 0 <= x < deps@.len() && deps@[x] == j;
                        assert(gates[deps@[x] as int].0 == d);
                    }
                }
            }
            head = head + 1;
        }
        self.eval_order = order;
        self.dirty = false;
        proof {
            let order = self.eval_order@;
            assert forall|j: int| 0 <= j < n && !scheduled(order, j) implies exists|i: int|
                0 <= i < n && #[trigger] self.feeds(i, j) && !scheduled(order, i) by {
                assert(in_degree@[j] != 0);
                lemma_pred_count_zero(drains, gates[j].0 as int, scheduled_set(order, head as int), n as nat);
                let i = choose|i: int|
                    0 <= i < n && #[trigger] drains[i].0 == gates[j].0 && !scheduled_set(order, head as int).contains(i);
                assert(self.feeds(i, j));
            }
            assert forall|k: int, i: int|
                0 <= k < order.len() && 0 <= i < n && #[trigger] self.feeds(i, order[k].0 as int)
                    implies exists|k2: int| 0 <= k2 < k && (#[trigger] order[k2]).0 == i by {}
        }
    }
}

fn copy_states(v: &Vec<SignalState>) -> (r: Vec<SignalState>)
    ensures
        r@ == v@,
{
    let mut r: Vec<SignalState> = Vec::new();
    for i in 0..v.len()
        invariant
            r@ == v@.take(i as int),
    {
        r.push(v[i]);
        assert(r@ =~= v@.take(i + 1));
    }
    assert(r@ =~= v@);
    r
}

fn same_states(a: &Vec<SignalState>, b: &Vec<SignalState>) -> (r: bool)
    ensures
        r == (a@ == b@),
{
    if a.len() != b.len() {
        return false;
    }
    for i in 0..a.len()
        invariant
            a@.len() == b@.len(),
            forall|x: int| 0 <= x < i ==> a@[x] == b@[x],
    {
        if a[i] != b[i] {
            return false;
        }
    }
    assert(a@ =~= b@);
    true
}

impl SignalGraph {
    /// One transistor evaluated against the current wire states.
    fn step_transistor(&mut self, t: usize)
        requires
            old(self).wires_ok(),
            t < old(self).kinds@.len(),
        ensures
            final(self).signals@ == step(old(self).signals@, old(self).driven@, old(self).cells()[t as int]),
            final(self).driven@ == old(self).driven@,
            final(self).signal_names@ == old(self).signal_names@,
            final(self).sequential@ == old(self).sequential@,
            final(self).kinds@ == old(self).kinds@,
            final(self).gates@ == old(self).gates@,
            final(self).sources@ == old(self).sources@,
            final(self).drains@ == old(self).drains@,
            final(self).eval_order@ == old(self).eval_order@,
            final(self).dirty == old(self).dirty,
            final(self).capacitors@ == old(self).capacitors@,
            final(self).cycle_count == old(self).cycle_count,
    {
        let kind = self.kinds[t];
        let gate = self.gates[t].0;
        let source = self.sources[t].0;
        let drain = self.drains[t].0;
        assert(old(self).cells()[t as int] == (kind, SignalId(gate), SignalId(source), SignalId(drain)));
        let conducting = match kind {
            TransistorKind::NMOS => self.signals[gate] == SignalState::High,
            TransistorKind::PMOS => self.signals[gate] == SignalState::Low,
        };
        if conducting {
            let src_driven = self.driven[source].is_some();
            let drn_driven = self.driven[drain].is_some();
            if src_driven && !drn_driven {
                let v = self.signals[source];
                self.signals.set(drain, v);
            } else if drn_driven && !src_driven {
                let v = self.signals[drain];
                self.signals.set(source, v);
            } else {
                let resolved = Self::resolve(self.signals[source], self.signals[drain]);
                if !src_driven {
                    self.signals.set(source, resolved);
                }
                if !drn_driven {
                    self.signals.set(drain, resolved);
                }
            }
        }
    }

    /// For each transistor, whether the evaluation order holds it.
    fn schedule_marks(&self) -> (marks: Vec<bool>)
        requires
            self.wires_ok(),
            self.order_ok(),
        ensures
            marks@.len() == self.kinds@.len(),
            forall|x: int|
                0 <= x < self.kinds@.len() ==> (#[trigger] marks@[x] <==> scheduled(self.eval_order@, x)),
    {
        let n = self.kinds.len();
        let ghost order = self.eval_order@;
        let mut in_eval: Vec<bool> = Vec::new();
        for t in 0..n
            invariant
                in_eval@.len() == t,
                forall|x: int| 0 <= x < t ==> !(#[trigger] in_eval@[x]),
        {
            in_eval.push(false);
        }
        for k in 0..self.eval_order.len()
            invariant
                self.wires_ok(),
                self.order_ok(),
                n == self.kinds@.len(),
                order == self.eval_order@,
                in_eval@.len() == n,
                forall|x: int|
                    0 <= x < n ==> (#[trigger] in_eval@[x] <==> exists|k2: int|
                        0 <= k2 < k && #[trigger] order[k2].0 == x),
        {
            let t = self.eval_order[k].0;
            in_eval.set(t, true);
            assert forall|x: int| 0 <= x < n implies (#[trigger] in_eval@[x] <==> exists|k2: int|
                0 <= k2 < k + 1 && #[trigger] order[k2].0 == x) by {
                if x == t {
                    assert(order[k as int].0 == x);
                }
            }
        }
        assert forall|x: int| 0 <= x < n implies (#[trigger] in_eval@[x] <==> scheduled(order, x)) by {
            if scheduled(order, x) {
                let k = choose|k: int| 0 <= k < order.len() && #[trigger] order[k].0 == x;
            }
        }
        in_eval
    }

    /// For each signal, whether it is sequential.
    fn sequential_marks(&self) -> (marks: Vec<bool>)
        ensures
            marks@.len() == self.signals@.len(),
            forall|x: int|
                0 <= x < self.signals@.len() ==> (#[trigger] marks@[x] <==> is_sequential(
                    self.sequential@,
                    x,
                )),
    {
        let ns = self.signals.len();
        let mut is_seq: Vec<bool> = Vec::new();
        for i in 0..ns
            invariant
                is_seq@.len() == i,
                forall|x: int| 0 <= x < i ==> !(#[trigger] is_seq@[x]),
        {
            is_seq.push(false);
        }
        for k in 0..self.sequential.len()
            invariant
                ns == self.signals@.len(),
                is_seq@.len() == ns,
                forall|x: int|
                    0 <= x < ns ==> (#[trigger] is_seq@[x] <==> exists|k2: int|
                        0 <= k2 < k && #[trigger] self.sequential@[k2].0 == x),
        {
            let sid = self.sequential[k].0;
            if sid < ns {
                is_seq.set(sid, true);
            }
            assert forall|x: int| 0 <= x < ns implies (#[trigger] is_seq@[x] <==> exists|k2: int|
                0 <= k2 < k + 1 && #[trigger] self.sequential@[k2].0 == x) by {
                if x == sid {
                    assert(self.sequential@[k as int].0 == x);
                }
            }
        }
        is_seq
    }

    /// Drives apply, every other wire floats.
    fn reset_signals(&mut self)
        requires
            old(self).wires_ok(),
        ensures
            final(self).signals@ == reset_states(old(self).signals@, old(self).driven@),
            final(self).same_but_signals(*old(self)),
            final(self).wires_ok(),
            final(self).signals@.len() == old(self).signals@.len(),
    {
        let ns = self.signals.len();
        let ghost prev = self.signals@;
        let ghost start = reset_states(prev, self.driven@);
        for i in 0..ns
            invariant
                self.wires_ok(),
                ns == self.signals@.len(),
                prev.len() == ns,
                self.same_but_signals(*old(self)),
                start == reset_states(prev, self.driven@),
                forall|x: int| 0 <= x < i ==> #[trigger] self.signals@[x] == start[x],
                forall|x: int| i <= x < ns ==> #[trigger] self.signals@[x] == prev[x],
        {
            match self.driven[i] {
                Some(state) => {
                    self.signals.set(i, state);
                },
                None => {
                    self.signals.set(i, SignalState::Floating);
                },
            }
        }
        assert(self.signals@ =~= start);
    }

    /// Each sequential wire left floating takes back its state from `prev`.
    fn restore_stored(&mut self, prev: &Vec<SignalState>)
        requires
            old(self).wires_ok(),
            prev@.len() == old(self).signals@.len(),
        ensures
            final(self).signals@ == keep_stored(old(self).signals@, prev@, old(self).sequential@),
            final(self).same_but_signals(*old(self)),
            final(self).wires_ok(),
            final(self).signals@.len() == old(self).signals@.len(),
    {
        let is_seq = self.sequential_marks();
        let ns = self.signals.len();
        let ghost settled = self.signals@;
        let ghost target = keep_stored(settled, prev@, self.sequential@);
        for i in 0..ns
            invariant
                self.wires_ok(),
                ns == self.signals@.len(),
                settled.len() == ns,
                prev@.len() == ns,
                is_seq@.len() == ns,
                self.same_but_signals(*old(self)),
                forall|x: int|
                    0 <= x < ns ==> (#[trigger] is_seq@[x] <==> is_sequential(self.sequential@, x)),
                target == keep_stored(settled, prev@, self.sequential@),
                forall|x: int| 0 <= x < i ==> #[trigger] self.signals@[x] == target[x],
                forall|x: int| i <= x < ns ==> #[trigger] self.signals@[x] == settled[x],
        {
            if is_seq[i] && self.signals[i] == SignalState::Floating {
                self.signals.set(i, prev[i]);
            }
        }
        assert(self.signals@ =~= target);
    }

    /// The scheduled transistors first, then the cyclic remainder, and how
    /// many the remainder holds.
    fn evaluation_sequence(&self) -> (res: (Vec<usize>, usize))
        requires
            self.wires_ok(),
            self.order_ok(),
        ensures
            res.0@ == full_order(self.eval_order@, self.kinds@.len()),
            res.1 == unscheduled(self.eval_order@, self.kinds@.len()).len(),
            forall|k: int| 0 <= k < res.0@.len() ==> #[trigger] res.0@[k] < self.kinds@.len(),
    {
        let n = self.kinds.len();
        let in_eval = self.schedule_marks();
        let ghost order = self.eval_order@;
        let mut full_order_v: Vec<usize> = Vec::new();
        for k in 0..self.eval_order.len()
            invariant
                full_order_v@ == order.take(k as int).map_values(|t: TransistorId| t.0),
                order == self.eval_order@,
        {
            full_order_v.push(self.eval_order[k].0);
            assert(full_order_v@ =~= order.take(k + 1).map_values(|t: TransistorId| t.0));
        }
        assert(order.take(order.len() as int) =~= order);
        let mut remainder_len: usize = 0;
        for t in 0..n
            invariant
                n == self.kinds@.len(),
                in_eval@.len() == n,
                forall|x: int| 0 <= x < n ==> (#[trigger] in_eval@[x] <==> scheduled(order, x)),
                full_order_v@ == order.map_values(|t: TransistorId| t.0) + unscheduled(order, t as nat),
                remainder_len == unscheduled(order, t as nat).len(),
                remainder_len <= t,
        {
            if !in_eval[t] {
                full_order_v.push(t);
                remainder_len = remainder_len + 1;
            }
            assert(full_order_v@ =~= order.map_values(|t: TransistorId| t.0) + unscheduled(order, (t + 1) as nat));
        }
        let ghost full = full_order(order, n as nat);
        assert forall|k: int| 0 <= k < full.len() implies #[trigger] full[k] < n by {
            lemma_unscheduled_bound(order, n as nat);
            if k >= order.len() {
                assert(full[k] == unscheduled(order, n as nat)[k - order.len()]);
            } else {
                assert(full[k] == order[k].0);
            }
        }
        (full_order_v, remainder_len)
    }

    /// Every transistor of `order` evaluated once, in order.
    fn sweep_once(&mut self, order: &Vec<usize>)
        requires
            old(self).wires_ok(),
            forall|k: int| 0 <= k < order@.len() ==> #[trigger] order@[k] < old(self).kinds@.len(),
        ensures
            final(self).signals@ == sweep(old(self).signals@, old(self).driven@, old(self).cells(), order@),
            final(self).same_but_signals(*old(self)),
            final(self).wires_ok(),
            final(self).signals@.len() == old(self).signals@.len(),
    {
        let ghost cells = old(self).cells();
        let ghost driven = old(self).driven@;
        let ghost start = old(self).signals@;
        for k in 0..order.len()
            invariant
                self.wires_ok(),
                self.same_but_signals(*old(self)),
                self.signals@.len() == old(self).signals@.len(),
                cells == old(self).cells(),
                driven == old(self).driven@,
                forall|k: int| 0 <= k < order@.len() ==> #[trigger] order@[k] < self.kinds@.len(),
                self.signals@ == sweep(start, driven, cells, order@.take(k as int)),
        {
            let t = order[k];
            let ghost before = self.signals@;
            self.step_transistor(t);
            proof {
                assert(cells[t as int] == old(self).cell(t as int));
                assert(order@.take(k + 1).drop_last() =~= order@.take(k as int));
                assert(order@.take(k + 1).last() == t);
            }
        }
        assert(order@.take(order@.len() as int) =~= order@);
    }

    /// Every driven wire forced to its drive.
    fn apply_drives_now(&mut self)
        requires
            old(self).wires_ok(),
        ensures
            final(self).signals@ == apply_drives(old(self).signals@, old(self).driven@),
            final(self).same_but_signals(*old(self)),
            final(self).wires_ok(),
            final(self).signals@.len() == old(self).signals@.len(),
    {
        let ns = self.signals.len();
        let ghost settled = self.signals@;
        for i in 0..ns
            invariant
                self.wires_ok(),
                ns == self.signals@.len(),
                settled.len() == ns,
                self.same_but_signals(*old(self)),
                forall|x: int| 0 <= x < i ==> #[trigger] self.signals@[x] == apply_drives(settled, self.driven@)[x],
                forall|x: int| i <= x < ns ==> #[trigger] self.signals@[x] == settled[x],
        {
            if let Some(state) = self.driven[i] {
                self.signals.set(i, state);
            }
        }
        assert(self.signals@ =~= apply_drives(settled, self.driven@));
    }

    /// Sweeps `order` until the wires stop changing or `max_iterations`
    /// sweeps ran.
    fn settle_sweeps(&mut self, order: &Vec<usize>, max_iterations: usize)
        requires
            old(self).wires_ok(),
            max_iterations >= 1,
            forall|k: int| 0 <= k < order@.len() ==> #[trigger] order@[k] < old(self).kinds@.len(),
        ensures
            final(self).signals@ == settle(
                old(self).signals@,
                old(self).driven@,
                old(self).cells(),
                order@,
                max_iterations as nat,
            ),
            final(self).same_but_signals(*old(self)),
            final(self).wires_ok(),
            final(self).signals@.len() == old(self).signals@.len(),
    {
        let ghost g1 = *self;
        let ghost cells = g1.cells();
        let ghost driven = g1.driven@;
        let ghost target = settle(g1.signals@, driven, cells, order@, max_iterations as nat);
        let mut iterations: usize = 0;
        loop
            invariant_except_break
                iterations < max_iterations,
                settle(self.signals@, driven, cells, order@, (max_iterations - iterations) as nat)
                    == target,
            invariant
                self.wires_ok(),
                self.same_but_signals(g1),
                self.signals@.len() == g1.signals@.len(),
                g1 == *old(self),
                cells == g1.cells(),
                driven == g1.driven@,
                forall|k: int| 0 <= k < order@.len() ==> #[trigger] order@[k] < self.kinds@.len(),
            ensures
                self.signals@ == target,
            decreases max_iterations - iterations,
        {
            let prev_states = copy_states(&self.signals);
            let ghost before = *self;
            self.sweep_once(order);
            proof {
                assert(before.cells() =~= cells);
            }
            iterations = iterations + 1;
            if same_states(&self.signals, &prev_states) || iterations >= max_iterations {
                break;
            }
        }
    }

    /// Settles every wire along the current evaluation order: starts every
    /// undriven wire floating, sweeps the transistors, restores the held
    /// sequential wires (sweeping again when one came back) and forces the
    /// drives.
    #[verifier::rlimit(40)]
    fn settle_all(&mut self)
        requires
            old(self).wires_ok(),
            old(self).order_ok(),
            old(self).kinds@.len() <= usize::MAX / 4,
        ensures
            final(self).same_but_signals(*old(self)),
            final(self).signals@ == old(self).settled_from(old(self).signals@),
            final(self).signals@.len() == old(self).signals@.len(),
            forall|i: int|
                0 <= i < final(self).signals@.len() && (#[trigger] final(self).driven@[i]) is Some
                    ==> final(self).signals@[i] == final(self).driven@[i]->Some_0,
    {
        let ghost g1 = *self;
        let ghost cells = g1.cells();
        let ghost driven = g1.driven@;
        let n = self.kinds.len();
        let (full_order_v, remainder_len) = self.evaluation_sequence();

        let prev_signals = copy_states(&self.signals);
        self.reset_signals();
        let ghost g2 = *self;

        let has_cycles = remainder_len > 0;
        let max_iterations = if has_cycles { n * 4 } else { n + 1 };
        self.settle_sweeps(&full_order_v, max_iterations);
        proof {
            assert(g2.cells() =~= cells);
        }
        let first = copy_states(&self.signals);
        self.restore_stored(&prev_signals);
        if !same_states(&self.signals, &first) {
            // a held wire came back: settle again with it in place
            let ghost g3 = *self;
            self.settle_sweeps(&full_order_v, max_iterations);
            proof {
                assert(g3.cells() =~= cells);
            }
        }
        self.apply_drives_now();
    }

    /// Settles every wire: recomputes the evaluation order when transistors
    /// were added, starts every undriven wire floating, sweeps the
    /// transistors (scheduled ones first, then the cyclic remainder) until
    /// the wires stop changing or the sweep budget runs out, lets each
    /// sequential wire that nothing drove keep its previous state (sweeping
    /// again with it in place), and finally forces every driven wire to its
    /// drive.
    ///
    /// A sequential wire is settled in two passes: it first floats like any
    /// other undriven wire, so that what the driven inputs decide wins over
    /// the stored state (a latch being set or reset takes its new state);
    /// if nothing drove it in that pass, it takes its stored state back and
    /// the sweeps run again with it in place, so the gates it feeds see the
    /// stored state (a latch holds, a register output drives its readers).
    pub fn propagate(&mut self)
        requires
            old(self).can_propagate(),
            old(self).kinds@.len() <= usize::MAX / 4,
        ensures
            final(self).wires_ok(),
            final(self).order_ok(),
            final(self).signals@.len() == old(self).signals@.len(),
            old(self).wf() ==> final(self).wf(),
            old(self).dirty ==> final(self).is_schedule(final(self).eval_order@)
                && final(self).is_queue_order(final(self).eval_order@),
            !old(self).dirty ==> final(self).eval_order@ == old(self).eval_order@,
            !final(self).dirty,
            final(self).signals@ == final(self).settled_from(old(self).signals@),
            final(self).driven@ == old(self).driven@,
            final(self).signal_names@ == old(self).signal_names@,
            final(self).sequential@ == old(self).sequential@,
            final(self).kinds@ == old(self).kinds@,
            final(self).gates@ == old(self).gates@,
            final(self).sources@ == old(self).sources@,
            final(self).drains@ == old(self).drains@,
            final(self).capacitors@ == old(self).capacitors@,
            final(self).cycle_count == old(self).cycle_count,
            final(self).propagated_from(*old(self)),
            // drives always win
            forall|i: int|
                0 <= i < final(self).signals@.len() && (#[trigger] final(self).driven@[i]) is Some
                    ==> final(self).signals@[i] == final(self).driven@[i]->Some_0,
    {
        if self.dirty {
            self.kahn();
        }
        let ghost g1 = *self;
        self.settle_all();
        proof {
            assert(self.cells() =~= g1.cells());
            assert(g1.settled_from(old(self).signals@) == self.settled_from(old(self).signals@));
            if old(self).dirty {
                lemma_schedule_same(g1, *self, g1.eval_order@);
            }
            assert(self.order_ok());
        }
    }
}

/// One tick of a clock capacitor: charge rises by one until it reaches the
/// period, then falls by one until it is empty, then rises again.
pub open spec fn cap_step(c: CapacitorState) -> CapacitorState {
    if c.charging {
        let charge = (c.charge + 1) as u8;
        CapacitorState { charge, charging: !(charge >= c.period), ..c }
    } else {
        let charge = if c.charge > 0 { (c.charge - 1) as u8 } else { 0u8 };
        CapacitorState { charge, charging: charge == 0, ..c }
    }
}

/// The state a capacitor drives its wire to.
pub open spec fn cap_level(c: CapacitorState) -> SignalState {
    if c.charge >= c.threshold {
        SignalState::High
    } else {
        SignalState::Low
    }
}

/// A charging capacitor has room for one more unit of charge.
pub open spec fn cap_ok(c: CapacitorState) -> bool {
    c.charging ==> c.charge < 255
}

pub open spec fn caps_ok(caps: Seq<Option<CapacitorState>>) -> bool {
    forall|i: int| 0 <= i < caps.len() ==> (#[trigger] caps[i] matches Some(c) ==> cap_ok(c))
}

pub open spec fn tick_cap(o: Option<CapacitorState>) -> Option<CapacitorState> {
    match o {
        Some(c) => Some(cap_step(c)),
        None => None,
    }
}

/// A clock capacitor as `add_clock` creates it: empty and charging.
pub open spec fn clock_start(threshold: u8, period: u8) -> CapacitorState {
    CapacitorState { charge: 0, threshold, period, charging: true }
}

/// `k` ticks of a capacitor.
pub open spec fn cap_steps(c: CapacitorState, k: nat) -> CapacitorState
    decreases k,
{
    if k == 0 {
        c
    } else {
        cap_step(cap_steps(c, (k - 1) as nat))
    }
}

impl SignalGraph {
    /// The wire states right after a tick has moved every clock: each clock
    /// wire holds its capacitor's new level.
    pub open spec fn ticked_signals(&self) -> Seq<SignalState> {
        Seq::new(
            self.signals@.len(),
            |i: int|
                match self.clock_at(i) {
                    Some(c) => cap_level(cap_step(c)),
                    None => self.signals@[i],
                },
        )
    }

    /// The drives right after a tick has moved every clock.
    pub open spec fn ticked_driven(&self) -> Seq<Option<SignalState>> {
        Seq::new(
            self.driven@.len(),
            |i: int|
                match self.clock_at(i) {
                    Some(c) => Some(cap_level(cap_step(c))),
                    None => self.driven@[i],
                },
        )
    }

    /// The clock capacitor on wire `i`, if there is one.
    pub open spec fn clock_at(&self, i: int) -> Option<CapacitorState> {
        if 0 <= i < self.capacitors@.len() {
            self.capacitors@[i]
        } else {
            None
        }
    }

    /// Every clock capacitor sits on an existing wire.
    pub open spec fn clocks_within(&self) -> bool {
        forall|i: int|
            0 <= i < self.capacitors@.len() && (#[trigger] self.capacitors@[i]) is Some ==> i
                < self.signals@.len()
    }

    /// `self` is what `tick` leaves of `old`: every clock one step further,
    /// each clock wire driven to its capacitor's new level, the wires
    /// settled from there, and the graph ready for the next tick.
    pub open spec fn ticked_from(&self, old: SignalGraph) -> bool {
        &&& self.capacitors@ == old.capacitors@.map_values(|o: Option<CapacitorState>| tick_cap(o))
        &&& self.driven@ == old.ticked_driven()
        &&& self.signals@ == self.settled_from(old.ticked_signals())
        &&& self.signals@.len() == old.signals@.len()
        &&& forall|i: int|
            0 <= i < self.signals@.len() && (#[trigger] self.driven@[i]) is Some ==> self.signals@[i]
                == self.driven@[i]->Some_0
        &&& self.cycle_count == old.cycle_count + 1
        &&& !self.dirty
        &&& self.wires_ok()
        &&& self.order_ok()
        &&& self.clocks_within()
        &&& caps_ok(self.capacitors@)
    }

    /// Advances every clock capacitor by one tick, drives each clock wire to
    /// its new level, counts the cycle and propagates.
    pub fn tick(&mut self)
        requires
            old(self).can_propagate(),
            old(self).clocks_within(),
            old(self).kinds@.len() <= usize::MAX / 4,
            old(self).cycle_count < u64::MAX,
            caps_ok(old(self).capacitors@),
        ensures
            final(self).wires_ok(),
            final(self).order_ok(),
            final(self).clocks_within(),
            old(self).wf() ==> final(self).wf(),
            final(self).capacitors@ == old(self).capacitors@.map_values(|o: Option<CapacitorState>| tick_cap(o)),
            caps_ok(final(self).capacitors@),
            final(self).driven@ == old(self).ticked_driven(),
            final(self).cycle_count == old(self).cycle_count + 1,
            final(self).signals@ == final(self).settled_from(old(self).ticked_signals()),
            old(self).dirty ==> final(self).is_schedule(final(self).eval_order@)
                && final(self).is_queue_order(final(self).eval_order@),
            !old(self).dirty ==> final(self).eval_order@ == old(self).eval_order@,
            !final(self).dirty,
            final(self).signal_names@ == old(self).signal_names@,
            final(self).sequential@ == old(self).sequential@,
            final(self).kinds@ == old(self).kinds@,
            final(self).gates@ == old(self).gates@,
            final(self).sources@ == old(self).sources@,
            final(self).drains@ == old(self).drains@,
            final(self).ticked_from(*old(self)),
    {
        let ghost g0 = *self;
        let nc = self.capacitors.len();
        for sid in 0..nc
            invariant
                nc == g0.capacitors@.len(),
                g0.can_propagate(),
                g0.clocks_within(),
                caps_ok(g0.capacitors@),
                self.capacitors@.len() == g0.capacitors@.len(),
                self.signals@.len() == g0.signals@.len(),
                self.driven@.len() == g0.driven@.len(),
                forall|i: int| 0 <= i < sid ==> #[trigger] self.capacitors@[i] == tick_cap(g0.capacitors@[i]),
                forall|i: int| sid <= i < g0.capacitors@.len() ==> #[trigger] self.capacitors@[i] == g0.capacitors@[i],
                forall|i: int| 0 <= i < sid && i < g0.signals@.len() ==> #[trigger] self.signals@[i] == g0.ticked_signals()[i],
                forall|i: int| sid <= i < g0.signals@.len() ==> #[trigger] self.signals@[i] == g0.signals@[i],
                forall|i: int| 0 <= i < sid && i < g0.driven@.len() ==> #[trigger] self.driven@[i] == g0.ticked_driven()[i],
                forall|i: int| sid <= i < g0.driven@.len() ==> #[trigger] self.driven@[i] == g0.driven@[i],
                self.signal_names@ == g0.signal_names@,
                self.sequential@ == g0.sequential@,
                self.kinds@ == g0.kinds@,
                self.gates@ == g0.gates@,
                self.sources@ == g0.sources@,
                self.drains@ == g0.drains@,
                self.eval_order@ == g0.eval_order@,
                self.dirty == g0.dirty,
                self.cycle_count == g0.cycle_count,
        {
            if let Some(c) = self.capacitors[sid] {
                let mut cap = c;
                assert(cap_ok(c)) by {
                    assert(g0.capacitors@[sid as int] matches Some(c) ==> cap_ok(c));
                }
                if cap.charging {
                    cap.charge = cap.charge + 1;
                    if cap.charge >= cap.period {
                        cap.charging = false;
                    }
                } else {
                    if cap.charge > 0 {
                        cap.charge = cap.charge - 1;
                    }
                    if cap.charge == 0 {
                        cap.charging = true;
                    }
                }
                let state = if cap.charge >= cap.threshold {
                    SignalState::High
                } else {
                    SignalState::Low
                };
                assert(cap == cap_step(c));
                assert(sid < g0.signals@.len()) by {
                    assert(g0.capacitors@[sid as int] is Some);
                }
                self.capacitors.set(sid, Some(cap));
                self.signals.set(sid, state);
                self.driven.set(sid, Some(state));
            }
        }
        self.cycle_count = self.cycle_count + 1;
        proof {
            assert(self.capacitors@ =~= g0.capacitors@.map_values(|o: Option<CapacitorState>| tick_cap(o)));
            assert(self.signals@ =~= g0.ticked_signals());
            assert(self.driven@ =~= g0.ticked_driven());
            assert forall|i: int| 0 <= i < self.capacitors@.len() implies (#[trigger] self.capacitors@[i] matches Some(
                c,
            ) ==> cap_ok(c)) by {
                assert(g0.capacitors@[i] matches Some(c) ==> cap_ok(c));
            }
            assert(self.can_propagate());
        }
        self.propagate();
    }
}

/// A clock started by `add_clock` is back in its initial state after
/// `2 * period` ticks (2 ticks for a zero period): the clock is periodic.
pub proof fn lemma_clock_period(threshold: u8, period: u8)
    ensures
        cap_steps(clock_start(threshold, period), 2 * (if period == 0 { 1nat } else { period as nat }))
            == clock_start(threshold, period),
{
    let c0 = CapacitorState { charge: 0, threshold, period, charging: true };
    if period == 0 {
        assert(cap_steps(c0, 0) == c0);
        assert(cap_steps(c0, 1) == CapacitorState { charge: 1, threshold, period, charging: false });
        assert(cap_steps(c0, 2) == c0);
    } else {
        lemma_clock_rise(threshold, period, period as nat);
        lemma_clock_fall(threshold, period, period as nat);
    }
}

pub(crate) proof fn lemma_clock_rise(threshold: u8, period: u8, k: nat)
    requires
        1 <= period,
        k <= period,
    ensures
        cap_steps(clock_start(threshold, period), k) == (CapacitorState {
            charge: k as u8,
            threshold,
            period,
            charging: k < period,
        }),
    decreases k,
{
    if k > 0 {
        lemma_clock_rise(threshold, period, (k - 1) as nat);
    }
}

pub(crate) proof fn lemma_clock_fall(threshold: u8, period: u8, m: nat)
    requires
        1 <= period,
        m <= period,
    ensures
        cap_steps(clock_start(threshold, period), period as nat + m) == (CapacitorState {
            charge: (period - m) as u8,
            threshold,
            period,
            charging: m == period,
        }),
    decreases m,
{
    if m == 0 {
        lemma_clock_rise(threshold, period, period as nat);
    } else {
        lemma_clock_fall(threshold, period, (m - 1) as nat);
    }
}

proof fn lemma_schedule_same(a: SignalGraph, b: SignalGraph, order: Seq<TransistorId>)
    requires
        a.is_schedule(order),
        a.kinds@ == b.kinds@,
        a.gates@ == b.gates@,
        a.drains@ == b.drains@,
    ensures
        b.is_schedule(order),
{
    assert forall|i: int, j: int| a.feeds(i, j) == b.feeds(i, j) by {}
}

pub(crate) proof fn lemma_unscheduled_bound(order: Seq<TransistorId>, k: nat)
    ensures
        forall|x: int| 0 <= x < unscheduled(order, k).len() ==> #[trigger] unscheduled(order, k)[x] < k,
        unscheduled(order, k).len() <= k,
    decreases k,
{
    if k > 0 {
        lemma_unscheduled_bound(order, (k - 1) as nat);
    }
}

proof fn lemma_scheduled_set_prefix(a: Seq<TransistorId>, b: Seq<TransistorId>, h: int)
    requires
        0 <= h <= a.len() <= b.len(),
        forall|x: int| 0 <= x < a.len() ==> #[trigger] b[x] == a[x],
    ensures
        scheduled_set(a, h) == scheduled_set(b, h),
{
    assert forall|i: int| scheduled_set(a, h).contains(i) <==> scheduled_set(b, h).contains(i) by {
        if scheduled_set(a, h).contains(i) {
            let k = choose|k: int| 0 <= k < h && #[trigger] a[k].0 == i;
            assert(b[k] == a[k]);
        }
        if scheduled_set(b, h).contains(i) {
            let k = choose|k: int| 0 <= k < h && #[trigger] b[k].0 == i;
            assert(b[k] == a[k]);
        }
    }
    assert(scheduled_set(a, h) =~= scheduled_set(b, h));
}

proof fn lemma_scheduled_push(order: Seq<TransistorId>, e: TransistorId, x: int)
    ensures
        scheduled(order.push(e), x) <==> (scheduled(order, x) || e.0 == x),
{
    let o2 = order.push(e);
    if scheduled(order, x) {
        let k = choose|k: int| 0 <= k < order.len() && #[trigger] order[k].0 == x;
        assert(o2[k] == order[k]);
    }
    if e.0 == x {
        assert(o2[order.len() as int] == e);
    }
    if scheduled(o2, x) {
        let k = choose|k: int| 0 <= k < o2.len() && #[trigger] o2[k].0 == x;
        if k < order.len() {
            assert(o2[k] == order[k]);
        }
    }
}

pub(crate) proof fn lemma_sweep_len(s: Seq<SignalState>, driven: Seq<Option<SignalState>>, cells: Seq<Cell>, order: Seq<usize>)
    requires
        cells_within(cells, s.len()),
        forall|k: int| 0 <= k < order.len() ==> #[trigger] order[k] < cells.len(),
    ensures
        sweep(s, driven, cells, order).len() == s.len(),
    decreases order.len(),
{
    if order.len() > 0 {
        lemma_sweep_len(s, driven, cells, order.drop_last());
        assert(order.drop_last().len() < order.len());
        let c = cells[order.last() as int];
        assert(c.1.0 < s.len() && c.2.0 < s.len() && c.3.0 < s.len());
    }
}

pub(crate) proof fn lemma_settle_len(
    s: Seq<SignalState>,
    driven: Seq<Option<SignalState>>,
    cells: Seq<Cell>,
    order: Seq<usize>,
    budget: nat,
)
    requires
        cells_within(cells, s.len()),
        forall|k: int| 0 <= k < order.len() ==> #[trigger] order[k] < cells.len(),
    ensures
        settle(s, driven, cells, order, budget).len() == s.len(),
    decreases budget,
{
    lemma_sweep_len(s, driven, cells, order);
    let next = sweep(s, driven, cells, order);
    if !(next == s || budget <= 1) {
        lemma_settle_len(next, driven, cells, order, (budget - 1) as nat);
    }
}

/// With no sequential wire, propagating twice settles the wires where
/// propagating once did: the states `settled_from` gives (what `propagate`
/// leaves) are its fixed point, with the drives, transistors and order
/// unchanged.
pub proof fn lemma_propagate_idempotent(g: SignalGraph, prev: Seq<SignalState>)
    requires
        g.wires_ok(),
        g.order_ok(),
        g.sequential@.len() == 0,
        prev.len() == g.signals@.len(),
    ensures
        g.settled_from(g.settled_from(prev)) == g.settled_from(prev),
{
    let n = g.kinds@.len();
    let order = full_order(g.eval_order@, n);
    let budget = if unscheduled(g.eval_order@, n).len() > 0 { 4 * n } else { n + 1 };
    let cells = g.cells();
    let driven = g.driven@;
    let r0 = reset_states(prev, driven);
    assert(cells_within(cells, prev.len()));
    lemma_unscheduled_bound(g.eval_order@, n);
    assert forall|k: int| 0 <= k < order.len() implies #[trigger] order[k] < cells.len() by {
        let sched = g.eval_order@.map_values(|t: TransistorId| t.0);
        if k < sched.len() {
            assert(order[k] == g.eval_order@[k].0);
        } else {
            assert(order[k] == unscheduled(g.eval_order@, n)[k - sched.len()]);
        }
    }
    lemma_settle_len(r0, driven, cells, order, budget);
    let st = settle(r0, driven, cells, order, budget);
    assert(keep_stored(st, prev, g.sequential@) =~= st);
    let r1 = g.settled_from(prev);
    assert(r1.len() == prev.len());
    assert(keep_stored(st, r1, g.sequential@) =~= st);
    assert(reset_states(r1, driven) =~= r0);
    let r2 = g.settled_from(r1);
    assert(r2 =~= r1);
}

proof fn lemma_step_keeps(s: Seq<SignalState>, driven: Seq<Option<SignalState>>, c: Cell, w: int)
    requires
        c.2.0 < s.len(),
        c.3.0 < s.len(),
        c.2.0 != w,
        c.3.0 != w,
        0 <= w < s.len(),
    ensures
        step(s, driven, c)[w] == s[w],
        step(s, driven, c).len() == s.len(),
{
}

/// Resolving two wire states does not depend on their order, is
/// idempotent, leaves a state unchanged against a floating wire, and a
/// conflict on either side stays a conflict.
pub proof fn lemma_resolve_laws(a: SignalState, b: SignalState)
    ensures
        resolve_spec(a, b) == resolve_spec(b, a),
        resolve_spec(a, a) == a,
        resolve_spec(a, SignalState::Floating) == a,
        resolve_spec(a, SignalState::Conflict) == SignalState::Conflict,
{
}

/// Resolution is associative, so the state a shared wire settles on does
/// not depend on how the contributions are grouped.
pub proof fn lemma_resolve_assoc(a: SignalState, b: SignalState, c: SignalState)
    ensures
        resolve_spec(resolve_spec(a, b), c) == resolve_spec(a, resolve_spec(b, c)),
{
}

} // verus!

verus! {

pub open spec fn sig(i: nat) -> SignalId {
    SignalId(i as usize)
}

/// The consecutive transistor indices `t0 .. t0 + count`.
pub open spec fn index_range(t0: nat, count: nat) -> Seq<usize> {
    Seq::new(count, |i: int| (t0 + i) as usize)
}

/// NAND: two PMOS in parallel from VDD to the output, two NMOS in series
/// from the output through `mid` to GND. Output is signal `s0`, `mid` is `s0 + 1`.
pub open spec fn nand_cells(a: SignalId, b: SignalId, s0: nat) -> Seq<Cell> {
    let out = sig(s0);
    let mid = sig(s0 + 1);
    seq![
        (TransistorKind::PMOS, a, sig(0), out),
        (TransistorKind::PMOS, b, sig(0), out),
        (TransistorKind::NMOS, a, mid, out),
        (TransistorKind::NMOS, b, sig(1), mid),
    ]
}

pub open spec fn nand_names() -> Seq<Option<Seq<char>>> {
    seq![Some("OUT"@), None]
}

/// NOT: one PMOS from VDD and one NMOS from GND onto the output `s0`.
pub open spec fn not_cells(a: SignalId, s0: nat) -> Seq<Cell> {
    let out = sig(s0);
    seq![(TransistorKind::PMOS, a, sig(0), out), (TransistorKind::NMOS, a, sig(1), out)]
}

pub open spec fn not_names() -> Seq<Option<Seq<char>>> {
    seq![Some("OUT"@)]
}

/// NOR: two PMOS in series from VDD through `mid` to the output, two NMOS
/// in parallel from GND. Output is signal `s0`, `mid` is `s0 + 1`.
pub open spec fn nor_cells(a: SignalId, b: SignalId, s0: nat) -> Seq<Cell> {
    let out = sig(s0);
    let mid = sig(s0 + 1);
    seq![
        (TransistorKind::PMOS, a, sig(0), mid),
        (TransistorKind::PMOS, b, mid, out),
        (TransistorKind::NMOS, a, sig(1), out),
        (TransistorKind::NMOS, b, sig(1), out),
    ]
}

/// AND is NAND followed by NOT; its output is signal `s0 + 2`.
pub open spec fn and_cells(a: SignalId, b: SignalId, s0: nat) -> Seq<Cell> {
    nand_cells(a, b, s0) + not_cells(sig(s0), s0 + 2)
}

pub open spec fn and_names() -> Seq<Option<Seq<char>>> {
    nand_names() + not_names()
}

/// OR: small is NOR followed by NOT (output `s0 + 2`); large is De Morgan's
/// NOT a, NOT b into a NAND (output `s0 + 2`).
pub open spec fn or_cells(a: SignalId, b: SignalId, small: bool, s0: nat) -> Seq<Cell> {
    if small {
        nor_cells(a, b, s0) + not_cells(sig(s0), s0 + 2)
    } else {
        not_cells(a, s0) + not_cells(b, s0 + 1) + nand_cells(sig(s0), sig(s0 + 1), s0 + 2)
    }
}

pub open spec fn or_names(small: bool) -> Seq<Option<Seq<char>>> {
    if small {
        nand_names() + not_names()
    } else {
        not_names() + not_names() + nand_names()
    }
}

/// XOR from four NANDs; its output is signal `s0 + 6`.
pub open spec fn xor_cells(a: SignalId, b: SignalId, s0: nat) -> Seq<Cell> {
    nand_cells(a, b, s0) + nand_cells(a, sig(s0), s0 + 2) + nand_cells(b, sig(s0), s0 + 4)
        + nand_cells(sig(s0 + 2), sig(s0 + 4), s0 + 6)
}

pub open spec fn xor_names() -> Seq<Option<Seq<char>>> {
    nand_names() + nand_names() + nand_names() + nand_names()
}

/// XNOR is XOR followed by NOT; its output is signal `s0 + 8`.
pub open spec fn xnor_cells(a: SignalId, b: SignalId, s0: nat) -> Seq<Cell> {
    xor_cells(a, b, s0) + not_cells(sig(s0 + 6), s0 + 8)
}

pub open spec fn xnor_names() -> Seq<Option<Seq<char>>> {
    xor_names() + not_names()
}

/// `d` describes a gate that placed its own `count` transistors from `t0`.
pub open spec fn is_leaf_gate(
    d: GateDescriptor,
    kind: GateKind,
    inputs: Seq<SignalId>,
    output: SignalId,
    t0: nat,
    count: nat,
) -> bool {
    &&& d.kind == kind
    &&& d.inputs@ == inputs
    &&& d.output == output
    &&& d.transistors matches Some(ts) && ts@ == index_range(t0, count)
    &&& d.sub_gates is None
}

/// `d` describes a gate made of sub-gates only.
pub open spec fn is_composite_gate(
    d: GateDescriptor,
    kind: GateKind,
    inputs: Seq<SignalId>,
    output: SignalId,
    parts: nat,
) -> bool {
    &&& d.kind == kind
    &&& d.inputs@ == inputs
    &&& d.output == output
    &&& d.transistors is None
    &&& d.sub_gates matches Some(v) && v@.len() == parts
}

pub open spec fn part(d: GateDescriptor, i: int) -> GateDescriptor {
    d.sub_gates->Some_0@[i]
}

pub open spec fn is_nand_gate(d: GateDescriptor, a: SignalId, b: SignalId, s0: nat, t0: nat) -> bool {
    is_leaf_gate(d, GateKind::NAND, seq![a, b], sig(s0), t0, 4)
}

pub open spec fn is_not_gate(d: GateDescriptor, a: SignalId, s0: nat, t0: nat) -> bool {
    is_leaf_gate(d, GateKind::NOT, seq![a], sig(s0), t0, 2)
}

pub open spec fn is_nor_gate(d: GateDescriptor, a: SignalId, b: SignalId, s0: nat, t0: nat) -> bool {
    is_leaf_gate(d, GateKind::NOR, seq![a, b], sig(s0), t0, 4)
}

pub open spec fn is_and_gate(d: GateDescriptor, a: SignalId, b: SignalId, s0: nat, t0: nat) -> bool {
    &&& is_composite_gate(d, GateKind::AND, seq![a, b], sig(s0 + 2), 2)
    &&& is_nand_gate(part(d, 0), a, b, s0, t0)
    &&& is_not_gate(part(d, 1), sig(s0), s0 + 2, t0 + 4)
}

pub open spec fn is_or_gate(d: GateDescriptor, a: SignalId, b: SignalId, small: bool, s0: nat, t0: nat) -> bool {
    if small {
        &&& is_composite_gate(d, GateKind::OR, seq![a, b], sig(s0 + 2), 2)
        &&& is_nor_gate(part(d, 0), a, b, s0, t0)
        &&& is_not_gate(part(d, 1), sig(s0), s0 + 2, t0 + 4)
    } else {
        &&& is_composite_gate(d, GateKind::OR, seq![a, b], sig(s0 + 2), 3)
        &&& is_not_gate(part(d, 0), a, s0, t0)
        &&& is_not_gate(part(d, 1), b, s0 + 1, t0 + 2)
        &&& is_nand_gate(part(d, 2), sig(s0), sig(s0 + 1), s0 + 2, t0 + 4)
    }
}

pub open spec fn is_xor_gate(d: GateDescriptor, a: SignalId, b: SignalId, s0: nat, t0: nat) -> bool {
    &&& is_composite_gate(d, GateKind::XOR, seq![a, b], sig(s0 + 6), 4)
    &&& is_nand_gate(part(d, 0), a, b, s0, t0)
    &&& is_nand_gate(part(d, 1), a, sig(s0), s0 + 2, t0 + 4)
    &&& is_nand_gate(part(d, 2), b, sig(s0), s0 + 4, t0 + 8)
    &&& is_nand_gate(part(d, 3), sig(s0 + 2), sig(s0 + 4), s0 + 6, t0 + 12)
}

pub open spec fn is_xnor_gate(d: GateDescriptor, a: SignalId, b: SignalId, s0: nat, t0: nat) -> bool {
    &&& is_composite_gate(d, GateKind::XNOR, seq![a, b], sig(s0 + 8), 2)
    &&& is_xor_gate(part(d, 0), a, b, s0, t0)
    &&& is_not_gate(part(d, 1), sig(s0 + 6), s0 + 8, t0 + 16)
}

/// The indices `first .. last`.
pub(crate) fn index_block(first: usize, last: usize) -> (v: Vec<usize>)
    requires
        first <= last,
    ensures
        v@ == index_range(first as nat, (last - first) as nat),
{
    let mut v: Vec<usize> = Vec::new();
    let mut i = first;
    while i < last
        invariant
            first <= i <= last,
            v@ == index_range(first as nat, (i - first) as nat),
        decreases last - i,
    {
        v.push(i);
        i = i + 1;
        assert(v@ =~= index_range(first as nat, (i - first) as nat));
    }
    v
}


impl SignalGraph {
    /// Places the transistors of `cells`, in order.
    pub(crate) fn place(&mut self, cells: &Vec<Cell>)
        ensures
            final(self).kinds@.len() == old(self).kinds@.len() + cells@.len(),
            final(self).signals@ == old(self).signals@,
            final(self).driven@ == old(self).driven@,
            final(self).signal_names@ == old(self).signal_names@,
            final(self).capacitors@ == old(self).capacitors@,
            final(self).sequential@ == old(self).sequential@,
            final(self).eval_order@ == old(self).eval_order@,
            final(self).cycle_count == old(self).cycle_count,
            old(self).wf_shape() ==> final(self).grown_from(*old(self), cells@, Seq::empty()),
            old(self).wf() && cells_within(cells@, old(self).signals@.len()) ==> final(self).wf(),
    {
        let ghost g0 = *self;
        let ghost en = Seq::<Option<Seq<char>>>::empty();
        proof {
            if g0.wf_shape() {
                assert(g0.cells() =~= g0.cells() + cells@.take(0));
                assert(g0.names() =~= g0.names() + en);
                assert(g0.signals@ =~= g0.signals@ + Seq::new(en.len(), |i: int| SignalState::Floating));
                assert(g0.driven@ =~= g0.driven@ + Seq::new(en.len(), |i: int| None::<SignalState>));
                assert(g0.capacitors@ =~= g0.capacitors@ + Seq::new(en.len(), |i: int| None::<CapacitorState>));
            }
        }
        for k in 0..cells.len()
            invariant
                self.kinds@.len() == g0.kinds@.len() + k,
                self.signals@ == g0.signals@,
                self.driven@ == g0.driven@,
                self.signal_names@ == g0.signal_names@,
                self.capacitors@ == g0.capacitors@,
                self.sequential@ == g0.sequential@,
                self.eval_order@ == g0.eval_order@,
                self.cycle_count == g0.cycle_count,
                g0.wf_shape() ==> self.grown_from(g0, cells@.take(k as int), en),
        {
            let ghost before = *self;
            let (kind, gate, source, drain) = cells[k];
            self.add_transistor(kind, gate, source, drain);
            proof {
                if g0.wf_shape() {
                    lemma_grown_trans(*self, before, g0, cells@.take(k as int), en, seq![cells@[k as int]], en);
                    assert(cells@.take(k as int) + seq![cells@[k as int]] =~= cells@.take(k + 1));
                    assert(en + en =~= en);
                }
            }
        }
        proof {
            assert(cells@.take(cells@.len() as int) =~= cells@);
            if g0.wf() && cells_within(cells@, g0.signals@.len()) {
                lemma_grown_wf(*self, g0, cells@, en);
            }
        }
    }

    /// Places a NAND gate on `a` and `b`.
    ///
    /// ```text
    /// VDD ──┬──────────┐
    /// [PMOS,A]    [PMOS,B]
    ///    └─────┬─────┘
    ///         OUT
    ///      [NMOS,A]
    ///        mid
    ///      [NMOS,B]
    ///         GND
    /// ```
    pub fn nand(&mut self, a: SignalId, b: SignalId) -> (d: GateDescriptor)
        ensures
            old(self).wf_shape() ==> final(self).grown_from(
                *old(self),
                nand_cells(a, b, old(self).signals@.len()),
                nand_names(),
            ),
            is_nand_gate(d, a, b, old(self).signals@.len(), old(self).kinds@.len()),
            final(self).signals@.len() == old(self).signals@.len() + 2,
            final(self).kinds@.len() == old(self).kinds@.len() + 4,
            old(self).wf() && a.0 < old(self).signals@.len() && b.0 < old(self).signals@.len()
                ==> final(self).wf(),
    {
        let ghost g0 = *self;
        let ghost s0 = self.signals@.len();
        let out = self.add_signal(Some("OUT"));
        let ghost g1 = *self;
        let mid = self.add_signal(None);
        let ghost g2 = *self;
        let first = self.kinds.len();
        let vdd = self.vdd();
        let gnd = self.gnd();
        let cells = vec![
            (TransistorKind::PMOS, a, vdd, out),
            (TransistorKind::PMOS, b, vdd, out),
            (TransistorKind::NMOS, a, mid, out),
            (TransistorKind::NMOS, b, gnd, mid),
        ];
        assert(cells@ =~= nand_cells(a, b, s0));
        self.place(&cells);
        let last = self.kinds.len();
        proof {
            lemma_grown_steps(*self, g2, g1, g0, seq![Some("OUT"@)], seq![None], cells@);
            assert(seq![Some("OUT"@)] + seq![None] =~= nand_names());
            if g0.wf() && a.0 < s0 && b.0 < s0 {
                lemma_grown_wf(*self, g0, nand_cells(a, b, s0), nand_names());
            }
        }
        let transistors = index_block(first, last);
        GateDescriptor {
            kind: GateKind::NAND,
            inputs: vec![a, b],
            output: out,
            transistors: Some(transistors),
            sub_gates: None,
        }
    }
}

/// Two signals added, then transistors placed.
proof fn lemma_grown_steps(
    g3: SignalGraph,
    g2: SignalGraph,
    g1: SignalGraph,
    g0: SignalGraph,
    n1: Seq<Option<Seq<char>>>,
    n2: Seq<Option<Seq<char>>>,
    cells: Seq<Cell>,
)
    requires
        g1.grown_from(g0, Seq::empty(), n1),
        g2.grown_from(g1, Seq::empty(), n2),
        g0.wf_shape() ==> g3.grown_from(g2, cells, Seq::empty()),
    ensures
        g0.wf_shape() ==> g3.grown_from(g0, cells, n1 + n2),
{
    if g0.wf_shape() {
        let e = Seq::<Cell>::empty();
        lemma_grown_trans(g2, g1, g0, e, n1, e, n2);
        lemma_grown_trans(g3, g2, g0, e + e, n1 + n2, cells, Seq::empty());
        assert(e + e + cells =~= cells);
        assert(n1 + n2 + Seq::<Option<Seq<char>>>::empty() =~= n1 + n2);
    }
}


impl SignalGraph {
    /// Places a NOT gate (inverter) on `a`.
    ///
    /// ```text
    /// VDD ── [PMOS,A] ── OUT ── [NMOS,A] ── GND
    /// ```
    pub fn not(&mut self, a: SignalId) -> (d: GateDescriptor)
        ensures
            old(self).wf_shape() ==> final(self).grown_from(
                *old(self),
                not_cells(a, old(self).signals@.len()),
                not_names(),
            ),
            is_not_gate(d, a, old(self).signals@.len(), old(self).kinds@.len()),
            final(self).signals@.len() == old(self).signals@.len() + 1,
            final(self).kinds@.len() == old(self).kinds@.len() + 2,
            old(self).wf() && a.0 < old(self).signals@.len() ==> final(self).wf(),
    {
        let ghost g0 = *self;
        let ghost s0 = self.signals@.len();
        let out = self.add_signal(Some("OUT"));
        let ghost g1 = *self;
        let first = self.kinds.len();
        let vdd = self.vdd();
        let gnd = self.gnd();
        let cells = vec![(TransistorKind::PMOS, a, vdd, out), (TransistorKind::NMOS, a, gnd, out)];
        assert(cells@ =~= not_cells(a, s0));
        self.place(&cells);
        let last = self.kinds.len();
        proof {
            if g0.wf_shape() {
                lemma_grown_trans(*self, g1, g0, Seq::empty(), seq![Some("OUT"@)], cells@, Seq::empty());
                assert(Seq::<Cell>::empty() + cells@ =~= cells@);
                assert(seq![Some("OUT"@)] + Seq::<Option<Seq<char>>>::empty() =~= not_names());
                if g0.wf() && a.0 < s0 {
                    lemma_grown_wf(*self, g0, not_cells(a, s0), not_names());
                }
            }
        }
        let transistors = index_block(first, last);
        let inputs = vec![a];
        assert(inputs@ =~= seq![a]);
        GateDescriptor {
            kind: GateKind::NOT,
            inputs,
            output: out,
            transistors: Some(transistors),
            sub_gates: None,
        }
    }

    /// Places a NOR gate on `a` and `b`.
    ///
    /// ```text
    ///      VDD
    ///   [PMOS,A]        ← series
    ///      mid
    ///   [PMOS,B]
    ///      OUT
    /// [NMOS,A] [NMOS,B] ← parallel
    ///      GND
    /// ```
    pub fn nor(&mut self, a: SignalId, b: SignalId) -> (d: GateDescriptor)
        ensures
            old(self).wf_shape() ==> final(self).grown_from(
                *old(self),
                nor_cells(a, b, old(self).signals@.len()),
                nand_names(),
            ),
            is_nor_gate(d, a, b, old(self).signals@.len(), old(self).kinds@.len()),
            final(self).signals@.len() == old(self).signals@.len() + 2,
            final(self).kinds@.len() == old(self).kinds@.len() + 4,
            old(self).wf() && a.0 < old(self).signals@.len() && b.0 < old(self).signals@.len()
                ==> final(self).wf(),
    {
        let ghost g0 = *self;
        let ghost s0 = self.signals@.len();
        let out = self.add_signal(Some("OUT"));
        let ghost g1 = *self;
        let mid = self.add_signal(None);
        let ghost g2 = *self;
        let first = self.kinds.len();
        let vdd = self.vdd();
        let gnd = self.gnd();
        let cells = vec![
            (TransistorKind::PMOS, a, vdd, mid),
            (TransistorKind::PMOS, b, mid, out),
            (TransistorKind::NMOS, a, gnd, out),
            (TransistorKind::NMOS, b, gnd, out),
        ];
        assert(cells@ =~= nor_cells(a, b, s0));
        self.place(&cells);
        let last = self.kinds.len();
        proof {
            lemma_grown_steps(*self, g2, g1, g0, seq![Some("OUT"@)], seq![None], cells@);
            assert(seq![Some("OUT"@)] + seq![None] =~= nand_names());
            if g0.wf() && a.0 < s0 && b.0 < s0 {
                lemma_grown_wf(*self, g0, nor_cells(a, b, s0), nand_names());
            }
        }
        let transistors = index_block(first, last);
        GateDescriptor {
            kind: GateKind::NOR,
            inputs: vec![a, b],
            output: out,
            transistors: Some(transistors),
            sub_gates: None,
        }
    }

    /// Places an AND gate: a NAND followed by a NOT (6 transistors).
    pub fn and(&mut self, a: SignalId, b: SignalId) -> (d: GateDescriptor)
        ensures
            old(self).wf_shape() ==> final(self).grown_from(
                *old(self),
                and_cells(a, b, old(self).signals@.len()),
                and_names(),
            ),
            is_and_gate(d, a, b, old(self).signals@.len(), old(self).kinds@.len()),
            final(self).signals@.len() == old(self).signals@.len() + 3,
            final(self).kinds@.len() == old(self).kinds@.len() + 6,
            old(self).wf() && a.0 < old(self).signals@.len() && b.0 < old(self).signals@.len()
                ==> final(self).wf(),
    {
        let ghost g0 = *self;
        let ghost s0 = self.signals@.len();
        let nand = self.nand(a, b);
        let ghost g1 = *self;
        let not = self.not(nand.output);
        proof {
            if g0.wf_shape() {
                lemma_grown_trans(*self, g1, g0, nand_cells(a, b, s0), nand_names(), not_cells(sig(s0), s0 + 2), not_names());
            }
        }
        let output = not.output;
        let d = GateDescriptor {
            kind: GateKind::AND,
            inputs: vec![a, b],
            output,
            transistors: None,
            sub_gates: Some(vec![nand, not]),
        };
        d
    }

    /// Places an OR gate: with `small`, a NOR followed by a NOT (6
    /// transistors); otherwise De Morgan's NOT a, NOT b into a NAND (8).
    pub fn or(&mut self, a: SignalId, b: SignalId, small: bool) -> (d: GateDescriptor)
        ensures
            old(self).wf_shape() ==> final(self).grown_from(
                *old(self),
                or_cells(a, b, small, old(self).signals@.len()),
                or_names(small),
            ),
            is_or_gate(d, a, b, small, old(self).signals@.len(), old(self).kinds@.len()),
            final(self).signals@.len() == old(self).signals@.len() + if small { 3nat } else { 4nat },
            final(self).kinds@.len() == old(self).kinds@.len() + if small { 6nat } else { 8nat },
            old(self).wf() && a.0 < old(self).signals@.len() && b.0 < old(self).signals@.len()
                ==> final(self).wf(),
    {
        let ghost g0 = *self;
        let ghost s0 = self.signals@.len();
        if small {
            let nor = self.nor(a, b);
            let ghost g1 = *self;
            let not = self.not(nor.output);
            proof {
                if g0.wf_shape() {
                    lemma_grown_trans(*self, g1, g0, nor_cells(a, b, s0), nand_names(), not_cells(sig(s0), s0 + 2), not_names());
                }
            }
            let output = not.output;
            GateDescriptor {
                kind: GateKind::OR,
                inputs: vec![a, b],
                output,
                transistors: None,
                sub_gates: Some(vec![nor, not]),
            }
        } else {
            let not_a = self.not(a);
            let ghost g1 = *self;
            let not_b = self.not(b);
            let ghost g2 = *self;
            let nand = self.nand(not_a.output, not_b.output);
            proof {
                if g0.wf_shape() {
                    lemma_grown_trans(g2, g1, g0, not_cells(a, s0), not_names(), not_cells(b, s0 + 1), not_names());
                    lemma_grown_trans(*self, g2, g0, not_cells(a, s0) + not_cells(b, s0 + 1), not_names() + not_names(), nand_cells(sig(s0), sig(s0 + 1), s0 + 2), nand_names());
                }
            }
            let output = nand.output;
            GateDescriptor {
                kind: GateKind::OR,
                inputs: vec![a, b],
                output,
                transistors: None,
                sub_gates: Some(vec![not_a, not_b, nand]),
            }
        }
    }

    /// Places an XOR gate built from four NANDs.
    pub fn xor(&mut self, a: SignalId, b: SignalId) -> (d: GateDescriptor)
        ensures
            old(self).wf_shape() ==> final(self).grown_from(
                *old(self),
                xor_cells(a, b, old(self).signals@.len()),
                xor_names(),
            ),
            is_xor_gate(d, a, b, old(self).signals@.len(), old(self).kinds@.len()),
            final(self).signals@.len() == old(self).signals@.len() + 8,
            final(self).kinds@.len() == old(self).kinds@.len() + 16,
            old(self).wf() && a.0 < old(self).signals@.len() && b.0 < old(self).signals@.len()
                ==> final(self).wf(),
    {
        let ghost g0 = *self;
        let ghost s0 = self.signals@.len();
        let s1 = self.nand(a, b);
        let ghost g1 = *self;
        let s2 = self.nand(a, s1.output);
        let ghost g2 = *self;
        let s3 = self.nand(b, s1.output);
        let ghost g3 = *self;
        let xor = self.nand(s2.output, s3.output);
        proof {
            if g0.wf_shape() {
                let c1 = nand_cells(a, b, s0);
                let c2 = nand_cells(a, sig(s0), s0 + 2);
                let c3 = nand_cells(b, sig(s0), s0 + 4);
                let c4 = nand_cells(sig(s0 + 2), sig(s0 + 4), s0 + 6);
                let nn = nand_names();
                lemma_grown_trans(g2, g1, g0, c1, nn, c2, nn);
                lemma_grown_trans(g3, g2, g0, c1 + c2, nn + nn, c3, nn);
                lemma_grown_trans(*self, g3, g0, c1 + c2 + c3, nn + nn + nn, c4, nn);
            }
        }
        let output = xor.output;
        GateDescriptor {
            kind: GateKind::XOR,
            inputs: vec![a, b],
            output,
            transistors: None,
            sub_gates: Some(vec![s1, s2, s3, xor]),
        }
    }

    /// Places an XNOR gate: an XOR followed by a NOT.
    pub fn xnor(&mut self, a: SignalId, b: SignalId) -> (d: GateDescriptor)
        ensures
            old(self).wf_shape() ==> final(self).grown_from(
                *old(self),
                xnor_cells(a, b, old(self).signals@.len()),
                xnor_names(),
            ),
            is_xnor_gate(d, a, b, old(self).signals@.len(), old(self).kinds@.len()),
            final(self).signals@.len() == old(self).signals@.len() + 9,
            final(self).kinds@.len() == old(self).kinds@.len() + 18,
            old(self).wf() && a.0 < old(self).signals@.len() && b.0 < old(self).signals@.len()
                ==> final(self).wf(),
    {
        let ghost g0 = *self;
        let ghost s0 = self.signals@.len();
        let xor = self.xor(a, b);
        let ghost g1 = *self;
        let xnor = self.not(xor.output);
        proof {
            if g0.wf_shape() {
                lemma_grown_trans(*self, g1, g0, xor_cells(a, b, s0), xor_names(), not_cells(sig(s0 + 6), s0 + 8), not_names());
            }
        }
        let output = xnor.output;
        GateDescriptor {
            kind: GateKind::XNOR,
            inputs: vec![a, b],
            output,
            transistors: None,
            sub_gates: Some(vec![xor, xnor]),
        }
    }
}


impl SignalGraph {
    /// Whether settling can read every wire and terminal it needs.
    pub fn wires_well_formed(&self) -> (b: bool)
        ensures
            b == self.wires_ok(),
    {
        let ns = self.signals.len();
        let nt = self.kinds.len();
        if self.driven.len() != ns || self.gates.len() != nt || self.sources.len() != nt
            || self.drains.len() != nt {
            return false;
        }
        for t in 0..nt
            invariant
                ns == self.signals@.len(),
                nt == self.kinds@.len(),
                self.gates@.len() == nt,
                self.sources@.len() == nt,
                self.drains@.len() == nt,
                forall|u: int| 0 <= u < t ==> (#[trigger] self.gates@[u]).0 < ns,
                forall|u: int| 0 <= u < t ==> (#[trigger] self.sources@[u]).0 < ns,
                forall|u: int| 0 <= u < t ==> (#[trigger] self.drains@[u]).0 < ns,
        {
            if self.gates[t].0 >= ns || self.sources[t].0 >= ns || self.drains[t].0 >= ns {
                return false;
            }
        }
        true
    }

    /// Whether the evaluation order names existing transistors.
    pub fn order_in_range(&self) -> (b: bool)
        ensures
            b == self.order_ok(),
    {
        let nt = self.kinds.len();
        for k in 0..self.eval_order.len()
            invariant
                nt == self.kinds@.len(),
                forall|x: int| 0 <= x < k ==> (#[trigger] self.eval_order@[x]).0 < nt,
        {
            if self.eval_order[k].0 >= nt {
                return false;
            }
        }
        true
    }

    /// Whether `propagate` can run on this graph.
    pub fn ready_to_propagate(&self) -> (b: bool)
        ensures
            b == self.can_propagate(),
    {
        self.wires_well_formed() && (self.dirty || self.order_in_range())
    }

    /// Whether the graph is well formed: its per-signal and per-transistor
    /// lists agree in length, there are the two rails, and every
    /// transistor terminal and scheduled transistor exists.
    pub fn well_formed(&self) -> (b: bool)
        ensures
            b == self.wf(),
    {
        let ns = self.signals.len();
        let nt = self.kinds.len();
        if ns < 2 || self.driven.len() != ns || self.signal_names.len() != ns || self.capacitors.len() != ns
            || self.gates.len() != nt || self.sources.len() != nt || self.drains.len() != nt {
            return false;
        }
        self.wires_well_formed() && self.order_in_range()
    }

    /// Whether every clock sits on an existing wire and every charging
    /// clock can still charge.
    pub fn clocks_ok(&self) -> (b: bool)
        ensures
            b == (caps_ok(self.capacitors@) && self.clocks_within()),
    {
        let ns = self.signals.len();
        for i in 0..self.capacitors.len()
            invariant
                ns == self.signals@.len(),
                forall|x: int|
                    0 <= x < i ==> (#[trigger] self.capacitors@[x] matches Some(c) ==> cap_ok(c)),
                forall|x: int| 0 <= x < i && (#[trigger] self.capacitors@[x]) is Some ==> x < ns,
        {
            match &self.capacitors[i] {
                Some(c) => {
                    if c.charging && c.charge == 255 {
                        return false;
                    }
                    if i >= ns {
                        return false;
                    }
                },
                None => {},
            }
        }
        true
    }
}

} // verus!
