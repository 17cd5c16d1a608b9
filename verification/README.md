# vault

A transistor-level digital circuit simulator, verified with Verus.

Circuits are built from software NMOS and PMOS transistors wired between
signals. Gate builders (NOT, NAND, NOR, AND, OR, XOR, XNOR) and composite
units (half and full adders, a 4-bit ripple-carry adder, 2:1 and 4:1
multiplexers, an SR latch) place those transistors; a propagation pass
orders the transistors with Kahn's algorithm and relaxes the wire states
until they settle. A clock is a capacitor that charges and discharges one
step per tick.

Sequential wires (the latch's Q and !Q) keep their state between
propagations. A propagation settles them in two passes: first they float
like any undriven wire, so that what the driven inputs decide wins (a latch
being set or reset takes its new state); a sequential wire that nothing
drove then takes its stored state back, and the circuit settles again with
it in place, so the gates it feeds see that state (a latch holds).

Layout:

- `src/sim/transistor.rs`: the signal graph, wire resolution, propagation,
  the clock, and a builder for each kind of gate.
- `src/sim/gate.rs`: composite units and their descriptors.
- `src/sim/truth.rs`, `src/sim/xor.rs`, `src/sim/xnor.rs`,
  `src/sim/half_adder.rs`, `src/sim/mux2.rs`: proofs that lone NOT, NAND,
  NOR, AND, OR (in both of its forms), XOR and XNOR gates, a lone half
  adder and a lone 2:1 multiplexer compute their truth tables once
  propagated.
- `src/sim/latch.rs`: the proof that a lone SR latch sets, resets, and
  holds what it stored.
- `src/sim/memory.rs`: what a propagation remembers: nothing, without
  sequential wires (Kahn's queue leaves no choice of order, so two graphs
  with the same transistors and drives settle alike); a held wire's state,
  with them.
- `src/sim/clock.rs`: the charge and level of a clock after any number of
  ticks.
- `src/render/layout.rs` lists each CMOS cluster in breadth-first order:
  a visited transistor queues those on its gate, source and drain wires,
  in turn, each wire's in the order of the list.
- `src/render/`: what a terminal front end draws, computed as plain values:
  CMOS clusters (`layout.rs`), the per-gate drawing plan and its strokes
  (`topology.rs`), gate layering (`gate_layout.rs`), the signal list
  (`panel.rs`, `signal.rs`), and colours and areas (`canvas.rs`).
- `src/console.rs`: the front end's decisions: keys, tick timing, labels.
- `app/main.rs`: the terminal front end (ratatui and crossterm), which
  paints the strokes and border titles and runs the event loop.
- `tests/`: truth tables of every gate and unit, and the library's laws on
  concrete values.
