use vault::console::{clock_label, mode_label, next_drive, on_key, tick_due, Command, TickMode};
use vault::render::canvas::{wire_ink, Area, Ink, TitlePart};
use vault::render::gate_layout::{build_edges, kahn_layout};
use vault::render::layout::find_clusters;
use vault::render::panel::SignalPanel;
use vault::render::signal::signal_span;
use vault::render::topology::{drawing_title, layout_gate, layout_ready, TopologyWidget};
use vault::sim::gate::{GateKind, Schematic};
use vault::sim::transistor::{
    CapacitorState, GateDescriptor, SignalGraph, SignalId, TransistorId,
    SignalState::{self, Conflict, Floating, High, Low},
    TransistorKind,
};

const STATES: [SignalState; 4] = [High, Low, Floating, Conflict];

fn leaf_count(d: &GateDescriptor) -> usize {
    match &d.sub_gates {
        Some(subs) => subs.iter().map(leaf_count).sum(),
        None => 1,
    }
}

#[test]
fn resolve_is_commutative_with_floating_neutral_and_conflict_absorbing() {
    for &a in STATES.iter() {
        assert_eq!(SignalGraph::resolve(a, Floating), a);
        assert_eq!(SignalGraph::resolve(Floating, a), a);
        assert_eq!(SignalGraph::resolve(a, Conflict), Conflict);
        assert_eq!(SignalGraph::resolve(a, a), a);
        for &b in STATES.iter() {
            assert_eq!(SignalGraph::resolve(a, b), SignalGraph::resolve(b, a));
        }
    }
    assert_eq!(SignalGraph::resolve(High, Low), Conflict);
}

#[test]
fn resolve_is_associative() {
    for &a in STATES.iter() {
        for &b in STATES.iter() {
            for &c in STATES.iter() {
                assert_eq!(
                    SignalGraph::resolve(SignalGraph::resolve(a, b), c),
                    SignalGraph::resolve(a, SignalGraph::resolve(b, c))
                );
            }
        }
    }
}

#[test]
fn clock_runs_a_full_period_in_twice_its_length() {
    let mut g = SignalGraph::new();
    let clk = g.add_clock(10);
    assert_eq!(g.signals[clk.0], Low);
    assert_eq!(g.driven[clk.0], Some(Low));
    g.propagate();
    let mut seen = Vec::new();
    for _ in 0..20 {
        g.tick();
        seen.push(g.signals[clk.0]);
    }
    for (k, s) in seen.iter().enumerate() {
        let tick = k + 1;
        let expected = if (5..=15).contains(&tick) { High } else { Low };
        assert_eq!(*s, expected, "tick {}", tick);
    }
    let cap: CapacitorState = g.capacitors[clk.0].unwrap();
    assert_eq!(cap.charge, 0);
    assert!(cap.charging);
    assert_eq!(cap.threshold, 5);
    assert_eq!(cap.period, 10);
    assert_eq!(g.cycle_count, 20);
    assert!(g.clocks_ok());
}

#[test]
fn drives_always_win_over_transistors() {
    let mut g = SignalGraph::new();
    let a = g.add_signal(Some("A"));
    let out = g.not(a).output;
    g.drive(a, Some(High));
    g.propagate();
    assert_eq!(g.signals[out.0], Low);
    g.drive(out, Some(High));
    g.propagate();
    assert_eq!(g.signals[out.0], High);
    assert_eq!(g.signals[a.0], High);
    assert_eq!(g.signals[g.vdd().0], High);
    assert_eq!(g.signals[g.gnd().0], Low);
}

#[test]
fn undriven_inputs_leave_a_gate_floating() {
    let mut g = SignalGraph::new();
    let a = g.add_signal(Some("A"));
    let out = g.not(a).output;
    g.propagate();
    assert_eq!(g.signals[a.0], Floating);
    assert_eq!(g.signals[out.0], Floating);
}

#[test]
fn wires_pulled_both_ways_end_in_conflict() {
    let mut g = SignalGraph::new();
    let a = g.add_signal(Some("A"));
    let x = g.add_signal(Some("X"));
    let y = g.add_signal(Some("Y"));
    let vdd = g.vdd();
    let gnd = g.gnd();
    g.add_transistor(TransistorKind::NMOS, a, vdd, x);
    g.add_transistor(TransistorKind::NMOS, a, gnd, y);
    g.add_transistor(TransistorKind::NMOS, a, x, y);
    g.drive(a, Some(High));
    g.propagate();
    assert_eq!(g.signals[x.0], Conflict);
    assert_eq!(g.signals[y.0], Conflict);
}

#[test]
fn evaluation_order_puts_every_transistor_after_its_feeders() {
    let mut g = SignalGraph::new();
    let a = g.add_signal(Some("A"));
    let b = g.add_signal(Some("B"));
    g.xor(a, b);
    g.propagate();
    let order: Vec<usize> = g.eval_order.iter().map(|t| t.0).collect();
    assert_eq!(order.len(), g.kinds.len());
    for (k, &j) in order.iter().enumerate() {
        assert!(!order[..k].contains(&j));
        for i in 0..g.kinds.len() {
            if g.drains[i] == g.gates[j] {
                assert!(order[..k].contains(&i), "{} feeds {}", i, j);
            }
        }
    }
    assert!(!g.dirty);
}

#[test]
fn a_latch_leaves_its_feedback_loop_out_of_the_order() {
    let mut g = SignalGraph::new();
    let mut s = Schematic::new();
    let set = g.add_signal(Some("S"));
    let reset = g.add_signal(Some("R"));
    s.sr_latch(&mut g, set, reset);
    g.propagate();
    assert!(g.eval_order.len() < g.kinds.len());
    assert!(g.well_formed());
}

#[test]
fn builders_keep_the_graph_well_formed() {
    let mut g = SignalGraph::new();
    assert!(g.well_formed());
    let a = g.add_signal(Some("A"));
    let b = g.add_signal(None);
    let c = g.add_sequential_signal(Some("C"));
    g.nand(a, b);
    g.nor(a, c);
    g.and(a, b);
    g.or(b, c, true);
    g.or(a, c, false);
    g.xnor(a, b);
    g.add_clock(4);
    assert!(g.well_formed());
    assert_eq!(g.signals.len(), g.driven.len());
    assert_eq!(g.signals.len(), g.signal_names.len());
    assert!(g.dirty);
    g.gates[0] = SignalId(g.signals.len());
    assert!(!g.well_formed());
}

#[test]
fn clocks_ok_rejects_a_full_charging_capacitor() {
    let mut g = SignalGraph::new();
    let clk = g.add_clock(8);
    assert!(g.clocks_ok());
    g.capacitors[clk.0] = Some(CapacitorState { charge: 255, threshold: 4, period: 8, charging: true });
    assert!(!g.clocks_ok());
}

#[test]
fn find_clusters_splits_unconnected_gates() {
    let mut g = SignalGraph::new();
    let a = g.add_signal(Some("A"));
    let b = g.add_signal(Some("B"));
    let c = g.add_signal(Some("C"));
    g.nand(a, b);
    g.not(c);
    let all: Vec<usize> = (0..g.kinds.len()).collect();
    let clusters = find_clusters(&g, &all);
    assert_eq!(clusters.len(), 2);
    let mut first = clusters[0].clone();
    first.sort();
    assert_eq!(first, vec![0, 1, 2, 3]);
    let mut second = clusters[1].clone();
    second.sort();
    assert_eq!(second, vec![4, 5]);
    assert_eq!(clusters[0][0], 0);
    assert_eq!(clusters[1][0], 4);
}

#[test]
fn find_clusters_joins_gates_through_shared_wires() {
    let mut g = SignalGraph::new();
    let a = g.add_signal(Some("A"));
    let b = g.add_signal(Some("B"));
    g.and(a, b);
    let all: Vec<usize> = (0..g.kinds.len()).collect();
    let clusters = find_clusters(&g, &all);
    assert_eq!(clusters.len(), 1);
    assert_eq!(clusters[0].len(), 6);
    let none = find_clusters(&g, &[]);
    assert!(none.is_empty());
}

#[test]
fn layout_of_a_nand_gate() {
    let mut g = SignalGraph::new();
    let a = g.add_signal(Some("A"));
    let b = g.add_signal(Some("B"));
    let d = g.nand(a, b);
    assert!(layout_ready(&g, &d));
    let l = layout_gate(&g, &d, "NAND");
    assert_eq!(l.label, "NAND");
    assert_eq!(l.output_signal, d.output);
    assert_eq!(l.clusters.len(), 1);
    let c = &l.clusters[0];
    assert_eq!(c.output, d.output);
    let pmos: Vec<usize> = c.pmos.iter().map(|t| t.id).collect();
    let nmos: Vec<usize> = c.nmos.iter().map(|t| t.id).collect();
    assert_eq!(pmos, vec![0, 1]);
    assert_eq!(nmos, vec![2, 3]);
    assert_eq!(c.pmos[1].col, 1);
    assert_eq!(c.pmos[1].gate_signal, b);
    assert_eq!(c.nmos[1].row, 1);
    assert_eq!(c.nmos[0].vertical_in, d.output);
    assert_eq!(c.nmos[1].vertical_out, g.gnd());
}

#[test]
fn layout_of_an_xnor_has_one_cluster_per_leaf_gate() {
    let mut g = SignalGraph::new();
    let a = g.add_signal(Some("A"));
    let b = g.add_signal(Some("B"));
    let d = g.xnor(a, b);
    assert!(layout_ready(&g, &d));
    let l = layout_gate(&g, &d, "XNOR");
    assert_eq!(l.clusters.len(), leaf_count(&d));
    assert_eq!(l.clusters.len(), 5);
    for c in l.clusters.iter().take(4) {
        assert_eq!(c.pmos.len(), 2);
        assert_eq!(c.nmos.len(), 2);
    }
    assert_eq!(l.clusters[4].pmos.len(), 1);
    assert_eq!(l.clusters[4].output, d.output);
}

#[test]
fn layout_needs_transistors_or_sub_gates() {
    let g = SignalGraph::new();
    let empty = GateDescriptor {
        kind: GateKind::NOT,
        inputs: vec![],
        output: SignalId(1),
        transistors: None,
        sub_gates: None,
    };
    assert!(!layout_ready(&g, &empty));
    let missing = GateDescriptor {
        kind: GateKind::NOT,
        inputs: vec![],
        output: SignalId(1),
        transistors: Some(vec![7]),
        sub_gates: None,
    };
    assert!(!layout_ready(&g, &missing));
}

#[test]
fn drawing_of_a_not_gate() {
    let mut g = SignalGraph::new();
    let a = g.add_signal(Some("A"));
    let d = g.not(a);
    let l = layout_gate(&g, &d, "NOT");
    g.propagate();
    let w = TopologyWidget { graph: &g, layout: &l };
    let area = Area { x: 0, y: 0, width: 40, height: 20 };
    assert!(w.can_draw(area));
    let strokes = w.strokes(area);
    // substrate 8 rows of 5, two rails of 5, the cluster, the trench via and name
    assert_eq!(strokes.len(), 68);
    let first = &strokes[0];
    assert_eq!((first.x, first.y), (17, 6));
    assert_eq!(first.text, "⣿");
    assert_eq!(first.ink, Ink::SiliconActive);
    assert!(!first.bold);
    // the VDD rail, High
    let rail = &strokes[40];
    assert_eq!((rail.x, rail.y, rail.text.as_str(), rail.ink), (17, 5, "━", Ink::GoldBright));
    // the GND rail, Low
    let gnd = &strokes[45];
    assert_eq!((gnd.x, gnd.y, gnd.text.as_str(), gnd.ink), (17, 14, "━", Ink::GoldDim));
    // the trench: the pillar's via and the output's name
    let via = &strokes[66];
    assert_eq!((via.x, via.y, via.text.as_str()), (19, 10, "┃"));
    let name = &strokes[67];
    assert_eq!((name.x, name.y, name.text.as_str(), name.ink), (20, 10, "OUT", Ink::GoldBright));
}

#[test]
fn drawing_in_a_small_area_is_empty() {
    let mut g = SignalGraph::new();
    let a = g.add_signal(Some("A"));
    let d = g.not(a);
    let l = layout_gate(&g, &d, "NOT");
    let w = TopologyWidget { graph: &g, layout: &l };
    let area = Area { x: 3, y: 3, width: 11, height: 30 };
    assert!(w.can_draw(area));
    assert!(w.strokes(area).is_empty());
}

#[test]
fn drawing_that_overflows_the_terminal_is_refused() {
    let mut g = SignalGraph::new();
    let a = g.add_signal(Some("A"));
    let d = g.not(a);
    let l = layout_gate(&g, &d, "NOT");
    let w = TopologyWidget { graph: &g, layout: &l };
    assert!(!w.can_draw(Area { x: 65530, y: 0, width: 40, height: 40 }));
}

#[test]
fn border_is_gold_when_the_output_is_high() {
    let mut g = SignalGraph::new();
    let a = g.add_signal(Some("A"));
    let d = g.not(a);
    let l = layout_gate(&g, &d, "NOT");
    g.drive(a, Some(High));
    g.propagate();
    assert_eq!(TopologyWidget { graph: &g, layout: &l }.border_ink(), Ink::GoldDim);
    g.drive(a, Some(Low));
    g.propagate();
    assert_eq!(TopologyWidget { graph: &g, layout: &l }.border_ink(), Ink::AccentGold);
}

#[test]
fn signal_panel_lists_named_signals() {
    let mut g = SignalGraph::new();
    g.add_signal(Some("A"));
    g.add_signal(None);
    g.add_signal(Some("CLOCKWISE9"));
    let panel = SignalPanel { graph: &g };
    let area = Area { x: 0, y: 0, width: 30, height: 10 };
    assert!(panel.can_list(area));
    let lines = panel.lines(area);
    let rows: Vec<(u16, u16, u16, &str, &str, Ink)> = lines
        .iter()
        .map(|l| (l.x, l.y, l.width, l.label.as_str(), l.reading, l.ink))
        .collect();
    assert_eq!(
        rows,
        vec![
            (1, 1, 28, "VDD     ", "━━━  HIGH", Ink::Cyan),
            (1, 2, 28, "GND     ", "╌╌╌  LOW", Ink::DarkGray),
            (1, 3, 28, "A       ", "───  FLT", Ink::Gray),
            (1, 5, 28, "CLOCKWISE9", "───  FLT", Ink::Gray),
        ]
    );
}

#[test]
fn signal_panel_stops_at_the_bottom_edge() {
    let g = SignalGraph::new();
    let panel = SignalPanel { graph: &g };
    let lines = panel.lines(Area { x: 0, y: 0, width: 20, height: 3 });
    assert_eq!(lines.len(), 1);
    assert_eq!(lines[0].label, "VDD     ");
    assert!(panel.lines(Area { x: 0, y: 0, width: 20, height: 2 }).is_empty());
}

#[test]
fn signal_readings() {
    assert_eq!(signal_span(High), ("━━━  HIGH", Ink::Cyan));
    assert_eq!(signal_span(Low), ("╌╌╌  LOW", Ink::DarkGray));
    assert_eq!(signal_span(Floating), ("───  FLT", Ink::Gray));
    assert_eq!(signal_span(Conflict), ("▓▓▓  CON", Ink::Red));
}

#[test]
fn gate_dependency_edges() {
    let mut g = SignalGraph::new();
    let a = g.add_signal(Some("A"));
    let b = g.add_signal(Some("B"));
    let d0 = g.nand(a, b);
    let d1 = g.not(d0.output);
    let d2 = g.nor(d0.output, d1.output);
    let d3 = g.not(a);
    let gates = vec![d0, d1, d2, d3];
    let edges = build_edges(&gates);
    assert_eq!(edges, vec![(0, 1), (0, 2), (1, 2)]);
    let places = kahn_layout(&gates, &edges);
    assert_eq!(places, vec![(0, 0), (1, 0), (2, 0), (0, 1)]);
}

#[test]
fn gate_edges_come_from_the_last_driver_of_a_signal() {
    let mut g = SignalGraph::new();
    let a = g.add_signal(Some("A"));
    let d0 = g.not(a);
    let mut d1 = g.not(a);
    d1.output = d0.output;
    let d2 = g.not(d0.output);
    let gates = vec![d0, d1, d2];
    assert_eq!(build_edges(&gates), vec![(1, 2)]);
}

#[test]
fn kahn_layout_keeps_cycles_on_the_first_layer() {
    let g = SignalGraph::new();
    let gate = |out: usize| GateDescriptor {
        kind: GateKind::NOT,
        inputs: vec![],
        output: SignalId(out),
        transistors: None,
        sub_gates: None,
    };
    let gates = vec![gate(10), gate(11), gate(12)];
    let places = kahn_layout(&gates, &[(0, 1), (1, 0), (1, 2)]);
    assert_eq!(places, vec![(0, 0), (0, 1), (0, 2)]);
    assert!(kahn_layout(&[], &[]).is_empty());
    assert!(g.well_formed());
}

#[test]
fn kahn_layout_uses_the_longest_path() {
    let gate = |out: usize| GateDescriptor {
        kind: GateKind::NOT,
        inputs: vec![],
        output: SignalId(out),
        transistors: None,
        sub_gates: None,
    };
    let gates = vec![gate(10), gate(11), gate(12), gate(13)];
    let places = kahn_layout(&gates, &[(0, 3), (0, 1), (1, 2), (2, 3)]);
    assert_eq!(places, vec![(0, 0), (1, 0), (2, 0), (3, 0)]);
}

#[test]
fn keys_drive_the_console() {
    assert_eq!(on_key(TickMode::Paused, 'q'), (TickMode::Paused, Command::Quit, false));
    assert_eq!(on_key(TickMode::Manual, '1'), (TickMode::Manual, Command::ToggleA, false));
    assert_eq!(on_key(TickMode::Manual, '2'), (TickMode::Manual, Command::ToggleB, false));
    assert_eq!(on_key(TickMode::Auto(16), 't'), (TickMode::Auto(16), Command::Step, false));
    assert_eq!(on_key(TickMode::Paused, 'a'), (TickMode::Auto(100), Command::Nothing, true));
    assert_eq!(on_key(TickMode::Paused, 's'), (TickMode::Auto(500), Command::Nothing, true));
    assert_eq!(on_key(TickMode::Paused, 'f'), (TickMode::Auto(16), Command::Nothing, true));
    assert_eq!(on_key(TickMode::Auto(100), ' '), (TickMode::Paused, Command::Nothing, false));
    assert_eq!(on_key(TickMode::Auto(100), 'x'), (TickMode::Auto(100), Command::Nothing, false));
}

#[test]
fn ticks_fall_due_in_auto_mode_only() {
    assert!(tick_due(TickMode::Auto(100), 100));
    assert!(!tick_due(TickMode::Auto(100), 99));
    assert!(!tick_due(TickMode::Paused, 1000));
    assert!(!tick_due(TickMode::Manual, 1000));
}

#[test]
fn inputs_flip_between_high_and_low() {
    assert_eq!(next_drive(Some(High)), Low);
    assert_eq!(next_drive(Some(Low)), High);
    assert_eq!(next_drive(None), Low);
    assert_eq!(next_drive(Some(Floating)), Low);
}

#[test]
fn status_labels() {
    assert_eq!(mode_label(TickMode::Paused), "PAUSED ");
    assert_eq!(mode_label(TickMode::Manual), "MANUAL ");
    assert_eq!(mode_label(TickMode::Auto(100)), "AUTO (slow) ");
    assert_eq!(mode_label(TickMode::Auto(500)), "AUTO (slower)");
    assert_eq!(mode_label(TickMode::Auto(16)), "AUTO (fast) ");
    assert_eq!(mode_label(TickMode::Auto(42)), "AUTO");
    assert_eq!(clock_label(High), "CLK: HIGH");
    assert_eq!(clock_label(Low), "CLK: LOW ");
    assert_eq!(clock_label(Floating), "CLK: LOW ");
}

#[test]
fn evaluation_order_follows_kahns_queue() {
    let mut g = SignalGraph::new();
    let a = g.add_signal(Some("A"));
    let b = g.add_signal(Some("B"));
    let not_b = g.not(b);
    g.nand(a, not_b.output);
    g.propagate();
    let order: Vec<usize> = g.eval_order.iter().map(|t| t.0).collect();
    // the NOT (0, 1) and the NAND's transistors gated by A (2, 4) have no
    // feeders; those gated by NOT B (3, 5) are queued once both NOT
    // transistors have been taken
    assert_eq!(order, vec![0, 1, 2, 4, 3, 5]);
}

#[test]
fn clusters_come_in_the_order_of_their_first_listed_transistor() {
    let mut g = SignalGraph::new();
    let a = g.add_signal(Some("A"));
    let b = g.add_signal(Some("B"));
    let c = g.add_signal(Some("C"));
    g.nand(a, b);
    g.not(c);
    let clusters = find_clusters(&g, &[5, 2, 4, 0, 1, 3]);
    assert_eq!(clusters.len(), 2);
    assert_eq!(clusters[0][0], 5);
    assert_eq!(clusters[1][0], 2);
    assert_eq!(clusters[0].len(), 2);
    assert_eq!(clusters[1].len(), 4);
}

#[test]
fn wire_colours() {
    assert_eq!(wire_ink(High), Ink::GoldBright);
    assert_eq!(wire_ink(Low), Ink::GoldDim);
    assert_eq!(wire_ink(Floating), Ink::GoldDim);
    assert_eq!(wire_ink(Conflict), Ink::ConflictRed);
}

#[test]
fn schematic_registers_units() {
    let mut g = SignalGraph::new();
    let mut s = Schematic::new();
    let a = g.add_signal(Some("A"));
    let b = g.add_signal(Some("B"));
    let ha = s.half_adder(&mut g, a, b);
    assert!(s.units.is_empty());
    let id = s.add_unit(ha);
    assert_eq!(id.0, 0);
    assert_eq!(s.units.len(), 1);
    assert_eq!(s.units[0].name, "Half Adder");
    let latch = s.sr_latch(&mut g, a, b);
    let id2 = s.add_unit(latch);
    assert_eq!(id2.0, 1);
    assert_eq!(s.units[1].name, "SR Latch");
}

fn parts(t: &[TitlePart]) -> Vec<(String, Ink, bool)> {
    t.iter().map(|p| (p.text.clone(), p.ink, p.bold)).collect()
}

#[test]
fn drawing_title_upper_cases_the_label() {
    let mut g = SignalGraph::new();
    let a = g.add_signal(Some("A"));
    let b = g.add_signal(Some("B"));
    let d = g.xnor(a, b);
    let l = layout_gate(&g, &d, "xnor");
    let w = TopologyWidget { graph: &g, layout: &l };
    assert_eq!(
        parts(&w.title()),
        vec![
            (" SEMSCAN // ".to_string(), Ink::SilkEtch, false),
            ("XNOR".to_string(), Ink::AccentGold, true),
        ]
    );
}

#[test]
fn drawing_title_keeps_what_it_is_given() {
    assert_eq!(
        parts(&drawing_title("Nand".to_string())),
        vec![
            (" SEMSCAN // ".to_string(), Ink::SilkEtch, false),
            ("Nand".to_string(), Ink::AccentGold, true),
        ]
    );
}

#[test]
fn signal_panel_title_and_border() {
    let g = SignalGraph::new();
    let panel = SignalPanel { graph: &g };
    assert_eq!(parts(&panel.title()), vec![(" SIGNALS ".to_string(), Ink::LabelGold, false)]);
    assert_eq!(panel.border_ink(), Ink::PanelBorder);
}

/// A graph built field by field: no rails, a stale evaluation order and
/// transistors added since (dirty).
fn bare_inverter() -> SignalGraph {
    SignalGraph {
        signals: vec![Floating, Floating, Floating],
        driven: vec![Some(High), Some(Low), None],
        signal_names: Vec::new(),
        sequential: Vec::new(),
        kinds: vec![TransistorKind::PMOS],
        gates: vec![SignalId(1)],
        sources: vec![SignalId(0)],
        drains: vec![SignalId(2)],
        eval_order: vec![TransistorId(7)],
        dirty: true,
        capacitors: Vec::new(),
        cycle_count: 0,
    }
}

#[test]
fn propagate_rebuilds_a_stale_order_without_rails() {
    let mut g = bare_inverter();
    assert!(!g.well_formed());
    assert!(g.ready_to_propagate());
    g.propagate();
    assert_eq!(g.signals, vec![High, Low, High]);
    assert_eq!(g.eval_order, vec![TransistorId(0)]);
    assert!(!g.dirty);
    assert!(g.ready_to_propagate());
}

#[test]
fn a_stale_order_is_refused_once_clean() {
    let mut g = bare_inverter();
    g.dirty = false;
    assert!(!g.ready_to_propagate());
    assert!(!g.order_in_range());
    assert!(g.wires_well_formed());
    g.drains[0] = SignalId(3);
    assert!(!g.wires_well_formed());
}

#[test]
fn combinational_results_do_not_depend_on_earlier_states() {
    let mut g1 = SignalGraph::new();
    let a = g1.add_signal(Some("A"));
    let b = g1.add_signal(Some("B"));
    g1.nand(a, b);
    g1.drive(a, Some(High));
    g1.drive(b, Some(Low));
    g1.propagate();
    let settled = g1.signals.clone();
    // scramble every wire and settle again
    for i in 0..g1.signals.len() {
        g1.signals[i] = STATES[i % 4];
    }
    g1.propagate();
    assert_eq!(g1.signals, settled);
    assert_eq!(g1.signals[4], High);
}

#[test]
fn a_released_sequential_wire_holds_its_state() {
    let mut g = SignalGraph::new();
    let q = g.add_sequential_signal(Some("Q"));
    let p = g.add_signal(Some("P"));
    g.drive(q, Some(High));
    g.drive(p, Some(High));
    g.propagate();
    g.drive(q, None);
    g.drive(p, None);
    g.propagate();
    assert_eq!(g.signals[q.0], High);
    assert_eq!(g.signals[p.0], Floating);
}

#[test]
fn a_gate_fed_by_a_held_wire_sees_its_state() {
    let mut g = SignalGraph::new();
    let q = g.add_sequential_signal(Some("Q"));
    let d = g.not(q);
    g.drive(q, Some(High));
    g.propagate();
    assert_eq!(g.signals[d.output.0], Low);
    g.drive(q, None);
    g.propagate();
    assert_eq!(g.signals[q.0], High);
    assert_eq!(g.signals[d.output.0], Low);
}

#[test]
fn clock_follows_its_triangle() {
    let mut g = SignalGraph::new();
    let clk = g.add_clock(4);
    g.propagate();
    for m in 1..=20u32 {
        g.tick();
        let j = m % 8;
        let charge = if j <= 4 { j } else { 8 - j };
        let cap = g.capacitors[clk.0].clone().unwrap();
        assert_eq!(cap.charge as u32, charge, "tick {}", m);
        assert_eq!(cap.charging, j < 4, "tick {}", m);
        let level = if charge >= 2 { High } else { Low };
        assert_eq!(g.signals[clk.0], level, "tick {}", m);
    }
}

#[test]
fn clocks_ok_rejects_a_clock_past_the_wires() {
    let mut g = SignalGraph::new();
    g.capacitors.push(None);
    g.capacitors.push(Some(CapacitorState { charge: 0, threshold: 1, period: 2, charging: true }));
    assert!(!g.clocks_ok());
}

#[test]
fn wide_or_computes_or_in_kahn_order() {
    for (x, y) in [(false, false), (false, true), (true, false), (true, true)] {
        let mut g = SignalGraph::new();
        let a = g.add_signal(Some("A"));
        let b = g.add_signal(Some("B"));
        let d = g.or(a, b, false);
        assert_eq!(d.output, SignalId(6));
        g.drive(a, Some(if x { High } else { Low }));
        g.drive(b, Some(if y { High } else { Low }));
        g.propagate();
        let ids: Vec<usize> = g.eval_order.iter().map(|t| t.0).collect();
        assert_eq!(ids, vec![0, 1, 2, 3, 4, 6, 5, 7]);
        assert_eq!(g.signals[6], if x || y { High } else { Low });
    }
}

#[test]
fn latch_holds_what_it_stored() {
    for (held, other) in [(High, Low), (Low, High)] {
        let mut g = SignalGraph::new();
        let mut s = Schematic::new();
        let set = g.add_signal(Some("SET"));
        let reset = g.add_signal(Some("RESET"));
        let latch = s.sr_latch(&mut g, set, reset);
        let (q, nq) = (latch.outputs[0], latch.outputs[1]);
        g.drive(set, Some(High));
        g.drive(reset, Some(High));
        g.signals[q.0] = held;
        g.signals[nq.0] = other;
        g.propagate();
        assert_eq!(g.signals[q.0], held);
        assert_eq!(g.signals[nq.0], other);
        // set, then reset, from that state
        g.drive(set, Some(Low));
        g.propagate();
        assert_eq!((g.signals[q.0], g.signals[nq.0]), (High, Low));
        g.drive(set, Some(High));
        g.drive(reset, Some(Low));
        g.propagate();
        assert_eq!((g.signals[q.0], g.signals[nq.0]), (Low, High));
    }
}

#[test]
fn separately_built_circuits_settle_alike() {
    let build = || {
        let mut g = SignalGraph::new();
        let a = g.add_signal(Some("A"));
        let b = g.add_signal(Some("B"));
        let d = g.xor(a, b);
        g.drive(a, Some(High));
        g.drive(b, Some(Low));
        (g, d.output)
    };
    let (mut g1, out) = build();
    let (mut g2, _) = build();
    for i in 0..g2.signals.len() {
        g2.signals[i] = STATES[(i + 1) % 4];
    }
    g1.propagate();
    g2.propagate();
    assert_eq!(g1.eval_order, g2.eval_order);
    assert_eq!(g1.signals, g2.signals);
    assert_eq!(g1.signals[out.0], High);
}

#[test]
fn clusters_list_their_members_breadth_first() {
    let mut g = SignalGraph::new();
    let a = g.add_signal(Some("A"));
    let b = g.add_signal(Some("B"));
    g.nand(a, b);
    // from the bottom NMOS: its neighbours on B and on the link, then the rest
    assert_eq!(find_clusters(&g, &[3, 2, 1, 0]), vec![vec![3, 1, 2, 0]]);
}

#[test]
fn lone_xor_and_xnor_follow_kahns_queue() {
    for xnor in [false, true] {
        for (x, y) in [(false, false), (false, true), (true, false), (true, true)] {
            let mut g = SignalGraph::new();
            let a = g.add_signal(Some("A"));
            let b = g.add_signal(Some("B"));
            let d = if xnor { g.xnor(a, b) } else { g.xor(a, b) };
            g.drive(a, Some(if x { High } else { Low }));
            g.drive(b, Some(if y { High } else { Low }));
            g.propagate();
            let ids: Vec<usize> = g.eval_order.iter().map(|t| t.0).collect();
            let mut expected = vec![0, 1, 2, 3, 4, 6, 8, 10, 5, 7, 9, 11, 12, 14, 13, 15];
            if xnor {
                expected.extend([16, 17]);
            }
            assert_eq!(ids, expected);
            assert_eq!(d.output, SignalId(if xnor { 12 } else { 10 }));
            assert_eq!(g.signals[d.output.0], if (x != y) != xnor { High } else { Low });
        }
    }
}

#[test]
fn lone_half_adder_and_mux_compute() {
    for (x, y) in [(false, false), (false, true), (true, false), (true, true)] {
        let lv = |b: bool| if b { High } else { Low };
        let mut g = SignalGraph::new();
        let mut s = Schematic::new();
        let a = g.add_signal(Some("A"));
        let b = g.add_signal(Some("B"));
        let ha = s.half_adder(&mut g, a, b);
        g.drive(a, Some(lv(x)));
        g.drive(b, Some(lv(y)));
        g.propagate();
        assert_eq!((ha.outputs[0], ha.outputs[1]), (SignalId(10), SignalId(14)));
        assert_eq!(g.signals[10], lv(x != y));
        assert_eq!(g.signals[14], lv(x && y));
        for z in [false, true] {
            let mut g = SignalGraph::new();
            let mut s = Schematic::new();
            let a = g.add_signal(Some("A"));
            let b = g.add_signal(Some("B"));
            let sel = g.add_signal(Some("S"));
            let m = s.mux_2to1(&mut g, a, b, sel);
            g.drive(a, Some(lv(x)));
            g.drive(b, Some(lv(y)));
            g.drive(sel, Some(lv(z)));
            g.propagate();
            assert_eq!(m.outputs[0], SignalId(14));
            assert_eq!(g.signals[14], lv(if z { y } else { x }));
        }
    }
}
