use vstd::prelude::*;
use vstd::utf8::encode_utf8;

use crate::render::canvas::{
    bordered_inner, bordered_inner_spec, strokes_view, titles_view, wire_ink, wire_ink_spec, Area,
    Ink, Stroke, StrokeView, TitlePart, TitlePartView,
};
use crate::sim::transistor::{GateDescriptor, SignalGraph, SignalId, SignalState, TransistorKind};

verus! {

/// A transistor placed in a cluster drawing: PMOS sit side by side in a
/// row (`col`), NMOS are stacked in a column (`row`).
#[derive(Clone, Copy)]
pub struct TransistorNode {
    pub id: usize,
    pub col: u16,
    pub row: u16,
    pub gate_signal: SignalId,
    pub vertical_in: SignalId,
    pub vertical_out: SignalId,
    pub kind: TransistorKind,
}

/// The drawing plan of a gate: its label, its CMOS clusters and its output.
pub struct GateLayout {
    pub label: String,
    pub clusters: Vec<ClusterLayout>,
    pub output_signal: SignalId,
}

/// One CMOS cluster: the pull-up PMOS row and the pull-down NMOS stack.
pub struct ClusterLayout {
    pub output: SignalId,
    pub pmos: Vec<TransistorNode>,
    pub nmos: Vec<TransistorNode>,
}

/// The entries of `ts[0..k]` whose transistor is of `kind`, in order.
pub open spec fn of_kind(g: SignalGraph, ts: Seq<usize>, kind: TransistorKind, k: nat) -> Seq<usize>
    decreases k,
{
    if k == 0 {
        Seq::empty()
    } else {
        let prev = of_kind(g, ts, kind, (k - 1) as nat);
        if g.kinds@[ts[k - 1] as int] == kind {
            prev.push(ts[k - 1])
        } else {
            prev
        }
    }
}

/// The first transistor of `nmos` that drains into `s`.
pub open spec fn first_draining(g: SignalGraph, nmos: Seq<usize>, s: SignalId) -> Option<usize>
    decreases nmos.len(),
{
    if nmos.len() == 0 {
        None
    } else if g.drains@[nmos[0] as int] == s {
        Some(nmos[0])
    } else {
        first_draining(g, nmos.drop_first(), s)
    }
}

/// The NMOS stack walked down from `s`: the first NMOS draining into `s`,
/// then the first draining into that one's source, and so on, for at most
/// `fuel` steps.
pub open spec fn nmos_walk(g: SignalGraph, nmos: Seq<usize>, s: SignalId, fuel: nat) -> Seq<usize>
    decreases fuel,
{
    if fuel == 0 {
        Seq::empty()
    } else {
        match first_draining(g, nmos, s) {
            None => Seq::empty(),
            Some(id) => seq![id] + nmos_walk(g, nmos, g.sources@[id as int], (fuel - 1) as nat),
        }
    }
}

/// The walk from `s` reaches a signal no NMOS drains into within `fuel` steps.
pub open spec fn nmos_walk_ends(g: SignalGraph, nmos: Seq<usize>, s: SignalId, fuel: nat) -> bool
    decreases fuel,
{
    fuel > 0 && match first_draining(g, nmos, s) {
        None => true,
        Some(id) => nmos_walk_ends(g, nmos, g.sources@[id as int], (fuel - 1) as nat),
    }
}

pub open spec fn pmos_of(g: SignalGraph, ts: Seq<usize>) -> Seq<usize> {
    of_kind(g, ts, TransistorKind::PMOS, ts.len())
}

pub open spec fn nmos_of(g: SignalGraph, ts: Seq<usize>) -> Seq<usize> {
    of_kind(g, ts, TransistorKind::NMOS, ts.len())
}

/// The cluster's output: the drain of its first PMOS, or GND without one.
pub open spec fn cluster_output(g: SignalGraph, ts: Seq<usize>) -> SignalId {
    if pmos_of(g, ts).len() > 0 {
        g.drains@[pmos_of(g, ts)[0] as int]
    } else {
        SignalId(1)
    }
}

/// A cluster can be laid out: its transistors exist and the NMOS stack
/// walked down from the output ends (a walk that ends does so within one
/// step per NMOS, plus the last look-up).
pub open spec fn cluster_ready(g: SignalGraph, ts: Seq<usize>) -> bool {
    &&& forall|p: int| 0 <= p < ts.len() ==> #[trigger] ts[p] < g.kinds@.len()
    &&& nmos_walk_ends(g, nmos_of(g, ts), cluster_output(g, ts), nmos_of(g, ts).len() + 1)
}

/// The NMOS stack of a cluster, top (next to the output) first.
pub open spec fn nmos_stack(g: SignalGraph, ts: Seq<usize>) -> Seq<usize> {
    nmos_walk(g, nmos_of(g, ts), cluster_output(g, ts), nmos_of(g, ts).len() + 1)
}

pub open spec fn pmos_node(g: SignalGraph, id: usize, col: int) -> TransistorNode {
    TransistorNode {
        id,
        kind: TransistorKind::PMOS,
        gate_signal: g.gates@[id as int],
        vertical_in: g.sources@[id as int],
        vertical_out: g.drains@[id as int],
        col: col as u16,
        row: 0,
    }
}

pub open spec fn nmos_node(g: SignalGraph, id: usize, row: int) -> TransistorNode {
    TransistorNode {
        id,
        kind: TransistorKind::NMOS,
        gate_signal: g.gates@[id as int],
        vertical_in: g.drains@[id as int],
        vertical_out: g.sources@[id as int],
        col: 0,
        row: row as u16,
    }
}

/// `c` is the layout of the cluster made of `ts`: the output, every PMOS in
/// list order in its own column, and the NMOS stack in its own rows.
pub open spec fn is_cluster_layout(g: SignalGraph, ts: Seq<usize>, c: ClusterLayout) -> bool {
    &&& c.output == cluster_output(g, ts)
    &&& c.pmos@.len() == pmos_of(g, ts).len()
    &&& forall|i: int| 0 <= i < c.pmos@.len() ==> #[trigger] c.pmos@[i] == pmos_node(g, pmos_of(g, ts)[i], i)
    &&& c.nmos@.len() == nmos_stack(g, ts).len()
    &&& forall|i: int| 0 <= i < c.nmos@.len() ==> #[trigger] c.nmos@[i] == nmos_node(g, nmos_stack(g, ts)[i], i)
}


/// The first transistor of `nmos` that drains into `s`.
fn find_draining(graph: &SignalGraph, nmos: &Vec<usize>, s: SignalId) -> (r: Option<usize>)
    requires
        graph.wf(),
        forall|i: int| 0 <= i < nmos@.len() ==> #[trigger] nmos@[i] < graph.kinds@.len(),
    ensures
        r == first_draining(*graph, nmos@, s),
{
    let ghost g = *graph;
    assert(nmos@.skip(0) =~= nmos@);
    for k in 0..nmos.len()
        invariant
            graph.wf(),
            g == *graph,
            forall|i: int| 0 <= i < nmos@.len() ==> #[trigger] nmos@[i] < graph.kinds@.len(),
            first_draining(g, nmos@, s) == first_draining(g, nmos@.skip(k as int), s),
    {
        let id = nmos[k];
        assert(nmos@.skip(k as int)[0] == id);
        assert(nmos@.skip(k as int).drop_first() =~= nmos@.skip(k + 1));
        if graph.drains[id] == s {
            return Some(id);
        }
    }
    assert(nmos@.skip(nmos@.len() as int) =~= Seq::<usize>::empty());
    None
}

/// Lays out one CMOS cluster: PMOS in list order become columns, and the
/// NMOS stack is walked down from the output (the drain of the first PMOS,
/// or GND without one) by repeatedly taking the first NMOS that drains into
/// the current wire and moving to its source.
fn layout_cluster(graph: &SignalGraph, transistors: &[usize]) -> (c: ClusterLayout)
    requires
        graph.wf(),
        cluster_ready(*graph, transistors@),
    ensures
        is_cluster_layout(*graph, transistors@, c),
{
    let ghost g = *graph;
    let ghost ts = transistors@;
    let n = graph.kinds.len();
    let mut pmos_ids: Vec<usize> = Vec::new();
    let mut nmos_ids: Vec<usize> = Vec::new();
    for k in 0..transistors.len()
        invariant
            graph.wf(),
            g == *graph,
            ts == transistors@,
            n == graph.kinds@.len(),
            forall|p: int| 0 <= p < ts.len() ==> #[trigger] ts[p] < n,
            pmos_ids@ == of_kind(g, ts, TransistorKind::PMOS, k as nat),
            nmos_ids@ == of_kind(g, ts, TransistorKind::NMOS, k as nat),
            forall|i: int| 0 <= i < pmos_ids@.len() ==> #[trigger] pmos_ids@[i] < n,
            forall|i: int| 0 <= i < nmos_ids@.len() ==> #[trigger] nmos_ids@[i] < n,
    {
        let id = transistors[k];
        if graph.kinds[id] == TransistorKind::PMOS {
            pmos_ids.push(id);
        } else {
            nmos_ids.push(id);
        }
    }
    assert(ts.take(ts.len() as int) =~= ts);
    let output = if pmos_ids.len() > 0 {
        graph.drains[pmos_ids[0]]
    } else {
        SignalId(1)
    };

    let mut nmos_ordered: Vec<usize> = Vec::new();
    let mut current = output;
    let ghost total = nmos_ids@.len() + 1;
    let ghost mut fuel: nat = total;
    loop
        invariant
            graph.wf(),
            g == *graph,
            n == graph.kinds@.len(),
            forall|i: int| 0 <= i < nmos_ids@.len() ==> #[trigger] nmos_ids@[i] < n,
            nmos_walk_ends(g, nmos_ids@, current, fuel),
            nmos_ordered@ + nmos_walk(g, nmos_ids@, current, fuel) == nmos_walk(g, nmos_ids@, output, total),
            forall|i: int| 0 <= i < nmos_ordered@.len() ==> #[trigger] nmos_ordered@[i] < n,
        ensures
            nmos_ordered@ == nmos_walk(g, nmos_ids@, output, total),
            forall|i: int| 0 <= i < nmos_ordered@.len() ==> #[trigger] nmos_ordered@[i] < n,
        decreases fuel,
    {
        let next = find_draining(graph, &nmos_ids, current);
        match next {
            Some(id) => {
                proof {
                    lemma_first_draining_in(g, nmos_ids@, current);
                    assert(nmos_ordered@.push(id) + nmos_walk(g, nmos_ids@, g.sources@[id as int], (fuel - 1) as nat)
                        =~= nmos_ordered@ + nmos_walk(g, nmos_ids@, current, fuel));
                    fuel = (fuel - 1) as nat;
                }
                nmos_ordered.push(id);
                current = graph.sources[id];
            },
            None => {
                assert(nmos_ordered@ + Seq::<usize>::empty() =~= nmos_ordered@);
                break;
            },
        }
    }

    let mut pmos: Vec<TransistorNode> = Vec::new();
    for col in 0..pmos_ids.len()
        invariant
            graph.wf(),
            g == *graph,
            forall|i: int| 0 <= i < pmos_ids@.len() ==> #[trigger] pmos_ids@[i] < n,
            n == graph.kinds@.len(),
            pmos@.len() == col,
            forall|i: int| 0 <= i < col ==> #[trigger] pmos@[i] == pmos_node(g, pmos_ids@[i], i),
    {
        let id = pmos_ids[col];
        pmos.push(TransistorNode {
            id,
            kind: TransistorKind::PMOS,
            gate_signal: graph.gates[id],
            vertical_in: graph.sources[id],
            vertical_out: graph.drains[id],
            col: col as u16,
            row: 0,
        });
    }
    let mut nmos: Vec<TransistorNode> = Vec::new();
    for row in 0..nmos_ordered.len()
        invariant
            graph.wf(),
            g == *graph,
            forall|i: int| 0 <= i < nmos_ordered@.len() ==> #[trigger] nmos_ordered@[i] < n,
            n == graph.kinds@.len(),
            nmos@.len() == row,
            forall|i: int| 0 <= i < row ==> #[trigger] nmos@[i] == nmos_node(g, nmos_ordered@[i], i),
    {
        let id = nmos_ordered[row];
        nmos.push(TransistorNode {
            id,
            kind: TransistorKind::NMOS,
            gate_signal: graph.gates[id],
            vertical_in: graph.drains[id],
            vertical_out: graph.sources[id],
            col: 0,
            row: row as u16,
        });
    }
    ClusterLayout { output, pmos, nmos }
}

proof fn lemma_first_draining_in(g: SignalGraph, nmos: Seq<usize>, s: SignalId)
    ensures
        first_draining(g, nmos, s) matches Some(id) ==> nmos.contains(id) && g.drains@[id as int] == s,
    decreases nmos.len(),
{
    if nmos.len() > 0 {
        lemma_first_draining_in(g, nmos.drop_first(), s);
        if g.drains@[nmos[0] as int] != s {
            match first_draining(g, nmos.drop_first(), s) {
                Some(id) => {
                    let k = choose|k: int| 0 <= k < nmos.drop_first().len() && nmos.drop_first()[k] == id;
                    assert(nmos[k + 1] == id);
                },
                None => {},
            }
        } else {
            assert(nmos[0] == nmos[0]);
        }
    }
}


proof fn lemma_of_kind(g: SignalGraph, ts: Seq<usize>, kind: TransistorKind, k: nat)
    requires
        k <= ts.len(),
    ensures
        forall|i: int|
            0 <= i < of_kind(g, ts, kind, k).len() ==> ts.contains(#[trigger] of_kind(g, ts, kind, k)[i])
                && g.kinds@[of_kind(g, ts, kind, k)[i] as int] == kind,
    decreases k,
{
    if k > 0 {
        lemma_of_kind(g, ts, kind, (k - 1) as nat);
        let prev = of_kind(g, ts, kind, (k - 1) as nat);
        assert forall|i: int| 0 <= i < of_kind(g, ts, kind, k).len() implies ts.contains(
            #[trigger] of_kind(g, ts, kind, k)[i],
        ) && g.kinds@[of_kind(g, ts, kind, k)[i] as int] == kind by {
            if i < prev.len() {
                assert(of_kind(g, ts, kind, k)[i] == prev[i]);
            } else {
                assert(of_kind(g, ts, kind, k)[i] == ts[k - 1]);
            }
        }
    }
}

proof fn lemma_of_kind_complete(g: SignalGraph, ts: Seq<usize>, kind: TransistorKind, k: nat)
    requires
        k <= ts.len(),
    ensures
        forall|p: int|
            0 <= p < k && g.kinds@[ts[p] as int] == kind ==> of_kind(g, ts, kind, k).contains(#[trigger] ts[p]),
    decreases k,
{
    if k > 0 {
        lemma_of_kind_complete(g, ts, kind, (k - 1) as nat);
        let prev = of_kind(g, ts, kind, (k - 1) as nat);
        assert forall|p: int| 0 <= p < k && g.kinds@[ts[p] as int] == kind implies of_kind(g, ts, kind, k).contains(
            #[trigger] ts[p],
        ) by {
            if p < k - 1 {
                let x = choose|x: int| 0 <= x < prev.len() && prev[x] == ts[p];
                assert(of_kind(g, ts, kind, k)[x] == prev[x]);
            } else {
                assert(of_kind(g, ts, kind, k)[prev.len() as int] == ts[p]);
            }
        }
    }
}

proof fn lemma_nmos_walk(g: SignalGraph, nmos: Seq<usize>, s: SignalId, fuel: nat)
    ensures
        forall|i: int| 0 <= i < nmos_walk(g, nmos, s, fuel).len() ==> nmos.contains(#[trigger] nmos_walk(g, nmos, s, fuel)[i]),
        nmos_walk(g, nmos, s, fuel).len() > 0 ==> g.drains@[nmos_walk(g, nmos, s, fuel)[0] as int] == s,
        forall|i: int, i2: int|
            #![trigger nmos_walk(g, nmos, s, fuel)[i], nmos_walk(g, nmos, s, fuel)[i2]]
            0 <= i && i2 == i + 1 && i2 < nmos_walk(g, nmos, s, fuel).len() ==> g.drains@[nmos_walk(g, nmos, s, fuel)[i2] as int]
                == g.sources@[nmos_walk(g, nmos, s, fuel)[i] as int],
    decreases fuel,
{
    if fuel > 0 {
        lemma_first_draining_in(g, nmos, s);
        match first_draining(g, nmos, s) {
            None => {},
            Some(id) => {
                let rest = nmos_walk(g, nmos, g.sources@[id as int], (fuel - 1) as nat);
                lemma_nmos_walk(g, nmos, g.sources@[id as int], (fuel - 1) as nat);
                let w = nmos_walk(g, nmos, s, fuel);
                assert(w == seq![id] + rest);
                assert forall|i: int| 0 <= i < w.len() implies nmos.contains(#[trigger] w[i]) by {
                    if i > 0 {
                        assert(w[i] == rest[i - 1]);
                    }
                }
                assert forall|i: int, i2: int|
                    #![trigger w[i], w[i2]]
                    0 <= i && i2 == i + 1 && i2 < w.len() implies g.drains@[w[i2] as int] == g.sources@[w[i] as int] by {
                    assert(w[i2] == rest[i2 - 1]);
                    if i > 0 {
                        assert(w[i] == rest[i - 1]);
                    }
                }
            },
        }
    }
}

/// `node` is transistor `node.id` of the cluster made of `ts`, drawn with
/// that transistor's own wires: its gate bar on the transistor's gate, a
/// PMOS from its source down to its drain, an NMOS from its drain down to
/// its source.
pub open spec fn shows_own_transistor(g: SignalGraph, ts: Seq<usize>, node: TransistorNode, kind: TransistorKind) -> bool {
    &&& ts.contains(node.id)
    &&& node.kind == kind
    &&& g.kinds@[node.id as int] == kind
    &&& node.gate_signal == g.gates@[node.id as int]
    &&& kind == TransistorKind::PMOS ==> node.vertical_in == g.sources@[node.id as int] && node.vertical_out
        == g.drains@[node.id as int]
    &&& kind == TransistorKind::NMOS ==> node.vertical_in == g.drains@[node.id as int] && node.vertical_out
        == g.sources@[node.id as int]
}

/// Every node of a gate's layout shows its own transistor of its own
/// cluster: each PMOS column and each NMOS row is gated by that
/// transistor's gate wire and spans its own source and drain. Every PMOS
/// of the cluster has a column, the `i`-th node sits in column (PMOS) or
/// row (NMOS) `i`, the NMOS stack hangs from the cluster's output, each row
/// draining into the source of the row above, and with PMOS the output is
/// the first PMOS's drain.
pub proof fn lemma_layout_nodes_own_transistors(
    g: SignalGraph,
    lists: Seq<Seq<usize>>,
    cs: Seq<ClusterLayout>,
    c: int,
)
    requires
        are_cluster_layouts(g, lists, cs),
        0 <= c < cs.len(),
    ensures
        forall|i: int|
            0 <= i < cs[c].pmos@.len() ==> shows_own_transistor(g, lists[c], #[trigger] cs[c].pmos@[i], TransistorKind::PMOS),
        forall|i: int|
            0 <= i < cs[c].nmos@.len() ==> shows_own_transistor(g, lists[c], #[trigger] cs[c].nmos@[i], TransistorKind::NMOS),
        forall|p: int|
            0 <= p < lists[c].len() && g.kinds@[lists[c][p] as int] == TransistorKind::PMOS ==> exists|i: int|
                0 <= i < cs[c].pmos@.len() && (#[trigger] cs[c].pmos@[i]).id == #[trigger] lists[c][p],
        forall|i: int| 0 <= i < cs[c].pmos@.len() ==> (#[trigger] cs[c].pmos@[i]).col == i as u16,
        forall|i: int| 0 <= i < cs[c].nmos@.len() ==> (#[trigger] cs[c].nmos@[i]).row == i as u16,
        cs[c].pmos@.len() > 0 ==> cs[c].output == cs[c].pmos@[0].vertical_out,
        cs[c].nmos@.len() > 0 ==> cs[c].nmos@[0].vertical_in == cs[c].output,
        forall|i: int, i2: int|
            #![trigger cs[c].nmos@[i], cs[c].nmos@[i2]]
            0 <= i && i2 == i + 1 && i2 < cs[c].nmos@.len() ==> cs[c].nmos@[i2].vertical_in == cs[c].nmos@[i].vertical_out,
{
    let ts = lists[c];
    let cl = cs[c];
    assert(is_cluster_layout(g, ts, cl));
    lemma_of_kind(g, ts, TransistorKind::PMOS, ts.len());
    lemma_of_kind(g, ts, TransistorKind::NMOS, ts.len());
    lemma_of_kind_complete(g, ts, TransistorKind::PMOS, ts.len());
    let pm = pmos_of(g, ts);
    assert forall|p: int|
        0 <= p < ts.len() && g.kinds@[ts[p] as int] == TransistorKind::PMOS implies exists|i: int|
            0 <= i < cl.pmos@.len() && (#[trigger] cl.pmos@[i]).id == #[trigger] ts[p] by {
        let x = choose|x: int| 0 <= x < pm.len() && pm[x] == ts[p];
        assert(cl.pmos@[x] == pmos_node(g, pm[x], x));
    }
    assert forall|i: int| 0 <= i < cl.pmos@.len() implies (#[trigger] cl.pmos@[i]).col == i as u16 by {
        assert(cl.pmos@[i] == pmos_node(g, pm[i], i));
    }
    let nm = nmos_of(g, ts);
    let w = nmos_stack(g, ts);
    lemma_nmos_walk(g, nm, cluster_output(g, ts), nm.len() + 1);
    assert forall|i: int| 0 <= i < cl.pmos@.len() implies shows_own_transistor(
        g,
        ts,
        #[trigger] cl.pmos@[i],
        TransistorKind::PMOS,
    ) by {
        assert(cl.pmos@[i] == pmos_node(g, pmos_of(g, ts)[i], i));
    }
    assert forall|i: int| 0 <= i < cl.nmos@.len() implies shows_own_transistor(
        g,
        ts,
        #[trigger] cl.nmos@[i],
        TransistorKind::NMOS,
    ) by {
        assert(cl.nmos@[i] == nmos_node(g, w[i], i));
        assert(cl.nmos@[i].row == i as u16);
        assert(nm.contains(w[i]));
        let k = choose|k: int| 0 <= k < nm.len() && nm[k] == w[i];
        assert(ts.contains(nm[k]));
    }
    if cl.pmos@.len() > 0 {
        assert(cl.pmos@[0] == pmos_node(g, pmos_of(g, ts)[0], 0));
    }
    if cl.nmos@.len() > 0 {
        assert(cl.nmos@[0] == nmos_node(g, w[0], 0));
    }
    assert forall|i: int, i2: int|
        #![trigger cl.nmos@[i], cl.nmos@[i2]]
        0 <= i && i2 == i + 1 && i2 < cl.nmos@.len() implies cl.nmos@[i2].vertical_in == cl.nmos@[i].vertical_out by {
        assert(cl.nmos@[i] == nmos_node(g, w[i], i));
        assert(cl.nmos@[i2] == nmos_node(g, w[i2], i2));
    }
}


/// The transistor lists of the gates that placed their own transistors, in
/// depth-first order; `None` when some gate has neither transistors nor
/// sub-gates.
pub open spec fn leaf_lists(d: GateDescriptor) -> Option<Seq<Seq<usize>>>
    decreases d, 0nat,
{
    match d.sub_gates {
        None => match d.transistors {
            Some(t) => Some(seq![t@]),
            None => None,
        },
        Some(subs) => leaf_lists_of(subs@, subs@.len()),
    }
}

/// `leaf_lists` of the first `k` gates of `subs`, concatenated.
pub open spec fn leaf_lists_of(subs: Seq<GateDescriptor>, k: nat) -> Option<Seq<Seq<usize>>>
    decreases subs, k,
{
    if k == 0 || k > subs.len() {
        Some(Seq::empty())
    } else {
        match (leaf_lists_of(subs, (k - 1) as nat), leaf_lists(subs[k - 1])) {
            (Some(a), Some(b)) => Some(a + b),
            _ => None,
        }
    }
}

/// Every cluster of the descriptor can be laid out.
pub open spec fn gate_ready(g: SignalGraph, d: GateDescriptor) -> bool {
    &&& leaf_lists(d) is Some
    &&& forall|i: int| 0 <= i < leaf_lists(d)->Some_0.len() ==> cluster_ready(g, #[trigger] leaf_lists(d)->Some_0[i])
}

pub open spec fn are_cluster_layouts(g: SignalGraph, lists: Seq<Seq<usize>>, cs: Seq<ClusterLayout>) -> bool {
    &&& cs.len() == lists.len()
    &&& forall|i: int| 0 <= i < cs.len() ==> is_cluster_layout(g, lists[i], #[trigger] cs[i])
}

/// Flattens a gate descriptor tree into its CMOS clusters, depth first.
fn collect_clusters(graph: &SignalGraph, descriptor: &GateDescriptor) -> (cs: Vec<ClusterLayout>)
    requires
        graph.wf(),
        gate_ready(*graph, *descriptor),
    ensures
        are_cluster_layouts(*graph, leaf_lists(*descriptor)->Some_0, cs@),
    decreases *descriptor,
{
    match &descriptor.sub_gates {
        None => {
            let t = descriptor.transistors.as_ref().unwrap();
            assert(leaf_lists(*descriptor)->Some_0[0] == t@);
            let c = layout_cluster(graph, t.as_slice());
            let v = vec![c];
            assert(v@ =~= seq![c]);
            v
        },
        Some(sub_gates) => {
            let mut out: Vec<ClusterLayout> = Vec::new();
            let ghost subs = sub_gates@;
            for i in 0..sub_gates.len()
                invariant
                    graph.wf(),
                    subs == sub_gates@,
                    descriptor.sub_gates == Some(*sub_gates),
                    gate_ready(*graph, *descriptor),
                    leaf_lists(*descriptor) == leaf_lists_of(subs, subs.len()),
                    leaf_lists_of(subs, i as nat) is Some,
                    are_cluster_layouts(*graph, leaf_lists_of(subs, i as nat)->Some_0, out@),
            {
                proof {
                    lemma_leaf_lists_of_prefix(subs, (i + 1) as nat, subs.len());
                    lemma_leaf_lists_of_ready(*graph, subs, (i + 1) as nat, subs.len());
                    assert(decreases_to!(*descriptor => sub_gates@[i as int]));
                }
                let mut part = collect_clusters(graph, &sub_gates[i]);
                let ghost before = out@;
                let ghost part_v = part@;
                let ghost a = leaf_lists_of(subs, i as nat)->Some_0;
                let ghost b = leaf_lists(subs[i as int])->Some_0;
                out.append(&mut part);
                proof {
                    assert(leaf_lists_of(subs, (i + 1) as nat)->Some_0 == a + b);
                    assert forall|x: int| 0 <= x < out@.len() implies is_cluster_layout(
                        *graph,
                        (a + b)[x],
                        #[trigger] out@[x],
                    ) by {
                        if x < before.len() {
                            assert(out@[x] == before[x]);
                        } else {
                            assert(out@[x] == part_v[x - before.len()]);
                        }
                    }
                }
            }
            out
        },
    }
}

proof fn lemma_leaf_lists_of_prefix(subs: Seq<GateDescriptor>, i: nat, k: nat)
    requires
        i <= k <= subs.len(),
        leaf_lists_of(subs, k) is Some,
    ensures
        leaf_lists_of(subs, i) is Some,
        leaf_lists(subs[i - 1]) is Some || i == 0,
    decreases k - i,
{
    if i < k {
        lemma_leaf_lists_of_prefix(subs, (i + 1) as nat, k);
    }
}

proof fn lemma_leaf_lists_of_ready(g: SignalGraph, subs: Seq<GateDescriptor>, i: nat, k: nat)
    requires
        1 <= i <= k <= subs.len(),
        leaf_lists_of(subs, k) is Some,
        forall|x: int|
            0 <= x < leaf_lists_of(subs, k)->Some_0.len() ==> cluster_ready(g, #[trigger] leaf_lists_of(subs, k)->Some_0[x]),
    ensures
        gate_ready(g, subs[i - 1]),
    decreases k - i,
{
    lemma_leaf_lists_of_prefix(subs, i, k);
    lemma_leaf_lists_of_prefix(subs, (k - 1) as nat, k);
    lemma_leaf_lists_of_prefix(subs, k, k);
    let a = leaf_lists_of(subs, (k - 1) as nat)->Some_0;
    let b = leaf_lists(subs[k - 1])->Some_0;
    assert(leaf_lists_of(subs, k)->Some_0 == a + b);
    if i < k {
        assert forall|x: int| 0 <= x < a.len() implies cluster_ready(g, #[trigger] a[x]) by {
            assert((a + b)[x] == a[x]);
        }
        lemma_leaf_lists_of_ready(g, subs, i, (k - 1) as nat);
    } else {
        assert forall|x: int| 0 <= x < b.len() implies cluster_ready(g, #[trigger] b[x]) by {
            assert((a + b)[a.len() + x] == b[x]);
        }
    }
}

/// The drawing plan of a gate: the label, every CMOS cluster of the
/// descriptor in depth-first order, and its output signal.
pub fn layout_gate(graph: &SignalGraph, descriptor: &GateDescriptor, label: &str) -> (l: GateLayout)
    requires
        graph.wf(),
        gate_ready(*graph, *descriptor),
    ensures
        l.label@ == label@,
        l.output_signal == descriptor.output,
        are_cluster_layouts(*graph, leaf_lists(*descriptor)->Some_0, l.clusters@),
{
    GateLayout {
        label: String::from_str(label),
        clusters: collect_clusters(graph, descriptor),
        output_signal: descriptor.output,
    }
}


/// Whether the cluster made of `ts` can be laid out.
fn cluster_checks(graph: &SignalGraph, ts: &[usize]) -> (b: bool)
    requires
        graph.wf(),
    ensures
        b == cluster_ready(*graph, ts@),
{
    let ghost g = *graph;
    let n = graph.kinds.len();
    for k in 0..ts.len()
        invariant
            n == graph.kinds@.len(),
            forall|p: int| 0 <= p < k ==> #[trigger] ts@[p] < n,
    {
        if ts[k] >= n {
            return false;
        }
    }
    let mut pmos_ids: Vec<usize> = Vec::new();
    let mut nmos_ids: Vec<usize> = Vec::new();
    for k in 0..ts.len()
        invariant
            graph.wf(),
            g == *graph,
            n == graph.kinds@.len(),
            forall|p: int| 0 <= p < ts@.len() ==> #[trigger] ts@[p] < n,
            pmos_ids@ == of_kind(g, ts@, TransistorKind::PMOS, k as nat),
            nmos_ids@ == of_kind(g, ts@, TransistorKind::NMOS, k as nat),
            forall|i: int| 0 <= i < pmos_ids@.len() ==> #[trigger] pmos_ids@[i] < n,
            forall|i: int| 0 <= i < nmos_ids@.len() ==> #[trigger] nmos_ids@[i] < n,
    {
        let id = ts[k];
        if graph.kinds[id] == TransistorKind::PMOS {
            pmos_ids.push(id);
        } else {
            nmos_ids.push(id);
        }
    }
    let output = if pmos_ids.len() > 0 {
        graph.drains[pmos_ids[0]]
    } else {
        SignalId(1)
    };
    let ghost total = nmos_ids@.len() + 1;
    let mut left = nmos_ids.len();
    let mut current = output;
    loop
        invariant
            graph.wf(),
            g == *graph,
            n == graph.kinds@.len(),
            forall|p: int| 0 <= p < ts@.len() ==> #[trigger] ts@[p] < n,
            nmos_ids@ == nmos_of(g, ts@),
            output == cluster_output(g, ts@),
            total == nmos_of(g, ts@).len() + 1,
            forall|i: int| 0 <= i < nmos_ids@.len() ==> #[trigger] nmos_ids@[i] < n,
            nmos_walk_ends(g, nmos_ids@, output, total) == nmos_walk_ends(g, nmos_ids@, current, (left + 1) as nat),
        decreases left,
    {
        match find_draining(graph, &nmos_ids, current) {
            None => {
                return true;
            },
            Some(id) => {
                proof {
                    lemma_first_draining_in(g, nmos_ids@, current);
                }
                if left == 0 {
                    assert(!nmos_walk_ends(g, nmos_ids@, g.sources@[id as int], 0));
                    return false;
                }
                left = left - 1;
                current = graph.sources[id];
            },
        }
    }
}

proof fn lemma_ready_of(g: SignalGraph, subs: Seq<GateDescriptor>, k: nat)
    requires
        k <= subs.len(),
    ensures
        (leaf_lists_of(subs, k) is Some && forall|x: int|
            0 <= x < leaf_lists_of(subs, k)->Some_0.len() ==> cluster_ready(g, #[trigger] leaf_lists_of(subs, k)->Some_0[x]))
            <==> (forall|i: int| 0 <= i < k ==> gate_ready(g, #[trigger] subs[i])),
    decreases k,
{
    if k > 0 {
        lemma_ready_of(g, subs, (k - 1) as nat);
        let pa = leaf_lists_of(subs, (k - 1) as nat);
        let pb = leaf_lists(subs[k - 1]);
        if pa is Some && pb is Some {
            let a = pa->Some_0;
            let b = pb->Some_0;
            assert(leaf_lists_of(subs, k)->Some_0 == a + b);
            if forall|x: int| 0 <= x < (a + b).len() ==> cluster_ready(g, #[trigger] (a + b)[x]) {
                assert forall|x: int| 0 <= x < a.len() implies cluster_ready(g, #[trigger] a[x]) by {
                    assert((a + b)[x] == a[x]);
                }
                assert forall|x: int| 0 <= x < b.len() implies cluster_ready(g, #[trigger] b[x]) by {
                    assert((a + b)[a.len() + x] == b[x]);
                }
                assert forall|i: int| 0 <= i < k implies gate_ready(g, #[trigger] subs[i]) by {
                    if i == k - 1 {
                    } else {
                    }
                }
            }
            if forall|i: int| 0 <= i < k ==> gate_ready(g, #[trigger] subs[i]) {
                assert(gate_ready(g, subs[k - 1]));
                assert forall|i: int| 0 <= i < k - 1 implies gate_ready(g, #[trigger] subs[i]) by {
                    assert(gate_ready(g, subs[i]));
                }
                assert forall|x: int| 0 <= x < (a + b).len() implies cluster_ready(g, #[trigger] (a + b)[x]) by {
                    if x < a.len() {
                        assert((a + b)[x] == a[x]);
                    } else {
                        assert((a + b)[x] == b[x - a.len()]);
                    }
                }
            }
        } else {
            if pa is None {
                assert(!(forall|i: int| 0 <= i < k - 1 ==> gate_ready(g, #[trigger] subs[i])));
            } else {
                assert(!gate_ready(g, subs[k - 1]));
            }
        }
    }
}

/// Whether every CMOS cluster of a gate can be laid out on `graph`: each
/// gate places transistors or is made of sub-gates, the transistors exist,
/// and each NMOS stack ends.
pub fn layout_ready(graph: &SignalGraph, descriptor: &GateDescriptor) -> (b: bool)
    requires
        graph.wf(),
    ensures
        b == gate_ready(*graph, *descriptor),
    decreases *descriptor,
{
    match &descriptor.sub_gates {
        None => match &descriptor.transistors {
            Some(t) => {
                let b = cluster_checks(graph, t.as_slice());
                let ghost lists = leaf_lists(*descriptor)->Some_0;
                assert(lists =~= seq![t@]);
                if b {
                    assert forall|i: int| 0 <= i < lists.len() implies cluster_ready(*graph, #[trigger] lists[i]) by {
                        assert(lists[i] == t@);
                    }
                } else {
                    assert(!cluster_ready(*graph, lists[0]));
                }
                b
            },
            None => false,
        },
        Some(sub_gates) => {
            let ghost subs = sub_gates@;
            proof {
                lemma_ready_of(*graph, subs, subs.len());
            }
            for i in 0..sub_gates.len()
                invariant
                    graph.wf(),
                    subs == sub_gates@,
                    descriptor.sub_gates == Some(*sub_gates),
                    forall|j: int| 0 <= j < i ==> gate_ready(*graph, #[trigger] subs[j]),
            {
                proof {
                    assert(decreases_to!(*descriptor => descriptor.sub_gates));
                    assert(decreases_to!(descriptor.sub_gates => descriptor.sub_gates->Some_0));
                    assert(decreases_to!(*sub_gates => sub_gates@));
                    assert(decreases_to!(sub_gates@ => sub_gates@[i as int]));
                    assert(decreases_to!(*descriptor => sub_gates@[i as int]));
                }
                if !layout_ready(graph, &sub_gates[i]) {
                    proof {
                        lemma_ready_of(*graph, subs, subs.len());
                    }
                    return false;
                }
            }
            proof {
                lemma_ready_of(*graph, subs, subs.len());
            }
            true
        },
    }
}


/// A gate drawn as a scanning-electron-microscope view of its silicon.
pub struct TopologyWidget<'a> {
    pub graph: &'a SignalGraph,
    pub layout: &'a GateLayout,
}

pub open spec fn wire_of(g: SignalGraph, s: SignalId) -> Ink {
    wire_ink_spec(g.signals@[s.0 as int])
}

/// The name of signal `id`, or `dflt` when it has none.
pub open spec fn name_of(g: SignalGraph, id: int, dflt: Seq<char>) -> Seq<char> {
    match g.signal_names@[id] {
        Some(s) => s@,
        None => dflt,
    }
}

/// Appends one stroke.
fn push_stroke(out: &mut Vec<Stroke>, x: u16, y: u16, text: &str, ink: Ink, bold: bool)
    ensures
        strokes_view(final(out)@) == strokes_view(old(out)@).push((x, y, text@, ink, bold)),
{
    out.push(Stroke { x, y, text: String::from_str(text), ink, bold });
    assert(strokes_view(out@) =~= strokes_view(old(out)@).push((x, y, text@, ink, bold)));
}

/// The name of signal `id`, or `dflt` when it has none.
fn name_text<'a>(graph: &'a SignalGraph, id: usize, dflt: &'a str) -> (r: &'a str)
    requires
        id < graph.signal_names@.len(),
    ensures
        r@ == name_of(*graph, id as int, dflt@),
{
    match &graph.signal_names[id] {
        Some(s) => s.as_str(),
        None => dflt,
    }
}

/// The right edge of a cluster's PMOS body: gate columns sit every 8
/// cells from column 2.
pub open spec fn body_edge(p: u16) -> int {
    2 + (if p == 0 { 0 } else { p - 1 }) * 8
}

/// The column of the output pillar and NMOS stack: the middle of the body.
pub open spec fn pillar(p: u16) -> int {
    (2 + body_edge(p)) / 2
}

pub open spec fn pcount(c: ClusterLayout) -> u16 {
    c.pmos@.len() as u16
}

pub open spec fn ncount(c: ClusterLayout) -> u16 {
    c.nmos@.len() as u16
}

pub open spec fn xy(x: int, y: int, text: Seq<char>, ink: Ink) -> StrokeView {
    (x as u16, y as u16, text, ink, false)
}

/// VDD taps: a `┳` on the rail and a `┃` below it over every PMOS gate.
#[verifier::opaque]
pub open spec fn vdd_taps(ox: int, oy: int, p: u16, ink: Ink) -> Seq<StrokeView> {
    Seq::new(
        2 * p as nat,
        |k: int|
            if k % 2 == 0 {
                xy(ox + 2 + (k / 2) * 8, oy, "┳"@, ink)
            } else {
                xy(ox + 2 + (k / 2) * 8, oy + 1, "┃"@, ink)
            },
    )
}

/// A `┃` at `row` over every PMOS gate.
#[verifier::opaque]
pub open spec fn pmos_links(ox: int, y: int, p: u16, ink: Ink) -> Seq<StrokeView> {
    Seq::new(p as nat, |i: int| xy(ox + 2 + i * 8, y, "┃"@, ink))
}

/// The PMOS row: gate name left of a `║` gate bar, then a `P`.
#[verifier::opaque]
pub open spec fn pmos_row(g: SignalGraph, c: ClusterLayout, ox: int, oy: int, p: u16, out: Ink) -> Seq<StrokeView> {
    Seq::new(
        3 * p as nat,
        |k: int|
            {
                let i = k / 3;
                let px = ox + 2 + i * 8;
                let gate = c.pmos@[i].gate_signal;
                if k % 3 == 0 {
                    xy(px - 1, oy + 2, name_of(g, gate.0 as int, "?"@), wire_of(g, gate))
                } else if k % 3 == 1 {
                    xy(px, oy + 2, "║"@, wire_of(g, gate))
                } else {
                    xy(px + 1, oy + 2, "P"@, out)
                }
            },
    )
}

/// The bridge joining the PMOS drains, from column 2 to the body's right edge.
#[verifier::opaque]
pub open spec fn bridge(ox: int, oy: int, br: int, ink: Ink) -> Seq<StrokeView> {
    Seq::new((br - 1) as nat, |i: int| xy(ox + 2 + i, oy + 4, "━"@, ink))
}

/// The bridge's joints under each PMOS.
pub open spec fn bridge_joint(p: u16, i: int) -> Seq<char> {
    if p == 1 {
        "┃"@
    } else if i == 0 {
        "┗"@
    } else if i == p - 1 {
        "┛"@
    } else {
        "┻"@
    }
}

#[verifier::opaque]
pub open spec fn bridge_joints(ox: int, oy: int, p: u16, ink: Ink) -> Seq<StrokeView> {
    Seq::new(p as nat, |i: int| xy(ox + 2 + i * 8, oy + 4, bridge_joint(p, i), ink))
}

/// The NMOS stack from transistor `i` down: gate name, `║`, `N`, then a
/// link to the next one, or after the last one a drop to the GND rail.
#[verifier::opaque]
pub open spec fn nmos_strokes(
    g: SignalGraph,
    c: ClusterLayout,
    x: int,
    oy: int,
    n: u16,
    total_h: u16,
    i: int,
) -> Seq<StrokeView>
    decreases n - i,
{
    if i >= n || i < 0 {
        Seq::empty()
    } else {
        let ny = oy + 7 + i * 2;
        let node = c.nmos@[i];
        let gate_ink = wire_of(g, node.gate_signal);
        let head = seq![
            xy(x - 1, ny, name_of(g, node.gate_signal.0 as int, "?"@), gate_ink),
            xy(x, ny, "║"@, gate_ink),
            xy(x + 1, ny, "N"@, gate_ink),
        ];
        if i + 1 < n {
            head + seq![xy(x, ny + 1, "┃"@, wire_of(g, node.vertical_out))] + nmos_strokes(
                g,
                c,
                x,
                oy,
                n,
                total_h,
                i + 1,
            )
        } else {
            let rail = oy + total_h - 1;
            let gnd = wire_of(g, SignalId(1));
            head + Seq::new((rail - (ny + 1)) as nat, |k: int| xy(x, ny + 1 + k, "┃"@, gnd)) + seq![
                xy(x, rail, "┻"@, gnd),
            ]
        }
    }
}

/// One CMOS cluster drawn with its top-left corner at (`ox`, `oy`).
pub open spec fn cluster_strokes(g: SignalGraph, c: ClusterLayout, ox: int, oy: int, total_h: u16) -> Seq<StrokeView> {
    let vdd = wire_of(g, SignalId(0));
    let out = wire_of(g, c.output);
    let p = pcount(c);
    let x = ox + pillar(p);
    vdd_taps(ox, oy, p, vdd) + pmos_links(ox, oy + 1, p, vdd) + pmos_row(g, c, ox, oy, p, out) + pmos_links(
        ox,
        oy + 3,
        p,
        out,
    ) + bridge(ox, oy, body_edge(p), out) + bridge_joints(ox, oy, p, out) + (if p > 1 {
        seq![xy(x, oy + 4, "┳"@, out)]
    } else {
        Seq::empty()
    }) + seq![xy(x, oy + 5, "┃"@, out), xy(x, oy + 6, "┃"@, out)] + nmos_strokes(g, c, x, oy, ncount(c), total_h, 0)
}


/// In the drawing of a cluster, PMOS column `i` (its strokes come right
/// after the VDD taps and the links under them, three per column) shows the
/// name of that column's own gate wire just left of its gate bar `║`, both
/// in that wire's colour, and then a `P` in the colour of the output.
pub proof fn lemma_pmos_columns_show_own_gate(g: SignalGraph, c: ClusterLayout, ox: int, oy: int, total_h: u16, i: int)
    requires
        0 <= i < c.pmos@.len() <= u16::MAX,
    ensures
        ({
            let s = cluster_strokes(g, c, ox, oy, total_h);
            let at = 3 * c.pmos@.len() + 3 * i;
            let gate = c.pmos@[i].gate_signal;
            let px = ox + 2 + 8 * i;
            &&& at + 2 < s.len()
            &&& s[at] == xy(px - 1, oy + 2, name_of(g, gate.0 as int, "?"@), wire_of(g, gate))
            &&& s[at + 1] == xy(px, oy + 2, "║"@, wire_of(g, gate))
            &&& s[at + 2] == xy(px + 1, oy + 2, "P"@, wire_of(g, c.output))
        }),
{
    reveal(vdd_taps);
    reveal(pmos_links);
    reveal(pmos_row);
    let p = pcount(c);
    let n = c.pmos@.len() as int;
    assert(p == n);
    let vdd = wire_of(g, SignalId(0));
    let out = wire_of(g, c.output);
    let taps = vdd_taps(ox, oy, p, vdd);
    let links = pmos_links(ox, oy + 1, p, vdd);
    let row = pmos_row(g, c, ox, oy, p, out);
    let head = taps + links + row;
    assert(taps.len() == 2 * n && links.len() == n && row.len() == 3 * n);
    let s = cluster_strokes(g, c, ox, oy, total_h);
    assert(s.len() >= head.len());
    let at = 3 * n + 3 * i;
    assert forall|d: int| 0 <= d < 3 implies s[at + d] == #[trigger] row[3 * i + d] by {
        assert(head[at + d] == row[3 * i + d]);
    }
    assert((3 * i) / 3 == i && (3 * i) % 3 == 0);
    assert((3 * i + 1) / 3 == i && (3 * i + 1) % 3 == 1);
    assert((3 * i + 2) / 3 == i && (3 * i + 2) % 3 == 2);
    assert(s[at] == row[3 * i + 0]);
    assert(s[at + 1] == row[3 * i + 1]);
    assert(s[at + 2] == row[3 * i + 2]);
}


proof fn lemma_nmos_strokes_hold(g: SignalGraph, c: ClusterLayout, x: int, oy: int, n: u16, total_h: u16, i: int, j: int)
    requires
        0 <= i <= j < n,
    ensures
        ({
            let ns = nmos_strokes(g, c, x, oy, n, total_h, i);
            let gate = c.nmos@[j].gate_signal;
            let y = oy + 7 + j * 2;
            &&& ns.contains(xy(x - 1, y, name_of(g, gate.0 as int, "?"@), wire_of(g, gate)))
            &&& ns.contains(xy(x, y, "║"@, wire_of(g, gate)))
            &&& ns.contains(xy(x + 1, y, "N"@, wire_of(g, gate)))
        }),
    decreases j - i,
{
    reveal(nmos_strokes);
    let ns = nmos_strokes(g, c, x, oy, n, total_h, i);
    let node = c.nmos@[i];
    let gate_ink = wire_of(g, node.gate_signal);
    let ny = oy + 7 + i * 2;
    let head = seq![
        xy(x - 1, ny, name_of(g, node.gate_signal.0 as int, "?"@), gate_ink),
        xy(x, ny, "║"@, gate_ink),
        xy(x + 1, ny, "N"@, gate_ink),
    ];
    if i == j {
        if i + 1 < n {
            let rest = seq![xy(x, ny + 1, "┃"@, wire_of(g, node.vertical_out))] + nmos_strokes(g, c, x, oy, n, total_h, i + 1);
            assert(ns == head + rest);
        } else {
            let rail = oy + total_h - 1;
            let gnd = wire_of(g, SignalId(1));
            let rest = Seq::new((rail - (ny + 1)) as nat, |k: int| xy(x, ny + 1 + k, "┃"@, gnd)) + seq![
                xy(x, rail, "┻"@, gnd),
            ];
            assert(ns == head + rest);
        }
        assert(ns[0] == head[0] && ns[1] == head[1] && ns[2] == head[2]);
    } else {
        let link = seq![xy(x, ny + 1, "┃"@, wire_of(g, node.vertical_out))];
        let rec = nmos_strokes(g, c, x, oy, n, total_h, i + 1);
        assert(ns == head + link + rec);
        lemma_nmos_strokes_hold(g, c, x, oy, n, total_h, i + 1, j);
        let gate = c.nmos@[j].gate_signal;
        let y = oy + 7 + j * 2;
        let a = xy(x - 1, y, name_of(g, gate.0 as int, "?"@), wire_of(g, gate));
        let b = xy(x, y, "║"@, wire_of(g, gate));
        let e = xy(x + 1, y, "N"@, wire_of(g, gate));
        let xa = choose|k: int| 0 <= k < rec.len() && rec[k] == a;
        let xb = choose|k: int| 0 <= k < rec.len() && rec[k] == b;
        let xe = choose|k: int| 0 <= k < rec.len() && rec[k] == e;
        assert(ns[4 + xa] == rec[xa]);
        assert(ns[4 + xb] == rec[xb]);
        assert(ns[4 + xe] == rec[xe]);
    }
}

/// In the drawing of a cluster, NMOS row `j` of the stack (two lines per
/// row down the output pillar) shows the name of that row's own gate wire
/// just left of its gate bar `║` and an `N` after it, all in that wire's
/// colour.
pub proof fn lemma_nmos_rows_show_own_gate(g: SignalGraph, c: ClusterLayout, ox: int, oy: int, total_h: u16, j: int)
    requires
        0 <= j < c.nmos@.len() <= u16::MAX,
    ensures
        ({
            let s = cluster_strokes(g, c, ox, oy, total_h);
            let x = ox + pillar(pcount(c));
            let gate = c.nmos@[j].gate_signal;
            let y = oy + 7 + 2 * j;
            &&& s.contains(xy(x - 1, y, name_of(g, gate.0 as int, "?"@), wire_of(g, gate)))
            &&& s.contains(xy(x, y, "║"@, wire_of(g, gate)))
            &&& s.contains(xy(x + 1, y, "N"@, wire_of(g, gate)))
        }),
{
    let vdd = wire_of(g, SignalId(0));
    let out = wire_of(g, c.output);
    let p = pcount(c);
    let x = ox + pillar(p);
    let front = vdd_taps(ox, oy, p, vdd) + pmos_links(ox, oy + 1, p, vdd) + pmos_row(g, c, ox, oy, p, out) + pmos_links(
        ox,
        oy + 3,
        p,
        out,
    ) + bridge(ox, oy, body_edge(p), out) + bridge_joints(ox, oy, p, out) + (if p > 1 {
        seq![xy(x, oy + 4, "┳"@, out)]
    } else {
        Seq::empty()
    }) + seq![xy(x, oy + 5, "┃"@, out), xy(x, oy + 6, "┃"@, out)];
    let ns = nmos_strokes(g, c, x, oy, ncount(c), total_h, 0);
    let s = cluster_strokes(g, c, ox, oy, total_h);
    assert(s == front + ns);
    assert(ncount(c) == c.nmos@.len());
    lemma_nmos_strokes_hold(g, c, x, oy, ncount(c), total_h, 0, j);
    let gate = c.nmos@[j].gate_signal;
    let y = oy + 7 + j * 2;
    assert(y == oy + 7 + 2 * j);
    let a = xy(x - 1, y, name_of(g, gate.0 as int, "?"@), wire_of(g, gate));
    let b = xy(x, y, "║"@, wire_of(g, gate));
    let e = xy(x + 1, y, "N"@, wire_of(g, gate));
    let xa = choose|k: int| 0 <= k < ns.len() && ns[k] == a;
    let xb = choose|k: int| 0 <= k < ns.len() && ns[k] == b;
    let xe = choose|k: int| 0 <= k < ns.len() && ns[k] == e;
    assert(s[front.len() + xa] == ns[xa]);
    assert(s[front.len() + xb] == ns[xb]);
    assert(s[front.len() + xe] == ns[xe]);
}


/// Every signal a cluster layout names exists.
pub open spec fn cluster_refs_ok(g: SignalGraph, c: ClusterLayout) -> bool {
    &&& c.output.0 < g.signals@.len()
    &&& forall|i: int| 0 <= i < c.pmos@.len() ==> (#[trigger] c.pmos@[i]).gate_signal.0 < g.signals@.len()
    &&& forall|i: int|
        0 <= i < c.nmos@.len() ==> (#[trigger] c.nmos@[i]).gate_signal.0 < g.signals@.len()
            && c.nmos@[i].vertical_out.0 < g.signals@.len()
}

/// A cluster drawn at (`ox`, `oy`) keeps every coordinate within u16.
pub open spec fn cluster_fits(c: ClusterLayout, ox: int, oy: int, total_h: u16) -> bool {
    &&& body_edge(pcount(c)) + 3 <= u16::MAX
    &&& ox + body_edge(pcount(c)) + 1 <= u16::MAX
    &&& oy + total_h <= u16::MAX
    &&& 8 + 2 * ncount(c) <= total_h
}

impl<'a> TopologyWidget<'a> {
    /// Draws one CMOS cluster:
    ///
    /// ```text
    ///  ┳━━━━━━━┳        VDD taps
    ///  ┃       ┃        PMOS body
    /// A║P     B║P       gate bars
    ///  ┃       ┃
    ///  ┗━━━┳━━━┛        bridge
    ///      ┃            output drop
    ///     A║N           NMOS gates
    ///      ┃            series link
    ///     B║N
    /// ━━━━━┻━━━━        GND connect
    /// ```
    #[verifier::spinoff_prover]
    #[verifier::rlimit(30)]
    fn render_cluster(&self, out: &mut Vec<Stroke>, cluster: &ClusterLayout, ox: u16, oy: u16, total_h: u16)
        requires
            self.graph.wf(),
            cluster_refs_ok(*self.graph, *cluster),
            cluster_fits(*cluster, ox as int, oy as int, total_h),
        ensures
            strokes_view(final(out)@) == strokes_view(old(out)@) + cluster_strokes(
                *self.graph,
                *cluster,
                ox as int,
                oy as int,
                total_h,
            ),
    {
        let ghost g = *self.graph;
        let ghost c = *cluster;
        let ghost base = strokes_view(out@);
        let vdd_s = wire_ink(self.graph.signals[0]);
        let out_s = wire_ink(self.graph.signals[cluster.output.0]);
        let p_count = cluster.pmos.len() as u16;
        let body_left: u16 = 2;
        let body_right: u16 = body_left + (if p_count > 0 { p_count - 1 } else { 0 }) * 8;
        let nx = (body_left + body_right) / 2;
        assert(p_count == pcount(c) && body_right == body_edge(p_count) && nx == pillar(p_count));

        // VDD taps (row 0), PMOS body rows 1 to 3
        draw_vdd_taps(out, ox, oy, p_count, vdd_s);
        draw_links(out, ox, oy + 1, p_count, vdd_s);
        self.draw_pmos_row(out, cluster, ox, oy, p_count, out_s);
        draw_links(out, ox, oy + 3, p_count, out_s);
        // bridge (row 4)
        draw_bridge(out, ox, oy, body_right, out_s);
        draw_bridge_joints(out, ox, oy, p_count, out_s);
        let ghost s6 = strokes_view(out@);
        // center junction for the output pillar
        if p_count > 1 {
            push_stroke(out, ox + nx, oy + 4, "┳", out_s, false);
        }
        // output pillar into the trench (row 5)
        push_stroke(out, ox + nx, oy + 5, "┃", out_s, false);
        push_stroke(out, ox + nx, oy + 6, "┃", out_s, false);
        let ghost s7 = strokes_view(out@);
        self.render_nmos(out, cluster, ox + nx, oy, total_h, 0);
        proof {
            let p = p_count;
            let x = ox + pillar(p);
            assert(s7 == s6 + (if p > 1 { seq![xy(x, oy + 4, "┳"@, out_s)] } else { Seq::empty() }) + seq![
                xy(x, oy + 5, "┃"@, out_s),
                xy(x, oy + 6, "┃"@, out_s),
            ]);
            assert(strokes_view(out@) =~= base + cluster_strokes(g, c, ox as int, oy as int, total_h));
        }
    }

    /// The PMOS row: gate name, gate bar, `P`.
    fn draw_pmos_row(&self, out: &mut Vec<Stroke>, cluster: &ClusterLayout, ox: u16, oy: u16, p_count: u16, out_s: Ink)
        requires
            self.graph.wf(),
            cluster_refs_ok(*self.graph, *cluster),
            p_count == pcount(*cluster),
            ox + body_edge(p_count) + 1 <= u16::MAX,
            oy + 8 <= u16::MAX,
        ensures
            strokes_view(final(out)@) == strokes_view(old(out)@) + pmos_row(
                *self.graph,
                *cluster,
                ox as int,
                oy as int,
                p_count,
                out_s,
            ),
    {
        let ghost g = *self.graph;
        let ghost c = *cluster;
        reveal(pmos_row);
        let ghost s2 = strokes_view(out@);
        for i in 0..p_count
            invariant
                strokes_view(out@) == s2 + pmos_row(g, c, ox as int, oy as int, i, out_s),
                ox + body_edge(p_count) + 1 <= u16::MAX,
                oy + 8 <= u16::MAX,
                g == *self.graph,
                c == *cluster,
                self.graph.wf(),
                cluster_refs_ok(g, c),
                p_count == pcount(c),
        {
            reveal(pmos_row);
            let px: u16 = 2 + i * 8;
            let gate = cluster.pmos[i as usize].gate_signal;
            let gate_s = wire_ink(self.graph.signals[gate.0]);
            let name = name_text(self.graph, gate.0, "?");
            push_stroke(out, ox + px - 1, oy + 2, name, gate_s, false);
            push_stroke(out, ox + px, oy + 2, "║", gate_s, false);
            push_stroke(out, ox + px + 1, oy + 2, "P", out_s, false);
            assert(strokes_view(out@) =~= s2 + pmos_row(g, c, ox as int, oy as int, (i + 1) as u16, out_s));
        }
    }

    /// Draws the NMOS stack from transistor `i` down.
    fn render_nmos(&self, out: &mut Vec<Stroke>, cluster: &ClusterLayout, x: u16, oy: u16, total_h: u16, i: u16)
        requires
            self.graph.wf(),
            cluster_refs_ok(*self.graph, *cluster),
            ncount(*cluster) <= cluster.nmos@.len(),
            x + 1 <= u16::MAX,
            x >= 1,
            oy + total_h <= u16::MAX,
            8 + 2 * ncount(*cluster) <= total_h,
        ensures
            strokes_view(final(out)@) == strokes_view(old(out)@) + nmos_strokes(
                *self.graph,
                *cluster,
                x as int,
                oy as int,
                ncount(*cluster),
                total_h,
                i as int,
            ),
        decreases ncount(*cluster) - i,
    {
        reveal(nmos_strokes);
        let n_count = cluster.nmos.len() as u16;
        if i >= n_count {
            return;
        }
        let ghost base = strokes_view(out@);
        let ny = oy + 7 + i * 2;
        let nmos = &cluster.nmos[i as usize];
        let gate_s = wire_ink(self.graph.signals[nmos.gate_signal.0]);
        let name = name_text(self.graph, nmos.gate_signal.0, "?");
        push_stroke(out, x - 1, ny, name, gate_s, false);
        push_stroke(out, x, ny, "║", gate_s, false);
        push_stroke(out, x + 1, ny, "N", gate_s, false);
        if i + 1 < n_count {
            // series connection down to the next NMOS
            let mid_s = wire_ink(self.graph.signals[nmos.vertical_out.0]);
            push_stroke(out, x, ny + 1, "┃", mid_s, false);
            self.render_nmos(out, cluster, x, oy, total_h, i + 1);
        } else {
            let gnd_s = wire_ink(self.graph.signals[1]);
            let gnd_rail_y = oy + total_h - 1;
            let ghost s1 = strokes_view(out@);
            let mut dy = ny + 1;
            while dy < gnd_rail_y
                invariant
                    ny + 1 <= dy <= gnd_rail_y,
                    strokes_view(out@) == s1 + Seq::new((dy - (ny + 1)) as nat, |k: int| xy(x as int, ny + 1 + k, "┃"@, gnd_s)),
                decreases gnd_rail_y - dy,
            {
                reveal(nmos_strokes);
                push_stroke(out, x, dy, "┃", gnd_s, false);
                dy = dy + 1;
                assert(strokes_view(out@) =~= s1 + Seq::new((dy - (ny + 1)) as nat, |k: int| xy(x as int, ny + 1 + k, "┃"@, gnd_s)));
            }
            push_stroke(out, x, gnd_rail_y, "┻", gnd_s, false);
        }
        assert(strokes_view(out@) =~= base + nmos_strokes(
            *self.graph,
            *cluster,
            x as int,
            oy as int,
            ncount(*cluster),
            total_h,
            i as int,
        ));
    }
}


fn draw_vdd_taps(out: &mut Vec<Stroke>, ox: u16, oy: u16, p_count: u16, ink: Ink)
    requires
        ox + body_edge(p_count) + 1 <= u16::MAX,
        oy + 8 <= u16::MAX,
    ensures
        strokes_view(final(out)@) == strokes_view(old(out)@) + vdd_taps(ox as int, oy as int, p_count, ink),
{
    reveal(vdd_taps);
    let ghost s0 = strokes_view(out@);
    for i in 0..p_count
        invariant
            strokes_view(out@) == s0 + vdd_taps(ox as int, oy as int, i, ink),
            ox + body_edge(p_count) + 1 <= u16::MAX,
            oy + 8 <= u16::MAX,
    {
        reveal(vdd_taps);
        let px: u16 = 2 + i * 8;
        push_stroke(out, ox + px, oy, "┳", ink, false);
        push_stroke(out, ox + px, oy + 1, "┃", ink, false);
        assert(strokes_view(out@) =~= s0 + vdd_taps(ox as int, oy as int, (i + 1) as u16, ink));
    }
}

fn draw_links(out: &mut Vec<Stroke>, ox: u16, y: u16, p_count: u16, ink: Ink)
    requires
        ox + body_edge(p_count) + 1 <= u16::MAX,
    ensures
        strokes_view(final(out)@) == strokes_view(old(out)@) + pmos_links(ox as int, y as int, p_count, ink),
{
    reveal(pmos_links);
    let ghost s1 = strokes_view(out@);
    for i in 0..p_count
        invariant
            strokes_view(out@) == s1 + pmos_links(ox as int, y as int, i, ink),
            ox + body_edge(p_count) + 1 <= u16::MAX,
    {
        reveal(pmos_links);
        let px: u16 = 2 + i * 8;
        push_stroke(out, ox + px, y, "┃", ink, false);
        assert(strokes_view(out@) =~= s1 + pmos_links(ox as int, y as int, (i + 1) as u16, ink));
    }
}

fn draw_bridge(out: &mut Vec<Stroke>, ox: u16, oy: u16, body_right: u16, ink: Ink)
    requires
        2 <= body_right,
        ox + body_right + 1 <= u16::MAX,
        oy + 8 <= u16::MAX,
    ensures
        strokes_view(final(out)@) == strokes_view(old(out)@) + bridge(ox as int, oy as int, body_right as int, ink),
{
    reveal(bridge);
    let ghost s4 = strokes_view(out@);
    let mut bx: u16 = 2;
    while bx <= body_right
        invariant
            2 <= bx <= body_right + 1,
            ox + body_right + 1 <= u16::MAX,
            oy + 8 <= u16::MAX,
            strokes_view(out@) == s4 + bridge(ox as int, oy as int, bx as int - 1, ink),
        decreases body_right + 1 - bx,
    {
        reveal(bridge);
        push_stroke(out, ox + bx, oy + 4, "━", ink, false);
        bx = bx + 1;
        assert(strokes_view(out@) =~= s4 + bridge(ox as int, oy as int, bx as int - 1, ink));
    }
}

fn draw_bridge_joints(out: &mut Vec<Stroke>, ox: u16, oy: u16, p_count: u16, ink: Ink)
    requires
        ox + body_edge(p_count) + 1 <= u16::MAX,
        oy + 8 <= u16::MAX,
    ensures
        strokes_view(final(out)@) == strokes_view(old(out)@) + bridge_joints(ox as int, oy as int, p_count, ink),
{
    reveal(bridge_joints);
    let ghost s5 = strokes_view(out@);
    for i in 0..p_count
        invariant
            strokes_view(out@) == s5 + Seq::new(
                i as nat,
                |j: int| xy(ox + 2 + j * 8, oy + 4, bridge_joint(p_count, j), ink),
            ),
            ox + body_edge(p_count) + 1 <= u16::MAX,
            oy + 8 <= u16::MAX,
    {
        reveal(bridge_joints);
        let px: u16 = 2 + i * 8;
        let ch = if p_count == 1 {
            "┃"
        } else if i == 0 {
            "┗"
        } else if i == p_count - 1 {
            "┛"
        } else {
            "┻"
        };
        assert(ch@ == bridge_joint(p_count, i as int));
        push_stroke(out, ox + px, oy + 4, ch, ink, false);
        assert(strokes_view(out@) =~= s5 + Seq::new(
            (i + 1) as nat,
            |j: int| xy(ox + 2 + j * 8, oy + 4, bridge_joint(p_count, j), ink),
        ));
    }
    assert(Seq::new(p_count as nat, |j: int| xy(ox + 2 + j * 8, oy + 4, bridge_joint(p_count, j), ink))
        =~= bridge_joints(ox as int, oy as int, p_count, ink));
}


/// The three silicon textures: dense in transistor regions, patchy
/// between clusters and on the bridge row, light under the trench traces.
#[derive(Clone, Copy, PartialEq, Eq, Structural, Debug)]
pub enum Texture {
    Active,
    Field,
    Trace,
}

/// The texture characters, cycling through variations for a natural look.
pub open spec fn texture_spec(t: Texture, idx: int) -> Seq<char> {
    match t {
        Texture::Active => if idx == 4 { "⣼"@ } else { "⣿"@ },
        Texture::Field => if idx % 3 == 0 { "⣭"@ } else if idx % 3 == 1 { "⣯"@ } else { "⣻"@ },
        Texture::Trace => if idx == 2 || idx == 5 { "⢿"@ } else { "⢽"@ },
    }
}

fn texture(t: Texture, idx: usize) -> (r: &'static str)
    requires
        idx < 8,
    ensures
        r@ == texture_spec(t, idx as int),
{
    match t {
        Texture::Active => if idx == 4 { "⣼" } else { "⣿" },
        Texture::Field => if idx % 3 == 0 { "⣭" } else if idx % 3 == 1 { "⣯" } else { "⣻" },
        Texture::Trace => if idx == 2 || idx == 5 { "⢿" } else { "⢽" },
    }
}

pub open spec fn row_texture(dy: int) -> Texture {
    if dy == 5 { Texture::Trace } else if dy == 4 { Texture::Field } else { Texture::Active }
}

pub open spec fn row_ink(dy: int) -> Ink {
    if dy == 5 { Ink::SiliconTrace } else if dy == 4 { Ink::SiliconField } else { Ink::SiliconActive }
}

/// The sum of the first `k` widths.
pub open spec fn sum_widths(w: Seq<u16>, k: int) -> int
    decreases k,
{
    if k <= 0 || k > w.len() {
        0
    } else {
        sum_widths(w, k - 1) + w[k - 1]
    }
}

/// The left edge of cluster `ci`: the widths before it plus one delimiter
/// column after each.
pub open spec fn cluster_left(ox: int, w: Seq<u16>, ci: int) -> int {
    ox + sum_widths(w, ci) + ci
}

/// Row `dy` of the silicon texture from cluster `ci` on.
#[verifier::opaque]
pub open spec fn substrate_row(ox: int, oy: int, dy: int, w: Seq<u16>, ci: int) -> Seq<StrokeView>
    decreases w.len() - ci,
{
    if ci >= w.len() || ci < 0 {
        Seq::empty()
    } else {
        let cx = cluster_left(ox, w, ci);
        let cw = w[ci];
        Seq::new(
            cw as nat,
            |dx: int| xy(cx + dx, oy + dy, texture_spec(row_texture(dy), (cx - ox + dx + dy * 7) % 8), row_ink(dy)),
        ) + (if ci < w.len() - 1 {
            seq![xy(cx + cw, oy + dy, texture_spec(Texture::Field, (cx + cw - ox + dy * 7) % 8), Ink::SiliconField)]
        } else {
            Seq::empty()
        }) + substrate_row(ox, oy, dy, w, ci + 1)
    }
}

/// The silicon texture of rows `dy .. total_h - 1`.
#[verifier::opaque]
pub open spec fn substrate(ox: int, oy: int, total_h: int, w: Seq<u16>, dy: int) -> Seq<StrokeView>
    decreases total_h - 1 - dy,
{
    if dy >= total_h - 1 {
        Seq::empty()
    } else {
        substrate_row(ox, oy, dy, w, 0) + substrate(ox, oy, total_h, w, dy + 1)
    }
}

pub open spec fn widths_fit(w: Seq<u16>, ox: int, oy: int, total_h: int) -> bool {
    &&& cluster_left(ox, w, w.len() as int) <= u16::MAX + 1
    &&& ox + sum_widths(w, w.len() as int) + w.len() <= u16::MAX + 1
    &&& oy + total_h <= u16::MAX
    &&& total_h >= 2
}

proof fn lemma_sum_widths_mono(w: Seq<u16>, i: int, j: int)
    requires
        0 <= i <= j <= w.len(),
    ensures
        sum_widths(w, i) <= sum_widths(w, j),
        sum_widths(w, i) + (if i < j { w[i] as int } else { 0 }) <= sum_widths(w, j),
    decreases j - i,
{
    if i < j {
        lemma_sum_widths_mono(w, i, j - 1);
        lemma_sum_widths_mono(w, i + 1, j);
    }
}

impl<'a> TopologyWidget<'a> {
    /// Fills the view with continuous silicon texture, row by row.
    fn render_substrate(&self, out: &mut Vec<Stroke>, origin_x: u16, origin_y: u16, total_h: u16, cluster_widths: &Vec<u16>)
        requires
            widths_fit(cluster_widths@, origin_x as int, origin_y as int, total_h as int),
            cluster_widths@.len() >= 1 ==> cluster_left(origin_x as int, cluster_widths@, cluster_widths@.len() - 1)
                + cluster_widths@[cluster_widths@.len() - 1] <= u16::MAX,
        ensures
            strokes_view(final(out)@) == strokes_view(old(out)@) + substrate(
                origin_x as int,
                origin_y as int,
                total_h as int,
                cluster_widths@,
                1,
            ),
    {
        let ghost w = cluster_widths@;
        let ghost base = strokes_view(out@);
        let mut dy: u16 = 1;
        while dy < total_h - 1
            invariant
                1 <= dy <= total_h - 1 || total_h < 2,
                w == cluster_widths@,
                widths_fit(w, origin_x as int, origin_y as int, total_h as int),
                w.len() >= 1 ==> cluster_left(origin_x as int, w, w.len() - 1) + w[w.len() - 1] <= u16::MAX,
                base + substrate(origin_x as int, origin_y as int, total_h as int, w, 1)
                    == strokes_view(out@) + substrate(origin_x as int, origin_y as int, total_h as int, w, dy as int),
            decreases total_h - dy,
        {
            proof {
                reveal(substrate);
            }
            let ghost before = strokes_view(out@);
            self.render_substrate_row(out, origin_x, origin_y, dy, cluster_widths);
            dy = dy + 1;
            proof {
                reveal(substrate);
                assert(substrate(origin_x as int, origin_y as int, total_h as int, w, (dy - 1) as int)
                    == substrate_row(origin_x as int, origin_y as int, (dy - 1) as int, w, 0)
                        + substrate(origin_x as int, origin_y as int, total_h as int, w, dy as int));
                assert(strokes_view(out@) == before + substrate_row(origin_x as int, origin_y as int, (dy - 1) as int, w, 0));
                assert(before + substrate_row(origin_x as int, origin_y as int, (dy - 1) as int, w, 0)
                    + substrate(origin_x as int, origin_y as int, total_h as int, w, dy as int)
                    =~= before + (substrate_row(origin_x as int, origin_y as int, (dy - 1) as int, w, 0)
                    + substrate(origin_x as int, origin_y as int, total_h as int, w, dy as int)));
            }
        }
        proof {
            reveal(substrate);
            assert(strokes_view(out@) + substrate(origin_x as int, origin_y as int, total_h as int, w, dy as int)
                =~= strokes_view(out@));
        }
    }

    /// One row of silicon texture across every cluster and delimiter.
    fn render_substrate_row(&self, out: &mut Vec<Stroke>, origin_x: u16, origin_y: u16, dy: u16, cluster_widths: &Vec<u16>)
        requires
            widths_fit(cluster_widths@, origin_x as int, origin_y as int, dy as int + 2),
            cluster_widths@.len() >= 1 ==> cluster_left(origin_x as int, cluster_widths@, cluster_widths@.len() - 1)
                + cluster_widths@[cluster_widths@.len() - 1] <= u16::MAX,
        ensures
            strokes_view(final(out)@) == strokes_view(old(out)@) + substrate_row(
                origin_x as int,
                origin_y as int,
                dy as int,
                cluster_widths@,
                0,
            ),
    {
        let ghost w = cluster_widths@;
        let ghost base = strokes_view(out@);
        let is_trench = dy == 5;
        let is_bridge = dy == 4;
        let tex = if is_trench { Texture::Trace } else if is_bridge { Texture::Field } else { Texture::Active };
        let color = if is_trench { Ink::SiliconTrace } else if is_bridge { Ink::SiliconField } else { Ink::SiliconActive };
        assert(tex == row_texture(dy as int) && color == row_ink(dy as int));
        let mut cx = origin_x;
        let n = cluster_widths.len();
        proof {
            reveal(substrate_row);
        }
        for ci in 0..n
            invariant
                n == w.len(),
                w == cluster_widths@,
                tex == row_texture(dy as int),
                color == row_ink(dy as int),
                widths_fit(w, origin_x as int, origin_y as int, dy as int + 2),
                w.len() >= 1 ==> cluster_left(origin_x as int, w, w.len() - 1) + w[w.len() - 1] <= u16::MAX,
                ci < n ==> cx == cluster_left(origin_x as int, w, ci as int),
                base + substrate_row(origin_x as int, origin_y as int, dy as int, w, 0)
                    == strokes_view(out@) + substrate_row(origin_x as int, origin_y as int, dy as int, w, ci as int),
        {
            proof {
                reveal(substrate_row);
                lemma_sum_widths_mono(w, 0, ci as int);
                lemma_sum_widths_mono(w, ci as int, w.len() - 1);
                lemma_sum_widths_mono(w, ci as int, w.len() as int);
            }
            let cw = cluster_widths[ci];
            let ghost before = strokes_view(out@);
            let mut dx: u16 = 0;
            while dx < cw
                invariant
                    dx <= cw,
                    cx + cw <= u16::MAX,
                    tex == row_texture(dy as int),
                    color == row_ink(dy as int),
                    cx >= origin_x,
                    strokes_view(out@) == before + Seq::new(
                        dx as nat,
                        |k: int| xy(cx + k, origin_y + dy, texture_spec(row_texture(dy as int), (cx - origin_x + k + dy * 7) % 8), row_ink(dy as int)),
                    ),
                    origin_y + dy + 2 <= u16::MAX,
                decreases cw - dx,
            {
                let idx = ((cx - origin_x + dx) as usize + dy as usize * 7) % 8;
                let t = texture(tex, idx);
                push_stroke(out, cx + dx, origin_y + dy, t, color, false);
                dx = dx + 1;
                assert(strokes_view(out@) =~= before + Seq::new(
                    dx as nat,
                    |k: int| xy(cx + k, origin_y + dy, texture_spec(row_texture(dy as int), (cx - origin_x + k + dy * 7) % 8), row_ink(dy as int)),
                ));
            }
            cx = cx + cw;
            let ghost mid = strokes_view(out@);
            if ci < n - 1 {
                let fidx = ((cx - origin_x) as usize + dy as usize * 7) % 8;
                let t = texture(Texture::Field, fidx);
                push_stroke(out, cx, origin_y + dy, t, Ink::SiliconField, false);
                cx = cx + 1;
            }
            proof {
                reveal(substrate_row);
                let cxi = cluster_left(origin_x as int, w, ci as int);
                assert(substrate_row(origin_x as int, origin_y as int, dy as int, w, ci as int)
                    == Seq::new(
                        w[ci as int] as nat,
                        |k: int| xy(cxi + k, origin_y + dy, texture_spec(row_texture(dy as int), (cxi - origin_x + k + dy * 7) % 8), row_ink(dy as int)),
                    ) + (if ci < w.len() - 1 {
                        seq![xy(cxi + w[ci as int], origin_y + dy, texture_spec(Texture::Field, (cxi + w[ci as int] - origin_x + dy * 7) % 8), Ink::SiliconField)]
                    } else {
                        Seq::empty()
                    }) + substrate_row(origin_x as int, origin_y as int, dy as int, w, ci + 1));
                assert(sum_widths(w, ci + 1) == sum_widths(w, ci as int) + w[ci as int]);
                assert(strokes_view(out@) + substrate_row(origin_x as int, origin_y as int, dy as int, w, ci + 1)
                    =~= before + substrate_row(origin_x as int, origin_y as int, dy as int, w, ci as int));
            }
        }
        proof {
            reveal(substrate_row);
            assert(strokes_view(out@) + substrate_row(origin_x as int, origin_y as int, dy as int, w, n as int)
                =~= strokes_view(out@));
        }
    }
}


/// The length in bytes of a text, as `str::len` reports it.
pub open spec fn byte_len(s: Seq<char>) -> int {
    (encode_utf8(s).len() as usize) as int
}

/// The column of cluster `ci`'s output pillar.
pub open spec fn pillar_col(xs: Seq<u16>, cs: Seq<ClusterLayout>, ci: int) -> int {
    xs[ci] + pillar(pcount(cs[ci]))
}

/// Where the trench trace of cluster `ci` ends: at the next cluster's
/// pillar, or for the last cluster one cell before the right edge.
pub open spec fn trace_stop(xs: Seq<u16>, cs: Seq<ClusterLayout>, ox: int, total_w: int, ci: int) -> int {
    if ci < cs.len() - 1 {
        pillar_col(xs, cs, ci + 1)
    } else {
        ox + total_w - 1
    }
}

/// The output signal's name at the end of the last trace, in bold, when it
/// fits after the trace's start.
pub open spec fn final_label(g: SignalGraph, out: SignalId, ty: int, start: int, end: int) -> Seq<StrokeView> {
    let name = name_of(g, out.0 as int, "Y"@);
    let lx = if end < byte_len(name) { 0 } else { end - byte_len(name) };
    if lx > start {
        seq![(lx as u16, ty as u16, name, Ink::GoldBright, true)]
    } else {
        Seq::empty()
    }
}

/// The trench row from cluster `ci` on: each output pillar's via, its
/// signal name, and a `═` trace on to the next pillar.
#[verifier::opaque]
pub open spec fn trench(
    g: SignalGraph,
    cs: Seq<ClusterLayout>,
    out: SignalId,
    xs: Seq<u16>,
    ox: int,
    oy: int,
    total_w: int,
    ci: int,
) -> Seq<StrokeView>
    decreases cs.len() - ci,
{
    if ci < 0 || ci >= cs.len() {
        Seq::empty()
    } else {
        let c = cs[ci];
        let ty = oy + 5;
        let px = pillar_col(xs, cs, ci);
        let name = name_of(g, c.output.0 as int, "?"@);
        let ink = wire_of(g, c.output);
        let start = px + 1 + byte_len(name);
        let end = trace_stop(xs, cs, ox, total_w, ci);
        seq![xy(px, ty, "┃"@, ink), xy(px + 1, ty, name, Ink::GoldBright)] + Seq::new(
            (if end > start { end - start } else { 0 }) as nat,
            |k: int| xy(start + k, ty, "═"@, ink),
        ) + (if ci == cs.len() - 1 {
            final_label(g, out, ty, start, end)
        } else {
            Seq::empty()
        }) + trench(g, cs, out, xs, ox, oy, total_w, ci + 1)
    }
}

/// Every coordinate the trench row writes fits in u16.
pub open spec fn trench_fits(
    g: SignalGraph,
    cs: Seq<ClusterLayout>,
    out: SignalId,
    xs: Seq<u16>,
    ox: int,
    oy: int,
    total_w: int,
) -> bool {
    &&& xs.len() == cs.len()
    &&& oy + 5 <= u16::MAX
    &&& cs.len() > 0 ==> 1 <= total_w && ox + total_w <= u16::MAX + 1
    &&& byte_len(name_of(g, out.0 as int, "Y"@)) <= u16::MAX
    &&& forall|i: int|
        0 <= i < cs.len() ==> {
            &&& body_edge(pcount(#[trigger] cs[i])) + 3 <= u16::MAX
            &&& pillar_col(xs, cs, i) + 1 + byte_len(name_of(g, cs[i].output.0 as int, "?"@)) <= u16::MAX
        }
}

impl<'a> TopologyWidget<'a> {
    /// Draws the gold traces of the trench row, joining each output pillar
    /// to the next with its named signal line:
    ///
    /// ```text
    ///  ┃ n1 ═══════════╪ n2 ═══════╪ n3 ══════ Y
    /// ```
    fn render_trench(
        &self,
        out: &mut Vec<Stroke>,
        origin_x: u16,
        origin_y: u16,
        total_w: u16,
        cluster_x: &Vec<u16>,
    )
        requires
            self.graph.wf(),
            forall|i: int| 0 <= i < self.layout.clusters@.len() ==> cluster_refs_ok(*self.graph, #[trigger] self.layout.clusters@[i]),
            self.layout.output_signal.0 < self.graph.signals@.len(),
            trench_fits(*self.graph, self.layout.clusters@, self.layout.output_signal, cluster_x@, origin_x as int, origin_y as int, total_w as int),
        ensures
            strokes_view(final(out)@) == strokes_view(old(out)@) + trench(
                *self.graph,
                self.layout.clusters@,
                self.layout.output_signal,
                cluster_x@,
                origin_x as int,
                origin_y as int,
                total_w as int,
                0,
            ),
    {
        let ghost g = *self.graph;
        let ghost cs = self.layout.clusters@;
        let ghost xs = cluster_x@;
        let ghost osig = self.layout.output_signal;
        let ghost base = strokes_view(out@);
        let trench_y = origin_y + 5;
        let n = self.layout.clusters.len();
        for ci in 0..n
            invariant
                g == *self.graph,
                cs == self.layout.clusters@,
                xs == cluster_x@,
                osig == self.layout.output_signal,
                n == cs.len(),
                trench_y == origin_y + 5,
                g.wf(),
                forall|i: int| 0 <= i < cs.len() ==> cluster_refs_ok(g, #[trigger] cs[i]),
                osig.0 < g.signals@.len(),
                trench_fits(g, cs, osig, xs, origin_x as int, origin_y as int, total_w as int),
                base + trench(g, cs, osig, xs, origin_x as int, origin_y as int, total_w as int, 0)
                    == strokes_view(out@) + trench(g, cs, osig, xs, origin_x as int, origin_y as int, total_w as int, ci as int),
        {
            let ghost before = strokes_view(out@);
            let cluster = &self.layout.clusters[ci];
            assert(cluster_refs_ok(g, cs[ci as int]));
            assert(body_edge(pcount(cs[ci as int])) + 3 <= u16::MAX);
            let cx = cluster_x[ci];
            let p_count = cluster.pmos.len() as u16;
            let body_left: u16 = 2;
            let body_right: u16 = body_left + (if p_count > 0 { p_count - 1 } else { 0 }) * 8;
            let nx = (body_left + body_right) / 2;
            assert(nx == pillar(pcount(cs[ci as int])));
            let ghost name = name_of(g, cs[ci as int].output.0 as int, "?"@);
            assert(pillar_col(xs, cs, ci as int) + 1 + byte_len(name) <= u16::MAX);
            let pillar_x = cx + nx;
            let sig_name = name_text(self.graph, cluster.output.0, "?");
            let out_s = wire_ink(self.graph.signals[cluster.output.0]);
            // the via between the pillar and the trench trace
            push_stroke(out, pillar_x, trench_y, "┃", out_s, false);
            // the signal's name right after the pillar
            let name_x = pillar_x + 1;
            push_stroke(out, name_x, trench_y, sig_name, Ink::GoldBright, false);
            let trace_start = name_x + sig_name.len() as u16;
            let trace_end = if ci < n - 1 {
                let ncx = cluster_x[ci + 1];
                let ncl = &self.layout.clusters[ci + 1];
                assert(body_edge(pcount(cs[ci + 1])) + 3 <= u16::MAX);
                let np_count = ncl.pmos.len() as u16;
                let n_body_right: u16 = 2 + (if np_count > 0 { np_count - 1 } else { 0 }) * 8;
                assert(pillar_col(xs, cs, ci + 1) + 1 <= u16::MAX);
                ncx + (2 + n_body_right) / 2
            } else {
                origin_x + (total_w - 1)
            };
            assert(trace_end == trace_stop(xs, cs, origin_x as int, total_w as int, ci as int));
            let ghost mid = strokes_view(out@);
            let mut tx = trace_start;
            while tx < trace_end
                invariant
                    trace_start <= tx,
                    tx <= trace_end || trace_end <= trace_start,
                    trace_end <= trace_start ==> tx == trace_start,
                    strokes_view(out@) == mid + Seq::new(
                        (tx - trace_start) as nat,
                        |k: int| xy(trace_start + k, trench_y as int, "═"@, out_s),
                    ),
                decreases trace_end - tx,
            {
                push_stroke(out, tx, trench_y, "═", out_s, false);
                tx = tx + 1;
                assert(strokes_view(out@) =~= mid + Seq::new(
                    (tx - trace_start) as nat,
                    |k: int| xy(trace_start + k, trench_y as int, "═"@, out_s),
                ));
            }
            let ghost traced = strokes_view(out@);
            // the output signal's name at the very end of the line
            if ci == n - 1 {
                let final_name = name_text(self.graph, self.layout.output_signal.0, "Y");
                let flen = final_name.len() as u16;
                let label_x = if trace_end < flen { 0 } else { trace_end - flen };
                if label_x > trace_start {
                    push_stroke(out, label_x, trench_y, final_name, Ink::GoldBright, true);
                }
            }
            proof {
                reveal(trench);
                let start = pillar_col(xs, cs, ci as int) + 1 + byte_len(name);
                let end = trace_stop(xs, cs, origin_x as int, total_w as int, ci as int);
                assert(trace_start == start);
                assert(traced == mid + Seq::new(
                    (if end > start { end - start } else { 0 }) as nat,
                    |k: int| xy(start + k, origin_y + 5, "═"@, wire_of(g, cs[ci as int].output)),
                ));
                assert(strokes_view(out@) + trench(g, cs, osig, xs, origin_x as int, origin_y as int, total_w as int, ci + 1)
                    =~= before + trench(g, cs, osig, xs, origin_x as int, origin_y as int, total_w as int, ci as int));
            }
        }
        proof {
            reveal(trench);
            assert(strokes_view(out@) + trench(g, cs, osig, xs, origin_x as int, origin_y as int, total_w as int, n as int)
                =~= strokes_view(out@));
        }
    }
}


/// The width of each cluster drawing: two cells of left padding, the PMOS
/// body, and one cell of right padding.
pub open spec fn widths_of(cs: Seq<ClusterLayout>) -> Seq<u16> {
    Seq::new(cs.len(), |i: int| (body_edge(pcount(cs[i])) + 3) as u16)
}

/// The most NMOS rows (two per transistor) among the first `k` clusters.
pub open spec fn nmos_rows(cs: Seq<ClusterLayout>, k: int) -> int
    decreases k,
{
    if k <= 0 || k > cs.len() {
        0
    } else {
        let v = ncount(cs[k - 1]) * 2;
        let m = nmos_rows(cs, k - 1);
        if v > m {
            v
        } else {
            m
        }
    }
}

/// The width of the whole drawing: every cluster and a delimiter column
/// between each two.
pub open spec fn total_width(cs: Seq<ClusterLayout>) -> int {
    sum_widths(widths_of(cs), cs.len() as int) + (if cs.len() > 0 { cs.len() - 1 } else { 0 })
}

/// The height of the whole drawing: VDD rail, three PMOS rows, bridge,
/// trench, the output drop, the tallest NMOS stack (two rows when there is
/// no cluster), GND rail.
pub open spec fn total_height(cs: Seq<ClusterLayout>) -> int {
    8 + (if cs.len() == 0 { 2 } else { nmos_rows(cs, cs.len() as int) })
}

/// The left edge of every cluster.
pub open spec fn cluster_xs(ox: int, w: Seq<u16>) -> Seq<u16> {
    Seq::new(w.len(), |i: int| cluster_left(ox, w, i) as u16)
}

/// Where a drawing of `size` cells starts so that it is centred in a span
/// of `span` cells from `at` (flush with `at` when it does not fit).
pub open spec fn centred(at: u16, span: u16, size: int) -> int {
    at + (if span < size { 0 } else { (span - size) / 2 })
}

/// A rail: a `━` in every column of the drawing.
pub open spec fn rail(ox: int, y: int, total_w: int, ink: Ink) -> Seq<StrokeView> {
    Seq::new(total_w as nat, |dx: int| xy(ox + dx, y, "━"@, ink))
}

/// The delimiter columns after cluster `ci` and the ones after it: a `│`
/// in every row between the rails, crossed by the trench (`╪`).
#[verifier::opaque]
pub open spec fn delimiters(xs: Seq<u16>, w: Seq<u16>, oy: int, total_h: int, ci: int) -> Seq<StrokeView>
    decreases w.len() - ci,
{
    if ci < 0 || ci >= w.len() - 1 {
        Seq::empty()
    } else {
        Seq::new(
            (total_h - 2) as nat,
            |k: int| xy(xs[ci] + w[ci], oy + 1 + k, if k + 1 == 5 { "╪"@ } else { "│"@ }, Ink::GoldDim),
        ) + delimiters(xs, w, oy, total_h, ci + 1)
    }
}

/// Cluster `ci` and the ones after it, each at its own left edge.
#[verifier::opaque]
pub open spec fn clusters_drawn(g: SignalGraph, cs: Seq<ClusterLayout>, xs: Seq<u16>, oy: int, total_h: u16, ci: int) -> Seq<StrokeView>
    decreases cs.len() - ci,
{
    if ci < 0 || ci >= cs.len() {
        Seq::empty()
    } else {
        cluster_strokes(g, cs[ci], xs[ci] as int, oy, total_h) + clusters_drawn(g, cs, xs, oy, total_h, ci + 1)
    }
}

/// Every signal the layout names exists in the graph.
pub open spec fn layout_refs_ok(g: SignalGraph, l: GateLayout) -> bool {
    &&& forall|i: int| 0 <= i < l.clusters@.len() ==> cluster_refs_ok(g, #[trigger] l.clusters@[i])
    &&& l.output_signal.0 < g.signals@.len()
}

/// Drawn in `inner`, every coordinate and size of the drawing fits in u16.
pub open spec fn topology_fits(g: SignalGraph, l: GateLayout, inner: Area) -> bool {
    let cs = l.clusters@;
    let tw = total_width(cs);
    let th = total_height(cs);
    let sx = centred(inner.x, inner.width, tw);
    let sy = centred(inner.y, inner.height, th);
    &&& cs.len() <= u16::MAX
    &&& forall|i: int| 0 <= i < cs.len() ==> body_edge(pcount(#[trigger] cs[i])) + 3 <= u16::MAX
    &&& forall|i: int| 0 <= i < cs.len() ==> ncount(#[trigger] cs[i]) * 2 <= u16::MAX
    &&& sx + tw <= u16::MAX
    &&& sy + th <= u16::MAX
    &&& trench_fits(g, cs, l.output_signal, cluster_xs(sx, widths_of(cs)), sx, sy, tw)
}

/// The drawing can be computed in `inner`: the area is too small to draw
/// in, or the layout's signals exist and the drawing fits in u16.
pub open spec fn drawable(g: SignalGraph, l: GateLayout, inner: Area) -> bool {
    inner.width < 10 || inner.height < 10 || (layout_refs_ok(g, l) && topology_fits(g, l, inner))
}

/// The whole drawing of a gate in `area`: nothing when the inside of the
/// border is under 10 cells either way; else, centred, the silicon
/// texture, the VDD and GND rails, the delimiters, every cluster, and the
/// trench traces, in that order.
pub open spec fn topology_strokes(g: SignalGraph, l: GateLayout, area: Area) -> Seq<StrokeView> {
    let inner = bordered_inner_spec(area);
    if inner.width < 10 || inner.height < 10 {
        Seq::empty()
    } else {
        let cs = l.clusters@;
        let w = widths_of(cs);
        let tw = total_width(cs);
        let th = total_height(cs);
        let sx = centred(inner.x, inner.width, tw);
        let sy = centred(inner.y, inner.height, th);
        let xs = cluster_xs(sx, w);
        substrate(sx, sy, th, w, 1) + rail(sx, sy, tw, wire_of(g, SignalId(0))) + rail(
            sx,
            sy + th - 1,
            tw,
            wire_of(g, SignalId(1)),
        ) + delimiters(xs, w, sy, th, 0) + clusters_drawn(g, cs, xs, sy, th as u16, 0) + trench(
            g,
            cs,
            l.output_signal,
            xs,
            sx,
            sy,
            tw,
            0,
        )
    }
}

proof fn lemma_clusters_drawn_holds(
    g: SignalGraph,
    cs: Seq<ClusterLayout>,
    xs: Seq<u16>,
    oy: int,
    total_h: u16,
    a: int,
    ci: int,
    k: int,
)
    requires
        0 <= a <= ci < cs.len(),
        0 <= k < cluster_strokes(g, cs[ci], xs[ci] as int, oy, total_h).len(),
    ensures
        clusters_drawn(g, cs, xs, oy, total_h, a).contains(cluster_strokes(g, cs[ci], xs[ci] as int, oy, total_h)[k]),
    decreases ci - a,
{
    reveal(clusters_drawn);
    let cur = cluster_strokes(g, cs[a], xs[a] as int, oy, total_h);
    let rest = clusters_drawn(g, cs, xs, oy, total_h, a + 1);
    assert(clusters_drawn(g, cs, xs, oy, total_h, a) == cur + rest);
    if a == ci {
        assert((cur + rest)[k] == cur[k]);
    } else {
        lemma_clusters_drawn_holds(g, cs, xs, oy, total_h, a + 1, ci, k);
        let v = cluster_strokes(g, cs[ci], xs[ci] as int, oy, total_h)[k];
        let x = choose|x: int| 0 <= x < rest.len() && rest[x] == v;
        assert((cur + rest)[cur.len() + x] == rest[x]);
    }
}

/// The drawing of a gate in `area` shows, for every PMOS column `i` of every
/// cluster `ci`, the name of that column's own gate wire just left of its
/// gate bar `║` on the PMOS row, both in that wire's colour.
pub proof fn lemma_drawing_labels_pmos_gates(g: SignalGraph, l: GateLayout, area: Area, ci: int, i: int)
    requires
        bordered_inner_spec(area).width >= 10,
        bordered_inner_spec(area).height >= 10,
        0 <= ci < l.clusters@.len(),
        0 <= i < l.clusters@[ci].pmos@.len() <= u16::MAX,
    ensures
        ({
            let inner = bordered_inner_spec(area);
            let cs = l.clusters@;
            let sx = centred(inner.x, inner.width, total_width(cs));
            let sy = centred(inner.y, inner.height, total_height(cs));
            let px = cluster_xs(sx, widths_of(cs))[ci] + 2 + 8 * i;
            let gate = cs[ci].pmos@[i].gate_signal;
            &&& topology_strokes(g, l, area).contains(
                xy(px - 1, sy + 2, name_of(g, gate.0 as int, "?"@), wire_of(g, gate)),
            )
            &&& topology_strokes(g, l, area).contains(xy(px, sy + 2, "║"@, wire_of(g, gate)))
        }),
{
    let inner = bordered_inner_spec(area);
    let cs = l.clusters@;
    let w = widths_of(cs);
    let tw = total_width(cs);
    let th = total_height(cs);
    let sx = centred(inner.x, inner.width, tw);
    let sy = centred(inner.y, inner.height, th);
    let xs = cluster_xs(sx, w);
    let c = cs[ci];
    let gate = c.pmos@[i].gate_signal;
    let px = xs[ci] + 2 + 8 * i;
    let one = cluster_strokes(g, c, xs[ci] as int, sy, th as u16);
    lemma_pmos_columns_show_own_gate(g, c, xs[ci] as int, sy, th as u16, i);
    let at = 3 * c.pmos@.len() + 3 * i;
    let front = substrate(sx, sy, th, w, 1) + rail(sx, sy, tw, wire_of(g, SignalId(0))) + rail(
        sx,
        sy + th - 1,
        tw,
        wire_of(g, SignalId(1)),
    ) + delimiters(xs, w, sy, th, 0);
    let drawn = clusters_drawn(g, cs, xs, sy, th as u16, 0);
    let back = trench(g, cs, l.output_signal, xs, sx, sy, tw, 0);
    let all = topology_strokes(g, l, area);
    assert(all == front + drawn + back);
    assert forall|d: int| 0 <= d < 2 implies all.contains(#[trigger] one[at + d]) by {
        lemma_clusters_drawn_holds(g, cs, xs, sy, th as u16, 0, ci, at + d);
        let x = choose|x: int| 0 <= x < drawn.len() && drawn[x] == one[at + d];
        assert(all[front.len() + x] == drawn[x]);
    }
    assert(all.contains(one[at + 0]));
    assert(all.contains(one[at + 1]));
}


/// Draws a rail of `━` across the drawing.
fn draw_rail(out: &mut Vec<Stroke>, ox: u16, y: u16, total_w: u16, ink: Ink)
    requires
        ox + total_w <= u16::MAX,
    ensures
        strokes_view(final(out)@) == strokes_view(old(out)@) + rail(ox as int, y as int, total_w as int, ink),
{
    let ghost base = strokes_view(out@);
    for dx in 0..total_w
        invariant
            ox + total_w <= u16::MAX,
            strokes_view(out@) == base + rail(ox as int, y as int, dx as int, ink),
    {
        push_stroke(out, ox + dx, y, "━", ink, false);
        assert(strokes_view(out@) =~= base + rail(ox as int, y as int, dx + 1, ink));
    }
}

proof fn lemma_nmos_rows_bound(cs: Seq<ClusterLayout>, i: int, k: int)
    requires
        0 <= i < k <= cs.len(),
    ensures
        ncount(cs[i]) * 2 <= nmos_rows(cs, k),
        nmos_rows(cs, k) >= 0,
    decreases k,
{
    if i < k - 1 {
        lemma_nmos_rows_bound(cs, i, k - 1);
    }
}

proof fn lemma_nmos_rows_nonneg(cs: Seq<ClusterLayout>, k: int)
    ensures
        nmos_rows(cs, k) >= 0,
    decreases k,
{
    if 0 < k <= cs.len() {
        lemma_nmos_rows_nonneg(cs, k - 1);
    }
}

/// What std's `str::to_uppercase` makes of a string.
pub uninterp spec fn uppercase(s: Seq<char>) -> Seq<char>;

/// std's `str::to_uppercase`. The contract names its result and ties it to
/// the characters of `s` alone; the Unicode case tables that decide each
/// character's upper case are not restated.
#[verifier::external_body]
fn to_uppercase(s: &str) -> (r: String)
    ensures
        r@ == uppercase(s@),
{
    s.to_uppercase()
}

/// The border title of a gate drawing whose label, in upper case, is
/// `upper`: an etched prefix, then the label in bold gold.
pub open spec fn drawing_title_spec(upper: Seq<char>) -> Seq<TitlePartView> {
    seq![(" SEMSCAN // "@, Ink::SilkEtch, false), (upper, Ink::AccentGold, true)]
}

/// The border title of a gate drawing, given its label in upper case.
pub fn drawing_title(upper: String) -> (t: Vec<TitlePart>)
    ensures
        titles_view(t@) == drawing_title_spec(upper@),
{
    let mut t: Vec<TitlePart> = Vec::new();
    t.push(TitlePart { text: String::from_str(" SEMSCAN // "), ink: Ink::SilkEtch, bold: false });
    t.push(TitlePart { text: upper, ink: Ink::AccentGold, bold: true });
    assert(titles_view(t@) =~= drawing_title_spec(t@[1].text@));
    t
}

impl<'a> TopologyWidget<'a> {
    /// The colour of the border: gold when the drawn output is High.
    pub fn border_ink(&self) -> (ink: Ink)
        requires
            self.layout.output_signal.0 < self.graph.signals@.len(),
        ensures
            ink == (if self.graph.signals@[self.layout.output_signal.0 as int] == SignalState::High {
                Ink::AccentGold
            } else {
                Ink::GoldDim
            }),
    {
        match self.graph.signals[self.layout.output_signal.0] {
            SignalState::High => Ink::AccentGold,
            _ => Ink::GoldDim,
        }
    }

    /// The border title: " SEMSCAN // ", then the layout's label in upper case.
    pub fn title(&self) -> (t: Vec<TitlePart>)
        ensures
            titles_view(t@) == drawing_title_spec(uppercase(self.layout.label@)),
    {
        drawing_title(to_uppercase(self.layout.label.as_str()))
    }

    /// The width of each cluster's drawing.
    fn cluster_widths(&self) -> (w: Vec<u16>)
        requires
            forall|i: int|
                0 <= i < self.layout.clusters@.len() ==> body_edge(pcount(#[trigger] self.layout.clusters@[i])) + 3
                    <= u16::MAX,
        ensures
            w@ == widths_of(self.layout.clusters@),
    {
        let ghost cs = self.layout.clusters@;
        let mut w: Vec<u16> = Vec::new();
        let n = self.layout.clusters.len();
        for i in 0..n
            invariant
                n == cs.len(),
                cs == self.layout.clusters@,
                forall|j: int| 0 <= j < cs.len() ==> body_edge(pcount(#[trigger] cs[j])) + 3 <= u16::MAX,
                w@ == widths_of(cs).take(i as int),
        {
            assert(body_edge(pcount(cs[i as int])) + 3 <= u16::MAX);
            let p_count = self.layout.clusters[i].pmos.len() as u16;
            let body_right: u16 = 2 + (if p_count > 0 { p_count - 1 } else { 0 }) * 8;
            w.push(body_right + 3);
            assert(w@ =~= widths_of(cs).take(i + 1));
        }
        assert(w@ =~= widths_of(cs));
        w
    }

    /// The tallest NMOS stack, two rows per transistor; two rows when there
    /// is no cluster.
    fn max_nmos_rows(&self) -> (m: u16)
        requires
            forall|i: int| 0 <= i < self.layout.clusters@.len() ==> ncount(#[trigger] self.layout.clusters@[i]) * 2 <= u16::MAX,
        ensures
            m == (if self.layout.clusters@.len() == 0 { 2 } else { nmos_rows(self.layout.clusters@, self.layout.clusters@.len() as int) }),
    {
        let ghost cs = self.layout.clusters@;
        let n = self.layout.clusters.len();
        let mut m: u16 = 0;
        for i in 0..n
            invariant
                n == cs.len(),
                cs == self.layout.clusters@,
                forall|j: int| 0 <= j < cs.len() ==> ncount(#[trigger] cs[j]) * 2 <= u16::MAX,
                m == nmos_rows(cs, i as int),
        {
            assert(ncount(cs[i as int]) * 2 <= u16::MAX);
            let v = self.layout.clusters[i].nmos.len() as u16 * 2;
            if v > m {
                m = v;
            }
        }
        if n == 0 {
            2
        } else {
            m
        }
    }

    /// Draws the delimiter columns between clusters.
    fn render_delimiters(&self, out: &mut Vec<Stroke>, origin_y: u16, total_h: u16, cluster_widths: &Vec<u16>, cluster_x: &Vec<u16>)
        requires
            cluster_x@.len() == cluster_widths@.len(),
            total_h >= 2,
            origin_y + total_h <= u16::MAX,
            forall|i: int| 0 <= i < cluster_x@.len() ==> cluster_x@[i] + cluster_widths@[i] <= u16::MAX,
        ensures
            strokes_view(final(out)@) == strokes_view(old(out)@) + delimiters(
                cluster_x@,
                cluster_widths@,
                origin_y as int,
                total_h as int,
                0,
            ),
    {
        let ghost xs = cluster_x@;
        let ghost w = cluster_widths@;
        let ghost base = strokes_view(out@);
        let n = cluster_widths.len();
        let count = if n > 0 { n - 1 } else { 0 };
        proof {
            reveal(delimiters);
        }
        for ci in 0..count
            invariant
                xs == cluster_x@,
                w == cluster_widths@,
                n == w.len(),
                xs.len() == n,
                count == (if n > 0 { n - 1 } else { 0 }),
                total_h >= 2,
                origin_y + total_h <= u16::MAX,
                forall|i: int| 0 <= i < xs.len() ==> xs[i] + w[i] <= u16::MAX,
                base + delimiters(xs, w, origin_y as int, total_h as int, 0)
                    == strokes_view(out@) + delimiters(xs, w, origin_y as int, total_h as int, ci as int),
        {
            let ghost before = strokes_view(out@);
            assert(xs[ci as int] + w[ci as int] <= u16::MAX);
            let dx = cluster_x[ci] + cluster_widths[ci];
            let trench_row: u16 = 5;
            let mut dy: u16 = 1;
            while dy < total_h - 1
                invariant
                    1 <= dy <= total_h - 1,
                    trench_row == 5,
                    ci < xs.len(),
                    xs.len() == w.len(),
                    dx == xs[ci as int] + w[ci as int],
                    origin_y + total_h <= u16::MAX,
                    strokes_view(out@) == before + Seq::new(
                        (dy - 1) as nat,
                        |k: int| xy(dx as int, origin_y + 1 + k, if k + 1 == 5 { "╪"@ } else { "│"@ }, Ink::GoldDim),
                    ),
                decreases total_h - dy,
            {
                let ch = if dy == trench_row { "╪" } else { "│" };
                push_stroke(out, dx, origin_y + dy, ch, Ink::GoldDim, false);
                dy = dy + 1;
                assert(strokes_view(out@) =~= before + Seq::new(
                    (dy - 1) as nat,
                    |k: int| xy(dx as int, origin_y + 1 + k, if k + 1 == 5 { "╪"@ } else { "│"@ }, Ink::GoldDim),
                ));
            }
            proof {
                reveal(delimiters);
                assert(strokes_view(out@) + delimiters(xs, w, origin_y as int, total_h as int, ci + 1)
                    =~= before + delimiters(xs, w, origin_y as int, total_h as int, ci as int));
            }
        }
        proof {
            reveal(delimiters);
            assert(strokes_view(out@) + delimiters(xs, w, origin_y as int, total_h as int, count as int)
                =~= strokes_view(out@));
        }
    }

    /// Draws every cluster at its left edge.
    fn render_clusters(&self, out: &mut Vec<Stroke>, origin_y: u16, total_h: u16, cluster_x: &Vec<u16>)
        requires
            self.graph.wf(),
            cluster_x@.len() == self.layout.clusters@.len(),
            forall|i: int|
                0 <= i < self.layout.clusters@.len() ==> cluster_refs_ok(*self.graph, #[trigger] self.layout.clusters@[i]),
            forall|i: int|
                0 <= i < self.layout.clusters@.len() ==> cluster_fits(
                    #[trigger] self.layout.clusters@[i],
                    cluster_x@[i] as int,
                    origin_y as int,
                    total_h,
                ),
        ensures
            strokes_view(final(out)@) == strokes_view(old(out)@) + clusters_drawn(
                *self.graph,
                self.layout.clusters@,
                cluster_x@,
                origin_y as int,
                total_h,
                0,
            ),
    {
        let ghost g = *self.graph;
        let ghost cs = self.layout.clusters@;
        let ghost xs = cluster_x@;
        let ghost base = strokes_view(out@);
        let n = self.layout.clusters.len();
        proof {
            reveal(clusters_drawn);
        }
        for ci in 0..n
            invariant
                g == *self.graph,
                cs == self.layout.clusters@,
                xs == cluster_x@,
                n == cs.len(),
                xs.len() == n,
                g.wf(),
                forall|i: int| 0 <= i < cs.len() ==> cluster_refs_ok(g, #[trigger] cs[i]),
                forall|i: int| 0 <= i < cs.len() ==> cluster_fits(#[trigger] cs[i], xs[i] as int, origin_y as int, total_h),
                base + clusters_drawn(g, cs, xs, origin_y as int, total_h, 0)
                    == strokes_view(out@) + clusters_drawn(g, cs, xs, origin_y as int, total_h, ci as int),
        {
            let ghost before = strokes_view(out@);
            assert(cluster_refs_ok(g, cs[ci as int]));
            assert(cluster_fits(cs[ci as int], xs[ci as int] as int, origin_y as int, total_h));
            self.render_cluster(out, &self.layout.clusters[ci], cluster_x[ci], origin_y, total_h);
            proof {
                reveal(clusters_drawn);
                assert(strokes_view(out@) + clusters_drawn(g, cs, xs, origin_y as int, total_h, ci + 1)
                    =~= before + clusters_drawn(g, cs, xs, origin_y as int, total_h, ci as int));
            }
        }
        proof {
            reveal(clusters_drawn);
            assert(strokes_view(out@) + clusters_drawn(g, cs, xs, origin_y as int, total_h, n as int)
                =~= strokes_view(out@));
        }
    }
}


proof fn lemma_cluster_left_bound(ox: int, w: Seq<u16>, i: int)
    requires
        0 <= i < w.len(),
    ensures
        ox + i <= cluster_left(ox, w, i),
        cluster_left(ox, w, i) + w[i] <= ox + sum_widths(w, w.len() as int) + w.len() - 1,
        i < w.len() - 1 ==> cluster_left(ox, w, i + 1) == cluster_left(ox, w, i) + w[i] + 1,
{
    lemma_sum_widths_mono(w, 0, i);
    lemma_sum_widths_mono(w, i, w.len() as int);
    if i < w.len() - 1 {
        assert(sum_widths(w, i + 1) == sum_widths(w, i) + w[i]);
    }
}

impl<'a> TopologyWidget<'a> {
    /// The drawing inside a bordered `area`, as strokes to
    /// apply in order (a later stroke covers an earlier one).
    pub fn strokes(&self, area: Area) -> (r: Vec<Stroke>)
        requires
            self.graph.wf(),
            drawable(*self.graph, *self.layout, bordered_inner_spec(area)),
        ensures
            strokes_view(r@) == topology_strokes(*self.graph, *self.layout, area),
    {
        let inner = bordered_inner(area);
        let mut out: Vec<Stroke> = Vec::new();
        if inner.width < 10 || inner.height < 10 {
            assert(strokes_view(out@) =~= Seq::<StrokeView>::empty());
            return out;
        }
        let ghost g = *self.graph;
        let ghost cs = self.layout.clusters@;
        let ghost w = widths_of(cs);
        let ghost tw = total_width(cs);
        let ghost th = total_height(cs);
        let ghost sx = centred(inner.x, inner.width, tw);
        let ghost sy = centred(inner.y, inner.height, th);
        let cluster_widths = self.cluster_widths();
        let n = cluster_widths.len();
        proof {
            lemma_sum_widths_mono(w, 0, n as int);
        }
        // the width of the whole drawing
        let mut sum: u16 = 0;
        for i in 0..n
            invariant
                w == cluster_widths@,
                n == w.len(),
                sum == sum_widths(w, i as int),
                sum_widths(w, n as int) <= u16::MAX,
        {
            proof {
                lemma_sum_widths_mono(w, i + 1, n as int);
            }
            sum = sum + cluster_widths[i];
        }
        let delimiter_w: u16 = 1;
        let total_w: u16 = sum + (if n > 0 { n - 1 } else { 0 }) as u16 * delimiter_w;
        assert(total_w == tw);
        // the height: rails, PMOS rows, bridge, trench, drop, NMOS rows
        let max_rows = self.max_nmos_rows();
        let total_h: u16 = 1 + 3 + 1 + 1 + 1 + max_rows + 1;
        assert(total_h == th);
        let start_x = inner.x + (if inner.width < total_w { 0 } else { inner.width - total_w }) / 2;
        let start_y = inner.y + (if inner.height < total_h { 0 } else { inner.height - total_h }) / 2;
        assert(start_x == sx && start_y == sy);
        // the left edge of every cluster
        let mut cluster_x: Vec<u16> = Vec::new();
        let mut cx = start_x;
        for ci in 0..n
            invariant
                w == cluster_widths@,
                n == w.len(),
                start_x + total_w <= u16::MAX,
                delimiter_w == 1,
                total_w == sum_widths(w, n as int) + (if n > 0 { n - 1 } else { 0 }),
                ci < n ==> cx == cluster_left(start_x as int, w, ci as int),
                cluster_x@ == cluster_xs(start_x as int, w).take(ci as int),
        {
            proof {
                lemma_cluster_left_bound(start_x as int, w, ci as int);
                if ci < n - 1 {
                    lemma_cluster_left_bound(start_x as int, w, ci + 1);
                }
            }
            cluster_x.push(cx);
            assert(cluster_x@ =~= cluster_xs(start_x as int, w).take(ci + 1));
            cx = cx + cluster_widths[ci];
            if ci < n - 1 {
                cx = cx + delimiter_w;
            }
        }
        assert(cluster_x@ =~= cluster_xs(start_x as int, w));
        let ghost xs = cluster_x@;
        proof {
            assert forall|i: int| 0 <= i < n implies xs[i] + w[i] <= u16::MAX && xs[i] == cluster_left(sx, w, i) by {
                lemma_cluster_left_bound(sx, w, i);
            }
            assert forall|i: int| 0 <= i < cs.len() implies cluster_fits(#[trigger] cs[i], xs[i] as int, sy, total_h) by {
                lemma_cluster_left_bound(sx, w, i);
                lemma_nmos_rows_bound(cs, i, cs.len() as int);
                assert(body_edge(pcount(cs[i])) + 3 <= u16::MAX);
            }
            if n > 0 {
                lemma_cluster_left_bound(sx, w, n - 1);
            }
        }
        let ghost s0 = strokes_view(out@);
        // silicon texture, then the shared rails
        self.render_substrate(&mut out, start_x, start_y, total_h, &cluster_widths);
        draw_rail(&mut out, start_x, start_y, total_w, wire_ink(self.graph.signals[0]));
        draw_rail(&mut out, start_x, start_y + total_h - 1, total_w, wire_ink(self.graph.signals[1]));
        // cluster delimiters, every cluster, the trench traces on top
        self.render_delimiters(&mut out, start_y, total_h, &cluster_widths, &cluster_x);
        self.render_clusters(&mut out, start_y, total_h, &cluster_x);
        self.render_trench(&mut out, start_x, start_y, total_w, &cluster_x);
        assert(s0 =~= Seq::<StrokeView>::empty());
        assert(strokes_view(out@) =~= topology_strokes(g, *self.layout, area));
        out
    }
}


impl<'a> TopologyWidget<'a> {
    /// Whether every signal the layout names exists in the graph.
    fn refs_ok(&self) -> (b: bool)
        requires
            self.graph.wf(),
        ensures
            b == layout_refs_ok(*self.graph, *self.layout),
    {
        let ghost g = *self.graph;
        let ghost cs = self.layout.clusters@;
        let ns = self.graph.signals.len();
        if self.layout.output_signal.0 >= ns {
            return false;
        }
        for i in 0..self.layout.clusters.len()
            invariant
                g == *self.graph,
                cs == self.layout.clusters@,
                ns == g.signals@.len(),
                self.layout.output_signal.0 < ns,
                forall|j: int| 0 <= j < i ==> cluster_refs_ok(g, #[trigger] cs[j]),
        {
            let c = &self.layout.clusters[i];
            if c.output.0 >= ns {
                return false;
            }
            for k in 0..c.pmos.len()
                invariant
                    g == *self.graph,
                    ns == g.signals@.len(),
                    *c == cs[i as int],
                    cs == self.layout.clusters@,
                    i < cs.len(),
                    forall|x: int| 0 <= x < k ==> (#[trigger] c.pmos@[x]).gate_signal.0 < ns,
            {
                if c.pmos[k].gate_signal.0 >= ns {
                    assert(!cluster_refs_ok(g, cs[i as int]));
                    return false;
                }
            }
            for k in 0..c.nmos.len()
                invariant
                    g == *self.graph,
                    ns == g.signals@.len(),
                    *c == cs[i as int],
                    cs == self.layout.clusters@,
                    i < cs.len(),
                    forall|x: int|
                        0 <= x < k ==> (#[trigger] c.nmos@[x]).gate_signal.0 < ns && c.nmos@[x].vertical_out.0 < ns,
            {
                if c.nmos[k].gate_signal.0 >= ns || c.nmos[k].vertical_out.0 >= ns {
                    assert(!cluster_refs_ok(g, cs[i as int]));
                    return false;
                }
            }
            assert(cluster_refs_ok(g, cs[i as int]));
        }
        true
    }

    /// Whether the drawing fits in u16 inside `inner`.
    fn fits_in(&self, inner: Area) -> (b: bool)
        requires
            self.graph.wf(),
            layout_refs_ok(*self.graph, *self.layout),
        ensures
            b == topology_fits(*self.graph, *self.layout, inner),
    {
        let ghost g = *self.graph;
        let ghost cs = self.layout.clusters@;
        let n = self.layout.clusters.len();
        if n > 65535 {
            return false;
        }
        for i in 0..n
            invariant
                cs == self.layout.clusters@,
                n == cs.len(),
                forall|j: int| 0 <= j < i ==> body_edge(pcount(#[trigger] cs[j])) + 3 <= u16::MAX,
                forall|j: int| 0 <= j < i ==> ncount(#[trigger] cs[j]) * 2 <= u16::MAX,
        {
            let p = self.layout.clusters[i].pmos.len() as u16;
            let body: u64 = 2 + (if p > 0 { p as u64 - 1 } else { 0 }) * 8;
            if body + 3 > 65535 {
                assert(body_edge(pcount(cs[i as int])) + 3 > u16::MAX);
                return false;
            }
            let q = self.layout.clusters[i].nmos.len() as u16;
            if q as u64 * 2 > 65535 {
                assert(ncount(cs[i as int]) * 2 > u16::MAX);
                return false;
            }
        }
        let cluster_widths = self.cluster_widths();
        let ghost w = cluster_widths@;
        let mut sum: u64 = 0;
        for i in 0..n
            invariant
                w == cluster_widths@,
                n == w.len(),
                n <= 65535,
                sum == sum_widths(w, i as int),
                sum <= 65535 * i,
        {
            sum = sum + cluster_widths[i] as u64;
        }
        let total_w: u64 = sum + if n > 0 { n as u64 - 1 } else { 0 };
        let rows = self.max_nmos_rows();
        let total_h: u64 = 8 + rows as u64;
        let ghost tw = total_width(cs);
        let ghost th = total_height(cs);
        assert(total_w == tw && total_h == th);
        let start_x: u64 = inner.x as u64 + if (inner.width as u64) < total_w {
            0
        } else {
            (inner.width as u64 - total_w) / 2
        };
        let start_y: u64 = inner.y as u64 + if (inner.height as u64) < total_h {
            0
        } else {
            (inner.height as u64 - total_h) / 2
        };
        let ghost sx = centred(inner.x, inner.width, tw);
        let ghost sy = centred(inner.y, inner.height, th);
        assert(start_x == sx && start_y == sy);
        if start_x + total_w > 65535 || start_y + total_h > 65535 {
            return false;
        }
        // the trench labels
        let ghost xs = cluster_xs(sx, w);
        let final_name = name_text(self.graph, self.layout.output_signal.0, "Y");
        if final_name.len() > 65535 {
            return false;
        }
        proof {
            lemma_sum_widths_mono(w, 0, n as int);
            lemma_nmos_rows_nonneg(cs, n as int);
        }
        let mut cx: u64 = start_x;
        for i in 0..n
            invariant
                g == *self.graph,
                cs == self.layout.clusters@,
                w == cluster_widths@,
                w == widths_of(cs),
                n == w.len(),
                n <= 65535,
                g.wf(),
                layout_refs_ok(g, *self.layout),
                forall|j: int| 0 <= j < n ==> body_edge(pcount(#[trigger] cs[j])) + 3 <= u16::MAX,
                forall|j: int| 0 <= j < n ==> ncount(#[trigger] cs[j]) * 2 <= u16::MAX,
                start_x == sx,
                sx + tw <= u16::MAX,
                sy + th <= u16::MAX,
                th >= 8,
                n > 0 ==> tw >= 1,
                tw == total_width(cs),
                th == total_height(cs),
                sx == centred(inner.x, inner.width, tw),
                sy == centred(inner.y, inner.height, th),
                byte_len(name_of(g, self.layout.output_signal.0 as int, "Y"@)) <= u16::MAX,
                tw == sum_widths(w, n as int) + (if n > 0 { n - 1 } else { 0 }),
                xs == cluster_xs(sx, w),
                i < n ==> cx == cluster_left(sx, w, i as int),
                forall|j: int|
                    0 <= j < i ==> pillar_col(xs, cs, j) + 1 + byte_len(name_of(g, (#[trigger] cs[j]).output.0 as int, "?"@))
                        <= u16::MAX,
        {
            proof {
                lemma_cluster_left_bound(sx, w, i as int);
            }
            let c = &self.layout.clusters[i];
            assert(cluster_refs_ok(g, cs[i as int]));
            assert(body_edge(pcount(cs[i as int])) + 3 <= u16::MAX);
            let p = c.pmos.len() as u16;
            let body: u64 = 2 + (if p > 0 { p as u64 - 1 } else { 0 }) * 8;
            let pillar_at = cx + (2 + body) / 2;
            assert(pillar_at == pillar_col(xs, cs, i as int));
            let name = name_text(self.graph, c.output.0, "?");
            assert(name.len() == byte_len(name_of(g, cs[i as int].output.0 as int, "?"@)));
            if name.len() > 65535 || pillar_at + 1 + name.len() as u64 > 65535 {
                return false;
            }
            cx = cx + cluster_widths[i] as u64 + 1;
        }
        true
    }

    /// Whether the drawing can be computed in `area` (see `strokes`).
    pub fn can_draw(&self, area: Area) -> (b: bool)
        requires
            self.graph.wf(),
        ensures
            b == drawable(*self.graph, *self.layout, bordered_inner_spec(area)),
    {
        let inner = bordered_inner(area);
        if inner.width < 10 || inner.height < 10 {
            return true;
        }
        if !self.refs_ok() {
            return false;
        }
        self.fits_in(inner)
    }
}

} // verus!
