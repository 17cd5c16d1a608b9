use vstd::prelude::*;

use std::collections::HashMap;
use std::collections::VecDeque;

use crate::sim::transistor::{GateDescriptor, SignalId};

verus! {

broadcast use vstd::std_specs::hash::group_hash_axioms;

/// The last of the first `k` gates that drives signal `s`.
pub open spec fn last_producer(gates: Seq<GateDescriptor>, s: int, k: int) -> Option<int>
    decreases k,
{
    if k <= 0 || k > gates.len() {
        None
    } else if gates[k - 1].output.0 == s {
        Some(k - 1)
    } else {
        last_producer(gates, s, k - 1)
    }
}

/// The edges into gate `j` from its first `k` inputs: one from whichever
/// gate drives an input, for every input some gate drives.
pub open spec fn input_edges(gates: Seq<GateDescriptor>, j: int, k: int) -> Seq<(usize, usize)>
    decreases k,
{
    if k <= 0 {
        Seq::empty()
    } else {
        input_edges(gates, j, k - 1) + match last_producer(
            gates,
            gates[j].inputs@[k - 1].0 as int,
            gates.len() as int,
        ) {
            Some(i) => seq![(i as usize, j as usize)],
            None => Seq::empty(),
        }
    }
}

/// The edges into the first `j` gates, gate by gate.
pub open spec fn gate_edges(gates: Seq<GateDescriptor>, j: int) -> Seq<(usize, usize)>
    decreases j,
{
    if j <= 0 || j > gates.len() {
        Seq::empty()
    } else {
        gate_edges(gates, j - 1) + input_edges(gates, j - 1, gates[j - 1].inputs@.len() as int)
    }
}

/// The dependency edges between gates: `(i, j)` for every input of gate
/// `j` that gate `i` drives; where several gates drive one signal, the
/// last of them.
pub fn build_edges(gates: &[GateDescriptor]) -> (edges: Vec<(usize, usize)>)
    ensures
        edges@ == gate_edges(gates@, gates@.len() as int),
{
    let n = gates.len();
    // each driven signal to the last gate that drives it
    let mut output_to_index: HashMap<usize, usize> = HashMap::new();
    let mut idx: usize = 0;
    while idx < n
        invariant
            n == gates@.len(),
            idx <= n,
            forall|s: usize|
                #![trigger output_to_index@.contains_key(s)]
                match last_producer(gates@, s as int, idx as int) {
                    Some(i) => output_to_index@.contains_key(s) && output_to_index@[s] == i,
                    None => !output_to_index@.contains_key(s),
                },
        decreases n - idx,
    {
        let ghost before = output_to_index@;
        output_to_index.insert(gates[idx].output.0, idx);
        assert(output_to_index@ == before.insert(gates@[idx as int].output.0, idx));
        assert forall|s: usize|
            #![trigger output_to_index@.contains_key(s)]
            match last_producer(gates@, s as int, idx + 1) {
                Some(i) => output_to_index@.contains_key(s) && output_to_index@[s] == i,
                None => !output_to_index@.contains_key(s),
            } by {
            assert(before.contains_key(s) || !before.contains_key(s));
        }
        idx = idx + 1;
    }
    let mut edges: Vec<(usize, usize)> = Vec::new();
    for j in 0..n
        invariant
            n == gates@.len(),
            forall|s: usize|
                #![trigger output_to_index@.contains_key(s)]
                match last_producer(gates@, s as int, n as int) {
                    Some(i) => output_to_index@.contains_key(s) && output_to_index@[s] == i,
                    None => !output_to_index@.contains_key(s),
                },
            edges@ == gate_edges(gates@, j as int),
    {
        let ghost before = edges@;
        let inputs = &gates[j].inputs;
        for k in 0..inputs.len()
            invariant
                n == gates@.len(),
                j < n,
                inputs@ == gates@[j as int].inputs@,
                forall|s: usize|
                    #![trigger output_to_index@.contains_key(s)]
                    match last_producer(gates@, s as int, n as int) {
                        Some(i) => output_to_index@.contains_key(s) && output_to_index@[s] == i,
                        None => !output_to_index@.contains_key(s),
                    },
                edges@ == before + input_edges(gates@, j as int, k as int),
        {
            let s = inputs[k].0;
            assert(output_to_index@.contains_key(s) || !output_to_index@.contains_key(s));
            match output_to_index.get(&s) {
                Some(i) => {
                    edges.push((*i, j));
                },
                None => {},
            }
            assert(edges@ =~= before + input_edges(gates@, j as int, k + 1));
        }
        assert(edges@ =~= gate_edges(gates@, j + 1));
    }
    edges
}


/// Every edge joins two of the `n` gates.
pub open spec fn edges_within(edges: Seq<(usize, usize)>, n: int) -> bool {
    forall|e: int| 0 <= e < edges.len() ==> (#[trigger] edges[e]).0 < n && edges[e].1 < n
}

/// Gate `i` drives signal `s`, and no gate after it does.
pub open spec fn drives_last(gates: Seq<GateDescriptor>, i: int, s: int) -> bool {
    &&& 0 <= i < gates.len()
    &&& gates[i].output.0 == s
    &&& forall|m: int| i < m < gates.len() ==> gates[m].output.0 != s
}

/// Gate `j` depends on gate `i`: one of `j`'s inputs is driven last by `i`.
pub open spec fn depends_on(gates: Seq<GateDescriptor>, j: int, i: int) -> bool {
    &&& 0 <= j < gates.len()
    &&& exists|k: int|
        0 <= k < gates[j].inputs@.len() && #[trigger] drives_last(gates, i, gates[j].inputs@[k].0 as int)
}

proof fn lemma_last_producer(gates: Seq<GateDescriptor>, s: int, k: int)
    requires
        0 <= k <= gates.len(),
    ensures
        match last_producer(gates, s, k) {
            Some(i) => 0 <= i < k && gates[i].output.0 == s && forall|m: int|
                i < m < k ==> #[trigger] gates[m].output.0 != s,
            None => forall|m: int| 0 <= m < k ==> #[trigger] gates[m].output.0 != s,
        },
    decreases k,
{
    if k > 0 {
        lemma_last_producer(gates, s, k - 1);
    }
}

proof fn lemma_last_producer_is(gates: Seq<GateDescriptor>, i: int, s: int)
    requires
        drives_last(gates, i, s),
    ensures
        last_producer(gates, s, gates.len() as int) == Some(i),
{
    lemma_last_producer(gates, s, gates.len() as int);
    match last_producer(gates, s, gates.len() as int) {
        Some(i2) => {
            assert(gates[i].output.0 == s && gates[i2].output.0 == s);
        },
        None => {
            assert(gates[i].output.0 == s);
        },
    }
}

proof fn lemma_input_edges_sound(gates: Seq<GateDescriptor>, j: int, k: int)
    requires
        0 <= j < gates.len() <= usize::MAX,
        0 <= k <= gates[j].inputs@.len(),
    ensures
        forall|x: int|
            0 <= x < input_edges(gates, j, k).len() ==> (#[trigger] input_edges(gates, j, k)[x]).1 == j
                && depends_on(gates, j, input_edges(gates, j, k)[x].0 as int),
    decreases k,
{
    if k > 0 {
        lemma_input_edges_sound(gates, j, k - 1);
        let pre = input_edges(gates, j, k - 1);
        let s = gates[j].inputs@[k - 1].0 as int;
        lemma_last_producer(gates, s, gates.len() as int);
        match last_producer(gates, s, gates.len() as int) {
            Some(i) => {
                assert(input_edges(gates, j, k) == pre + seq![(i as usize, j as usize)]);
                assert forall|x: int| 0 <= x < input_edges(gates, j, k).len() implies (#[trigger] input_edges(
                    gates,
                    j,
                    k,
                )[x]).1 == j && depends_on(gates, j, input_edges(gates, j, k)[x].0 as int) by {
                    if x < pre.len() {
                        assert(input_edges(gates, j, k)[x] == pre[x]);
                    } else {
                        assert(input_edges(gates, j, k)[x] == (i as usize, j as usize));
                        assert(drives_last(gates, i, gates[j].inputs@[k - 1].0 as int));
                    }
                }
            },
            None => {
                assert(input_edges(gates, j, k) =~= pre);
            },
        }
    }
}

proof fn lemma_input_edges_complete(gates: Seq<GateDescriptor>, j: int, k: int, kk: int, i: int)
    requires
        0 <= j < gates.len() <= usize::MAX,
        0 <= kk < k <= gates[j].inputs@.len(),
        drives_last(gates, i, gates[j].inputs@[kk].0 as int),
    ensures
        input_edges(gates, j, k).contains((i as usize, j as usize)),
    decreases k,
{
    let pre = input_edges(gates, j, k - 1);
    if kk < k - 1 {
        lemma_input_edges_complete(gates, j, k - 1, kk, i);
        let x = choose|x: int| 0 <= x < pre.len() && pre[x] == (i as usize, j as usize);
        assert(input_edges(gates, j, k)[x] == pre[x]);
    } else {
        lemma_last_producer_is(gates, i, gates[j].inputs@[kk].0 as int);
        assert(input_edges(gates, j, k) == pre + seq![(i as usize, j as usize)]);
        assert(input_edges(gates, j, k)[pre.len() as int] == (i as usize, j as usize));
    }
}

proof fn lemma_gate_edges_sound(gates: Seq<GateDescriptor>, j: int)
    requires
        0 <= j <= gates.len() <= usize::MAX,
    ensures
        forall|x: int|
            0 <= x < gate_edges(gates, j).len() ==> (#[trigger] gate_edges(gates, j)[x]).1 < j
                && depends_on(gates, gate_edges(gates, j)[x].1 as int, gate_edges(gates, j)[x].0 as int),
    decreases j,
{
    if j > 0 {
        lemma_gate_edges_sound(gates, j - 1);
        let pre = gate_edges(gates, j - 1);
        let tail = input_edges(gates, j - 1, gates[j - 1].inputs@.len() as int);
        lemma_input_edges_sound(gates, j - 1, gates[j - 1].inputs@.len() as int);
        assert forall|x: int| 0 <= x < gate_edges(gates, j).len() implies (#[trigger] gate_edges(gates, j)[x]).1
            < j && depends_on(gates, gate_edges(gates, j)[x].1 as int, gate_edges(gates, j)[x].0 as int) by {
            if x < pre.len() {
                assert(gate_edges(gates, j)[x] == pre[x]);
            } else {
                assert(gate_edges(gates, j)[x] == tail[x - pre.len()]);
            }
        }
    }
}

proof fn lemma_gate_edges_complete(gates: Seq<GateDescriptor>, jj: int, j: int, kk: int, i: int)
    requires
        0 <= j < jj <= gates.len() <= usize::MAX,
        0 <= kk < gates[j].inputs@.len(),
        drives_last(gates, i, gates[j].inputs@[kk].0 as int),
    ensures
        gate_edges(gates, jj).contains((i as usize, j as usize)),
    decreases jj,
{
    let pre = gate_edges(gates, jj - 1);
    let tail = input_edges(gates, jj - 1, gates[jj - 1].inputs@.len() as int);
    assert(gate_edges(gates, jj) == pre + tail);
    if j < jj - 1 {
        lemma_gate_edges_complete(gates, jj - 1, j, kk, i);
        let x = choose|x: int| 0 <= x < pre.len() && pre[x] == (i as usize, j as usize);
        assert(gate_edges(gates, jj)[x] == pre[x]);
    } else {
        lemma_input_edges_complete(gates, j, gates[j].inputs@.len() as int, kk, i);
        let x = choose|x: int| 0 <= x < tail.len() && tail[x] == (i as usize, j as usize);
        assert(gate_edges(gates, jj)[pre.len() + x] == tail[x]);
    }
}

/// How many times `e` occurs in `edges`.
pub open spec fn edge_count(edges: Seq<(usize, usize)>, e: (usize, usize)) -> nat
    decreases edges.len(),
{
    if edges.len() == 0 {
        0
    } else {
        edge_count(edges.drop_last(), e) + if edges.last() == e { 1nat } else { 0nat }
    }
}

/// How many of the first `k` inputs of gate `j` gate `i` drives last.
pub open spec fn inputs_driven_by(gates: Seq<GateDescriptor>, j: int, i: int, k: int) -> nat
    decreases k,
{
    if k <= 0 {
        0
    } else {
        inputs_driven_by(gates, j, i, k - 1) + if drives_last(gates, i, gates[j].inputs@[k - 1].0 as int) {
            1nat
        } else {
            0nat
        }
    }
}

proof fn lemma_edge_count_add(a: Seq<(usize, usize)>, b: Seq<(usize, usize)>, e: (usize, usize))
    ensures
        edge_count(a + b, e) == edge_count(a, e) + edge_count(b, e),
    decreases b.len(),
{
    if b.len() == 0 {
        assert(a + b =~= a);
    } else {
        lemma_edge_count_add(a, b.drop_last(), e);
        assert((a + b).drop_last() =~= a + b.drop_last());
        assert((a + b).last() == b.last());
    }
}

proof fn lemma_input_edges_count(gates: Seq<GateDescriptor>, jp: int, k: int, i: int, j: int)
    requires
        0 <= jp < gates.len() <= usize::MAX,
        0 <= k <= gates[jp].inputs@.len(),
        0 <= i < gates.len(),
        0 <= j < gates.len(),
    ensures
        edge_count(input_edges(gates, jp, k), (i as usize, j as usize)) == if jp == j {
            inputs_driven_by(gates, j, i, k)
        } else {
            0
        },
    decreases k,
{
    if k > 0 {
        lemma_input_edges_count(gates, jp, k - 1, i, j);
        let pre = input_edges(gates, jp, k - 1);
        let s = gates[jp].inputs@[k - 1].0 as int;
        lemma_last_producer(gates, s, gates.len() as int);
        if drives_last(gates, i, s) {
            lemma_last_producer_is(gates, i, s);
        }
        match last_producer(gates, s, gates.len() as int) {
            Some(i2) => {
                let one = seq![(i2 as usize, jp as usize)];
                assert(input_edges(gates, jp, k) == pre + one);
                lemma_edge_count_add(pre, one, (i as usize, j as usize));
                assert(one.drop_last() =~= Seq::<(usize, usize)>::empty());
                assert(edge_count(Seq::<(usize, usize)>::empty(), (i as usize, j as usize)) == 0);
                assert(edge_count(one, (i as usize, j as usize)) == if one.last() == (i as usize, j as usize) {
                    1nat
                } else {
                    0nat
                });
                assert((i2 as usize, jp as usize) == (i as usize, j as usize) <==> (i2 == i && jp == j));
                if i2 != i {
                    assert(!drives_last(gates, i, s));
                }
            },
            None => {
                assert(input_edges(gates, jp, k) =~= pre);
                assert(!drives_last(gates, i, s));
            },
        }
    }
}

proof fn lemma_gate_edges_count(gates: Seq<GateDescriptor>, jj: int, i: int, j: int)
    requires
        0 <= jj <= gates.len() <= usize::MAX,
        0 <= i < gates.len(),
        0 <= j < gates.len(),
    ensures
        edge_count(gate_edges(gates, jj), (i as usize, j as usize)) == if j < jj {
            inputs_driven_by(gates, j, i, gates[j].inputs@.len() as int)
        } else {
            0
        },
    decreases jj,
{
    if jj > 0 {
        lemma_gate_edges_count(gates, jj - 1, i, j);
        let pre = gate_edges(gates, jj - 1);
        let tail = input_edges(gates, jj - 1, gates[jj - 1].inputs@.len() as int);
        assert(gate_edges(gates, jj) == pre + tail);
        lemma_edge_count_add(pre, tail, (i as usize, j as usize));
        lemma_input_edges_count(gates, jj - 1, gates[jj - 1].inputs@.len() as int, i, j);
    }
}

/// Each input of gate `j` that gate `i` drives last gives its own edge
/// `(i, j)`: the edge occurs once per such input, so two inputs on one
/// wire give it twice.
pub proof fn lemma_edge_per_driven_input(gates: Seq<GateDescriptor>, i: int, j: int)
    requires
        gates.len() <= usize::MAX,
        0 <= i < gates.len(),
        0 <= j < gates.len(),
    ensures
        edge_count(gate_edges(gates, gates.len() as int), (i as usize, j as usize)) == inputs_driven_by(
            gates,
            j,
            i,
            gates[j].inputs@.len() as int,
        ),
{
    lemma_gate_edges_count(gates, gates.len() as int, i, j);
}

/// The dependency edges are exactly the dependencies: `(i, j)` is an edge
/// if and only if gate `i` is the last gate driving one of gate `j`'s
/// inputs, whether `i` comes before `j` or after it (a latch's feedback
/// gives an edge back to an earlier gate).
pub proof fn lemma_edges_are_dependencies(gates: Seq<GateDescriptor>, i: int, j: int)
    requires
        gates.len() <= usize::MAX,
        0 <= i < gates.len(),
        0 <= j < gates.len(),
    ensures
        gate_edges(gates, gates.len() as int).contains((i as usize, j as usize)) <==> depends_on(gates, j, i),
{
    let n = gates.len() as int;
    if depends_on(gates, j, i) {
        let kk = choose|k: int|
            0 <= k < gates[j].inputs@.len() && #[trigger] drives_last(gates, i, gates[j].inputs@[k].0 as int);
        lemma_gate_edges_complete(gates, n, j, kk, i);
    }
    if gate_edges(gates, n).contains((i as usize, j as usize)) {
        lemma_gate_edges_sound(gates, n);
        let x = choose|x: int| 0 <= x < gate_edges(gates, n).len() && gate_edges(gates, n)[x] == (i as usize, j as usize);
        assert(gate_edges(gates, n)[x] == (i as usize, j as usize));
    }
}

/// Each edge `(i, j)` joins two of the gates, and `i` is the last gate
/// driving one of the inputs of `j`.
pub proof fn lemma_edges_join_dependent_gates(gates: Seq<GateDescriptor>)
    requires
        gates.len() <= usize::MAX,
    ensures
        edges_within(gate_edges(gates, gates.len() as int), gates.len() as int),
        forall|x: int|
            0 <= x < gate_edges(gates, gates.len() as int).len() ==> depends_on(
                gates,
                (#[trigger] gate_edges(gates, gates.len() as int)[x]).1 as int,
                gate_edges(gates, gates.len() as int)[x].0 as int,
            ),
{
    lemma_gate_edges_sound(gates, gates.len() as int);
}

/// The heads of the first `k` edges that leave `u`, in order.
pub open spec fn out_list(edges: Seq<(usize, usize)>, u: int, k: int) -> Seq<usize>
    decreases k,
{
    if k <= 0 || k > edges.len() {
        Seq::empty()
    } else if edges[k - 1].0 == u {
        out_list(edges, u, k - 1).push(edges[k - 1].1)
    } else {
        out_list(edges, u, k - 1)
    }
}

/// How many of the first `k` edges enter `v` from a gate outside `done`.
pub open spec fn in_count(edges: Seq<(usize, usize)>, v: int, done: Set<int>, k: int) -> nat
    decreases k,
{
    if k <= 0 || k > edges.len() {
        0
    } else {
        in_count(edges, v, done, k - 1) + if edges[k - 1].1 == v && !done.contains(edges[k - 1].0 as int) {
            1nat
        } else {
            0nat
        }
    }
}

/// How many times `v` occurs in `s`.
pub open spec fn occurrences(s: Seq<usize>, v: int) -> nat
    decreases s.len(),
{
    if s.len() == 0 {
        0
    } else {
        occurrences(s.drop_last(), v) + if s.last() == v {
            1nat
        } else {
            0nat
        }
    }
}

/// The gates at the first `h` positions of `s`.
pub open spec fn prefix_set(s: Seq<usize>, h: int) -> Set<int> {
    Set::new(|i: int| exists|p: int| 0 <= p < h && #[trigger] s[p] == i)
}

pub open spec fn listed(s: Seq<usize>, v: int) -> bool {
    exists|p: int| 0 <= p < s.len() && #[trigger] s[p] == v
}

/// `order` is the order in which Kahn's algorithm takes the `n` gates:
/// each at most once, after the tail of every edge into it; a gate is left
/// out only when an edge into it comes from a gate left out too (it sits
/// on or behind a cycle).
#[verifier::opaque]
pub open spec fn is_kahn_order(n: int, edges: Seq<(usize, usize)>, order: Seq<usize>) -> bool {
    &&& forall|p: int| 0 <= p < order.len() ==> (#[trigger] order[p]) < n
    &&& forall|p1: int, p2: int| 0 <= p1 < p2 < order.len() ==> (#[trigger] order[p1]) != (#[trigger] order[p2])
    &&& forall|p: int, e: int|
        0 <= p < order.len() && 0 <= e < edges.len() && (#[trigger] edges[e]).1 == (#[trigger] order[p])
            ==> exists|p2: int| 0 <= p2 < p && (#[trigger] order[p2]) == edges[e].0
    &&& forall|v: int|
        0 <= v < n && !listed(order, v) ==> exists|e: int|
            0 <= e < edges.len() && (#[trigger] edges[e]).1 == v && !listed(order, edges[e].0 as int)
}

proof fn lemma_in_count_bound(edges: Seq<(usize, usize)>, v: int, done: Set<int>, k: int)
    ensures
        in_count(edges, v, done, k) <= if k < 0 { 0 } else { k },
    decreases k,
{
    if 0 < k <= edges.len() {
        lemma_in_count_bound(edges, v, done, k - 1);
    }
}

proof fn lemma_in_count_zero(edges: Seq<(usize, usize)>, v: int, done: Set<int>, k: int)
    requires
        0 <= k <= edges.len(),
    ensures
        in_count(edges, v, done, k) == 0 <==> forall|e: int|
            0 <= e < k && (#[trigger] edges[e]).1 == v ==> done.contains(edges[e].0 as int),
    decreases k,
{
    if k > 0 {
        lemma_in_count_zero(edges, v, done, k - 1);
    }
}

/// Taking `u` into `done` removes exactly the edges from `u` to `v`.
proof fn lemma_in_count_take(edges: Seq<(usize, usize)>, v: int, done: Set<int>, u: int, k: int)
    requires
        !done.contains(u),
        0 <= k <= edges.len(),
    ensures
        occurrences(out_list(edges, u, k), v) + in_count(edges, v, done.insert(u), k) == in_count(edges, v, done, k),
    decreases k,
{
    if k > 0 {
        lemma_in_count_take(edges, v, done, u, k - 1);
        if edges[k - 1].0 == u {
            let prev = out_list(edges, u, k - 1);
            assert(prev.push(edges[k - 1].1).drop_last() =~= prev);
        }
    }
}

proof fn lemma_occurrences_take(s: Seq<usize>, v: int, i: int)
    requires
        0 <= i < s.len(),
    ensures
        occurrences(s.take(i + 1), v) == occurrences(s.take(i), v) + if s[i] == v {
            1nat
        } else {
            0nat
        },
        occurrences(s.take(i + 1), v) <= occurrences(s, v),
    decreases s.len(),
{
    assert(s.take(i + 1).drop_last() =~= s.take(i));
    if i + 1 < s.len() {
        lemma_occurrences_take(s.drop_last(), v, i);
        assert(s.drop_last().take(i + 1) =~= s.take(i + 1));
        assert(s.drop_last().take(i) =~= s.take(i));
    } else {
        assert(s.take(i + 1) =~= s);
    }
}

proof fn lemma_out_list(edges: Seq<(usize, usize)>, n: int, u: int, k: int)
    requires
        edges_within(edges, n),
        0 <= k <= edges.len(),
    ensures
        forall|x: int| 0 <= x < out_list(edges, u, k).len() ==> #[trigger] out_list(edges, u, k)[x] < n,
        forall|x: int|
            #![trigger out_list(edges, u, k)[x]]
            0 <= x < out_list(edges, u, k).len() ==> exists|e: int|
                0 <= e < k && #[trigger] edges[e] == (u as usize, out_list(edges, u, k)[x]),
        forall|e: int|
            0 <= e < k && (#[trigger] edges[e]).0 == u ==> exists|x: int|
                0 <= x < out_list(edges, u, k).len() && out_list(edges, u, k)[x] == edges[e].1,
    decreases k,
{
    if k > 0 {
        lemma_out_list(edges, n, u, k - 1);
        assert(edges[k - 1].1 < n);
        let prev = out_list(edges, u, k - 1);
        let cur = out_list(edges, u, k);
        assert forall|x: int| 0 <= x < cur.len() implies #[trigger] cur[x] < n by {
            if x < prev.len() {
                assert(cur[x] == prev[x]);
            }
        }
        assert forall|x: int| #![trigger cur[x]] 0 <= x < cur.len() implies exists|e: int|
            0 <= e < k && #[trigger] edges[e] == (u as usize, cur[x]) by {
            if x < prev.len() {
                assert(cur[x] == prev[x]);
                let e = choose|e: int| 0 <= e < k - 1 && #[trigger] edges[e] == (u as usize, prev[x]);
            } else {
                assert(edges[k - 1] == (u as usize, cur[x]));
            }
        }
        assert forall|e: int| 0 <= e < k && (#[trigger] edges[e]).0 == u implies exists|x: int|
            0 <= x < cur.len() && cur[x] == edges[e].1 by {
            if e < k - 1 {
                let x = choose|x: int| 0 <= x < prev.len() && prev[x] == edges[e].1;
                assert(cur[x] == prev[x]);
            } else {
                assert(cur[cur.len() - 1] == edges[e].1);
            }
        }
    }
}

/// Distinct gates below `n` number at most `n`.
proof fn lemma_distinct_len(s: Seq<usize>, n: int)
    requires
        0 <= n,
        forall|p: int| 0 <= p < s.len() ==> (#[trigger] s[p]) < n,
        forall|p1: int, p2: int| 0 <= p1 < p2 < s.len() ==> (#[trigger] s[p1]) != (#[trigger] s[p2]),
    ensures
        s.len() <= n,
{
    let ids = s.map_values(|x: usize| x as int);
    assert(ids.no_duplicates()) by {
        assert forall|a: int, b: int| 0 <= a < ids.len() && 0 <= b < ids.len() && a != b implies ids[a]
            != ids[b] by {
            if a < b {
                assert(s[a] != s[b]);
            } else {
                assert(s[b] != s[a]);
            }
        }
    }
    ids.unique_seq_to_set();
    assert(ids.to_set().subset_of(vstd::set_lib::set_int_range(0, n))) by {
        assert forall|v: int| ids.to_set().contains(v) implies vstd::set_lib::set_int_range(0, n).contains(v) by {
            let p = choose|p: int| 0 <= p < ids.len() && ids[p] == v;
            assert(s[p] < n);
        }
    }
    vstd::set_lib::lemma_int_range(0, n);
    vstd::set_lib::lemma_len_subset(ids.to_set(), vstd::set_lib::set_int_range(0, n));
}

/// For every gate, the heads of its outgoing edges, and how many edges
/// enter it.
fn adjacency(n: usize, edges: &[(usize, usize)]) -> (r: (Vec<Vec<usize>>, Vec<usize>))
    requires
        edges_within(edges@, n as int),
    ensures
        r.0@.len() == n,
        r.1@.len() == n,
        forall|u: int| 0 <= u < n ==> (#[trigger] r.0@[u])@ == out_list(edges@, u, edges@.len() as int),
        forall|v: int| 0 <= v < n ==> #[trigger] r.1@[v] == in_count(edges@, v, Set::empty(), edges@.len() as int),
{
    let mut adj: Vec<Vec<usize>> = Vec::new();
    let mut in_degree: Vec<usize> = Vec::new();
    for i in 0..n
        invariant
            adj@.len() == i,
            in_degree@.len() == i,
            forall|u: int| 0 <= u < i ==> (#[trigger] adj@[u])@ == Seq::<usize>::empty(),
            forall|v: int| 0 <= v < i ==> #[trigger] in_degree@[v] == 0,
    {
        adj.push(Vec::new());
        in_degree.push(0);
    }
    for k in 0..edges.len()
        invariant
            edges_within(edges@, n as int),
            adj@.len() == n,
            in_degree@.len() == n,
            forall|u: int| 0 <= u < n ==> (#[trigger] adj@[u])@ == out_list(edges@, u, k as int),
            forall|v: int| 0 <= v < n ==> #[trigger] in_degree@[v] == in_count(edges@, v, Set::empty(), k as int),
    {
        let (src, dst) = edges[k];
        assert(edges@[k as int].0 < n && edges@[k as int].1 < n);
        proof {
            lemma_in_count_bound(edges@, dst as int, Set::empty(), k as int);
        }
        adj[src].push(dst);
        in_degree[dst] = in_degree[dst] + 1;
    }
    (adj, in_degree)
}

/// The order in which Kahn's algorithm takes the gates: a queue seeded
/// with the gates no edge enters; taking a gate removes its outgoing
/// edges and queues every gate left with none entering.
fn kahn_order(n: usize, edges: &[(usize, usize)], adj: &Vec<Vec<usize>>, in_degree: Vec<usize>) -> (order: Vec<usize>)
    requires
        edges_within(edges@, n as int),
        adj@.len() == n,
        in_degree@.len() == n,
        forall|u: int| 0 <= u < n ==> (#[trigger] adj@[u])@ == out_list(edges@, u, edges@.len() as int),
        forall|v: int| 0 <= v < n ==> #[trigger] in_degree@[v] == in_count(edges@, v, Set::empty(), edges@.len() as int),
    ensures
        is_kahn_order(n as int, edges@, order@),
{
    let ghost es = edges@;
    let ghost m = edges@.len() as int;
    let mut in_degree = in_degree;

    let mut queue: VecDeque<usize> = VecDeque::new();
    for i in 0..n
        invariant
            es == edges@,
            m == es.len(),
            adj@.len() == n,
            in_degree@.len() == n,
            forall|v: int| 0 <= v < n ==> #[trigger] in_degree@[v] == in_count(es, v, Set::empty(), m),
            forall|p: int| 0 <= p < queue@.len() ==> (#[trigger] queue@[p]) < i,
            forall|p1: int, p2: int| 0 <= p1 < p2 < queue@.len() ==> (#[trigger] queue@[p1]) < (#[trigger] queue@[p2]),
            forall|x: int| 0 <= x < i ==> (listed(queue@, x) <==> #[trigger] in_degree@[x] == 0),
    {
        let ghost before = queue@;
        if in_degree[i] == 0 {
            queue.push_back(i);
        }
        assert forall|x: int| 0 <= x < i + 1 implies (listed(queue@, x) <==> #[trigger] in_degree@[x] == 0) by {
            if listed(queue@, x) {
                let p = choose|p: int| 0 <= p < queue@.len() && #[trigger] queue@[p] == x;
                if p < before.len() {
                    assert(queue@[p] == before[p]);
                }
            }
            if x < i && listed(before, x) {
                let p = choose|p: int| 0 <= p < before.len() && #[trigger] before[p] == x;
                assert(queue@[p] == before[p]);
            }
            if x == i && in_degree@[x] == 0 {
                assert(queue@[queue@.len() - 1] == x);
            }
        }
    }
    let mut topo_order: Vec<usize> = Vec::new();
    let ghost mut all: Seq<usize> = queue@;
    proof {
        assert(prefix_set(all, 0) =~= Set::<int>::empty());
        assert forall|p: int, e: int|
            0 <= p < all.len() && 0 <= e < m && (#[trigger] es[e]).1 == (#[trigger] all[p])
                implies exists|p2: int| 0 <= p2 < p && (#[trigger] all[p2]) == es[e].0 by {
            let v = all[p] as int;
            assert(queue@[p] == v);
            assert(listed(queue@, v));
            assert(v < n);
            assert(in_degree@[v] == 0);
            lemma_in_count_zero(es, v, Set::empty(), m);
            assert(!Set::<int>::empty().contains(es[e].0 as int));
        }
        lemma_distinct_len(all, n as int);
    }
    loop
        invariant_except_break
            es == edges@,
            m == es.len(),
            edges_within(es, n as int),
            adj@.len() == n,
            forall|u: int| 0 <= u < n ==> (#[trigger] adj@[u])@ == out_list(es, u, m),
            in_degree@.len() == n,
            topo_order@ == all.take(topo_order@.len() as int),
            queue@ == all.skip(topo_order@.len() as int),
            topo_order@.len() <= all.len() <= n,
            forall|p: int| 0 <= p < all.len() ==> (#[trigger] all[p]) < n,
            forall|p1: int, p2: int| 0 <= p1 < p2 < all.len() ==> (#[trigger] all[p1]) != (#[trigger] all[p2]),
            forall|v: int|
                0 <= v < n ==> #[trigger] in_degree@[v] == in_count(es, v, prefix_set(all, topo_order@.len() as int), m),
            forall|v: int| 0 <= v < n ==> (listed(all, v) <==> #[trigger] in_degree@[v] == 0),
            forall|p: int, e: int|
                0 <= p < all.len() && 0 <= e < m && (#[trigger] es[e]).1 == (#[trigger] all[p])
                    ==> exists|p2: int| 0 <= p2 < p && (#[trigger] all[p2]) == es[e].0,
        ensures
            is_kahn_order(n as int, es, topo_order@),
        decreases n - topo_order@.len(),
    {
        let head = topo_order.len();
        match queue.pop_front() {
            Some(u) => {
                assert(u == all[head as int]);
                let ghost done = prefix_set(all, head as int);
                let ghost done2 = done.insert(u as int);
                proof {
                    assert(!done.contains(u as int)) by {
                        if done.contains(u as int) {
                            let p = choose|p: int| 0 <= p < head && #[trigger] all[p] == u;
                            assert(all[p] != all[head as int]);
                        }
                    }
                    assert(prefix_set(all, head + 1) =~= done2);
                    lemma_out_list(es, n as int, u as int, m);
                }
                topo_order.push(u);
                assert(topo_order@ =~= all.take(head + 1));
                let ghost all0 = all;
                let targets = &adj[u];
                for k in 0..targets.len()
                    invariant
                        es == edges@,
                        m == es.len(),
                        u < n,
                        targets@ == out_list(es, u as int, m),
                        forall|x: int| 0 <= x < targets@.len() ==> #[trigger] targets@[x] < n,
                        in_degree@.len() == n,
                        head < all0.len(),
                        all0[head as int] == u,
                        all0.len() <= all.len() <= n,
                        forall|x: int| 0 <= x < all0.len() ==> #[trigger] all[x] == all0[x],
                        done == prefix_set(all0, head as int),
                        done2 == done.insert(u as int),
                        !done.contains(u as int),
                        topo_order@ == all.take(head + 1),
                        queue@ == all.skip(head + 1),
                        forall|p: int| 0 <= p < all.len() ==> (#[trigger] all[p]) < n,
                        forall|p1: int, p2: int| 0 <= p1 < p2 < all.len() ==> (#[trigger] all[p1]) != (#[trigger] all[p2]),
                        forall|v: int|
                            0 <= v < n ==> #[trigger] in_degree@[v] + occurrences(targets@.take(k as int), v)
                                == in_count(es, v, done, m),
                        forall|v: int| 0 <= v < n ==> (listed(all, v) <==> #[trigger] in_degree@[v] == 0),
                        forall|p: int, e: int|
                            0 <= p < all.len() && 0 <= e < m && (#[trigger] es[e]).1 == (#[trigger] all[p])
                                ==> exists|p2: int| 0 <= p2 < p && (#[trigger] all[p2]) == es[e].0,
                {
                    let v = targets[k];
                    proof {
                        lemma_occurrences_take(targets@, v as int, k as int);
                        lemma_in_count_take(es, v as int, done, u as int, m);
                    }
                    in_degree[v] = in_degree[v] - 1;
                    let ghost before = all;
                    if in_degree[v] == 0 {
                        proof {
                            assert(!listed(before, v as int));
                            assert forall|p1: int, p2: int|
                                0 <= p1 < p2 < before.push(v).len() implies (#[trigger] before.push(v)[p1])
                                != (#[trigger] before.push(v)[p2]) by {
                                if p2 == before.len() {
                                    assert(before[p1] != v);
                                }
                            }
                            lemma_distinct_len(before.push(v), n as int);
                            all = before.push(v);
                        }
                        queue.push_back(v);
                        assert(queue@ =~= all.skip(head + 1));
                        assert(topo_order@ =~= all.take(head + 1));
                    }
                    proof {
                        assert forall|w: int| 0 <= w < n implies #[trigger] in_degree@[w] + occurrences(
                            targets@.take(k + 1),
                            w,
                        ) == in_count(es, w, done, m) by {
                            lemma_occurrences_take(targets@, w, k as int);
                        }
                        assert forall|w: int| 0 <= w < n implies (listed(all, w) <==> #[trigger] in_degree@[w] == 0) by {
                            if listed(all, w) && all.len() > before.len() && w != v {
                                let p = choose|p: int| 0 <= p < all.len() && #[trigger] all[p] == w;
                                assert(p < before.len());
                                assert(before[p] == w);
                            }
                            if listed(before, w) {
                                let p = choose|p: int| 0 <= p < before.len() && #[trigger] before[p] == w;
                                assert(all[p] == w);
                            }
                            if w == v && in_degree@[w] == 0 {
                                assert(all[all.len() - 1] == w);
                            }
                            if w == v && listed(before, w) {
                                // an edge from u into a listed gate: all of its
                                // entering edges were taken already
                                let p = choose|p: int| 0 <= p < before.len() && #[trigger] before[p] == w;
                                lemma_occurrences_take(targets@, w, k as int);
                            }
                        }
                        assert forall|p: int, e: int|
                            0 <= p < all.len() && 0 <= e < m && (#[trigger] es[e]).1 == (#[trigger] all[p])
                                implies exists|p2: int| 0 <= p2 < p && (#[trigger] all[p2]) == es[e].0 by {
                            if p < before.len() {
                                assert(before[p] == all[p]);
                                let p2 = choose|p2: int| 0 <= p2 < p && (#[trigger] before[p2]) == es[e].0;
                                assert(all[p2] == before[p2]);
                            } else {
                                lemma_in_count_zero(es, v as int, done2, m);
                                lemma_in_count_take(es, v as int, done, u as int, m);
                                lemma_occurrences_take(targets@, v as int, k as int);
                                assert(done2.contains(es[e].0 as int));
                                if es[e].0 == u {
                                    assert(all[head as int] == u);
                                } else {
                                    let p2 = choose|p2: int| 0 <= p2 < head && #[trigger] all0[p2] == es[e].0;
                                    assert(all[p2] == all0[p2]);
                                }
                            }
                        }
                    }
                }
                proof {
                    assert(targets@.take(targets@.len() as int) =~= targets@);
                    assert forall|v: int| 0 <= v < n implies #[trigger] in_degree@[v] == in_count(
                        es,
                        v,
                        prefix_set(all, head + 1),
                        m,
                    ) by {
                        lemma_in_count_take(es, v, done, u as int, m);
                        assert(prefix_set(all, head + 1) =~= done2) by {
                            assert forall|i: int| prefix_set(all, head + 1).contains(i) implies done2.contains(i) by {
                                let p = choose|p: int| 0 <= p < head + 1 && #[trigger] all[p] == i;
                                assert(all0[p] == i);
                            }
                            assert forall|i: int| done2.contains(i) implies prefix_set(all, head + 1).contains(i) by {
                                if i == u {
                                    assert(all[head as int] == u);
                                } else {
                                    let p = choose|p: int| 0 <= p < head && #[trigger] all0[p] == i;
                                    assert(all[p] == all0[p]);
                                }
                            }
                        }
                    }
                }
            },
            None => {
                proof {
                    reveal(is_kahn_order);
                    let order = topo_order@;
                    assert(order =~= all);
                    assert forall|v: int| 0 <= v < n && !listed(order, v) implies exists|e: int|
                        0 <= e < es.len() && (#[trigger] es[e]).1 == v && !listed(order, es[e].0 as int) by {
                        assert(in_degree@[v] != 0);
                        lemma_in_count_zero(es, v, prefix_set(all, head as int), m);
                        let e = choose|e: int|
                            0 <= e < m && (#[trigger] es[e]).1 == v && !prefix_set(all, head as int).contains(es[e].0 as int);
                        if listed(order, es[e].0 as int) {
                            let p = choose|p: int| 0 <= p < order.len() && #[trigger] order[p] == es[e].0;
                            assert(prefix_set(all, head as int).contains(es[e].0 as int));
                        }
                    }
                }
                break;
            },
        }
    }
    topo_order
}


/// The gates below `k` on layer `l`, in increasing order.
pub open spec fn on_layer(layer: Seq<usize>, l: int, k: int) -> Seq<usize>
    decreases k,
{
    if k <= 0 || k > layer.len() {
        Seq::empty()
    } else if layer[k - 1] == l {
        on_layer(layer, l, k - 1).push((k - 1) as usize)
    } else {
        on_layer(layer, l, k - 1)
    }
}

/// How many gates before `v` share its layer: its place within the layer.
pub open spec fn rank(layer: Seq<usize>, v: int) -> int {
    on_layer(layer, layer[v] as int, v).len() as int
}

proof fn lemma_on_layer(layer: Seq<usize>, l: int, k: int)
    requires
        0 <= k <= layer.len(),
        layer.len() <= usize::MAX,
    ensures
        on_layer(layer, l, k).len() <= k,
        forall|p: int| 0 <= p < on_layer(layer, l, k).len() ==> 0 <= #[trigger] on_layer(layer, l, k)[p] < k,
        forall|p: int|
            0 <= p < on_layer(layer, l, k).len() ==> layer[#[trigger] on_layer(layer, l, k)[p] as int] == l,
        forall|p: int|
            0 <= p < on_layer(layer, l, k).len() ==> on_layer(layer, l, #[trigger] on_layer(layer, l, k)[p] as int).len()
                == p,
        forall|w: int|
            0 <= w < k && layer[w] == l ==> #[trigger] on_layer(layer, l, w).len() < on_layer(layer, l, k).len()
                && on_layer(layer, l, k)[on_layer(layer, l, w).len() as int] == w,
    decreases k,
{
    if k > 0 {
        lemma_on_layer(layer, l, k - 1);
        let prev = on_layer(layer, l, k - 1);
        let cur = on_layer(layer, l, k);
        assert forall|p: int| 0 <= p < cur.len() implies 0 <= #[trigger] cur[p] < k && layer[cur[p] as int] == l
            && on_layer(layer, l, cur[p] as int).len() == p by {
            if p < prev.len() {
                assert(cur[p] == prev[p]);
            }
        }
        assert forall|w: int| 0 <= w < k && layer[w] == l implies #[trigger] on_layer(layer, l, w).len()
            < cur.len() && cur[on_layer(layer, l, w).len() as int] == w by {
            if w < k - 1 {
                assert(cur[on_layer(layer, l, w).len() as int] == prev[on_layer(layer, l, w).len() as int]);
            }
        }
    }
}

/// A gate that `order[i]` feeds comes after it in the order.
proof fn lemma_fed_later(n: int, es: Seq<(usize, usize)>, ord: Seq<usize>, i: int, e: int)
    requires
        is_kahn_order(n, es, ord),
        0 <= i < ord.len(),
        0 <= e < es.len(),
        es[e].0 == ord[i],
    ensures
        !prefix_set(ord, i + 1).contains(es[e].1 as int),
{
    reveal(is_kahn_order);
    if prefix_set(ord, i + 1).contains(es[e].1 as int) {
        let p = choose|p: int| 0 <= p < i + 1 && #[trigger] ord[p] == es[e].1;
        assert(es[e].1 == ord[p]);
        let p2 = choose|p2: int| 0 <= p2 < p && (#[trigger] ord[p2]) == es[e].0;
        assert(ord[p2] != ord[i]);
    }
}

/// Pushes every gate in `targets` to at least one layer past `u`.
fn relax(layer: &mut Vec<usize>, u: usize, targets: &Vec<usize>)
    requires
        u < old(layer)@.len(),
        old(layer)@[u as int] < usize::MAX,
        forall|x: int| 0 <= x < targets@.len() ==> (#[trigger] targets@[x]) < old(layer)@.len() && targets@[x] != u,
    ensures
        final(layer)@.len() == old(layer)@.len(),
        forall|v: int|
            0 <= v < old(layer)@.len() ==> #[trigger] final(layer)@[v] == if listed(targets@, v) && old(layer)@[v]
                <= old(layer)@[u as int] {
                (old(layer)@[u as int] + 1) as usize
            } else {
                old(layer)@[v]
            },
{
    let ghost l0 = layer@;
    for k in 0..targets.len()
        invariant
            layer@.len() == l0.len(),
            u < l0.len(),
            l0[u as int] < usize::MAX,
            forall|x: int| 0 <= x < targets@.len() ==> (#[trigger] targets@[x]) < l0.len() && targets@[x] != u,
            forall|v: int|
                0 <= v < l0.len() ==> #[trigger] layer@[v] == if listed(targets@.take(k as int), v) && l0[v]
                    <= l0[u as int] {
                    (l0[u as int] + 1) as usize
                } else {
                    l0[v]
                },
    {
        let v = targets[k];
        assert(targets@[k as int] != u);
        if layer[v] <= layer[u] {
            layer.set(v, layer[u] + 1);
        }
        assert forall|w: int| 0 <= w < l0.len() implies #[trigger] layer@[w] == if listed(targets@.take(k + 1), w)
            && l0[w] <= l0[u as int] {
            (l0[u as int] + 1) as usize
        } else {
            l0[w]
        } by {
            if listed(targets@.take(k + 1), w) && w != v {
                let p = choose|p: int| 0 <= p < k + 1 && #[trigger] targets@.take(k + 1)[p] == w;
                assert(targets@.take(k as int)[p] == w);
            }
            if listed(targets@.take(k as int), w) {
                let p = choose|p: int| 0 <= p < k && #[trigger] targets@.take(k as int)[p] == w;
                assert(targets@.take(k + 1)[p] == w);
            }
            if w == v {
                assert(targets@.take(k + 1)[k as int] == w);
            }
        }
    }
    assert(targets@.take(targets@.len() as int) =~= targets@);
}

/// `layer` puts each gate one past the deepest gate of `order` with an
/// edge into it, or at 0 when there is none: the longest path to it.
#[verifier::opaque]
pub open spec fn is_layering(n: int, edges: Seq<(usize, usize)>, order: Seq<usize>, layer: Seq<usize>) -> bool {
    &&& layer.len() == n
    &&& forall|e: int|
        0 <= e < edges.len() && listed(order, (#[trigger] edges[e]).0 as int) ==> layer[edges[e].1 as int]
            >= layer[edges[e].0 as int] + 1
    &&& forall|v: int|
        0 <= v < n && (#[trigger] layer[v]) != 0 ==> exists|e: int|
            0 <= e < edges.len() && (#[trigger] edges[e]).1 == v && listed(order, edges[e].0 as int)
                && layer[v] == layer[edges[e].0 as int] + 1
}

/// The layering after relaxing the first `i` gates of `ord`.
pub open spec fn layered_upto(n: int, es: Seq<(usize, usize)>, ord: Seq<usize>, i: int, layer: Seq<usize>) -> bool {
    &&& layer.len() == n
    &&& forall|v: int| 0 <= v < n ==> #[trigger] layer[v] <= i
    &&& forall|e: int|
        0 <= e < es.len() && prefix_set(ord, i).contains((#[trigger] es[e]).0 as int) ==> layer[es[e].1 as int]
            >= layer[es[e].0 as int] + 1
    &&& forall|v: int|
        0 <= v < n && (#[trigger] layer[v]) != 0 ==> exists|e: int|
            0 <= e < es.len() && (#[trigger] es[e]).1 == v && prefix_set(ord, i).contains(es[e].0 as int)
                && layer[v] == layer[es[e].0 as int] + 1
}

proof fn lemma_prefix_step(ord: Seq<usize>, i: int)
    requires
        0 <= i < ord.len(),
    ensures
        forall|x: int| prefix_set(ord, i + 1).contains(x) <==> prefix_set(ord, i).contains(x) || x == ord[i],
{
    assert forall|x: int| prefix_set(ord, i + 1).contains(x) <==> prefix_set(ord, i).contains(x) || x == ord[i] by {
        if prefix_set(ord, i + 1).contains(x) {
            let p = choose|p: int| 0 <= p < i + 1 && #[trigger] ord[p] == x;
            if p < i {
                assert(prefix_set(ord, i).contains(x));
            }
        }
        if prefix_set(ord, i).contains(x) {
            let p = choose|p: int| 0 <= p < i && #[trigger] ord[p] == x;
            assert(prefix_set(ord, i + 1).contains(x));
        }
        if x == ord[i] {
            assert(prefix_set(ord, i + 1).contains(x));
        }
    }
}

/// The gates that `ord[i]` feeds are not among the first `i + 1` gates.
proof fn lemma_targets_later(n: int, es: Seq<(usize, usize)>, ord: Seq<usize>, i: int, targets: Seq<usize>)
    requires
        edges_within(es, n),
        is_kahn_order(n, es, ord),
        0 <= i < ord.len(),
        targets == out_list(es, ord[i] as int, es.len() as int),
    ensures
        forall|v: int| listed(targets, v) ==> !prefix_set(ord, i + 1).contains(v),
{
    lemma_out_list(es, n, ord[i] as int, es.len() as int);
    assert forall|v: int| listed(targets, v) implies !prefix_set(ord, i + 1).contains(v) by {
        let x = choose|x: int| 0 <= x < targets.len() && #[trigger] targets[x] == v;
        let e = choose|e: int| 0 <= e < es.len() && #[trigger] es[e] == (ord[i], targets[x]);
        lemma_fed_later(n, es, ord, i, e);
    }
}

/// Relaxing gate `ord[i]` extends the layering by one gate.
#[verifier::spinoff_prover]
#[verifier::rlimit(40)]
proof fn lemma_relax_step(
    n: int,
    es: Seq<(usize, usize)>,
    ord: Seq<usize>,
    i: int,
    targets: Seq<usize>,
    l0: Seq<usize>,
    l1: Seq<usize>,
)
    requires
        edges_within(es, n),
        0 <= i < ord.len(),
        ord[i] < n,
        l0.len() == n,
        l0[ord[i] as int] < usize::MAX,
        targets == out_list(es, ord[i] as int, es.len() as int),
        forall|v: int| listed(targets, v) ==> !prefix_set(ord, i + 1).contains(v),
        layered_upto(n, es, ord, i, l0),
        l1.len() == n,
        forall|v: int|
            0 <= v < n ==> #[trigger] l1[v] == if listed(targets, v) && l0[v] <= l0[ord[i] as int] {
                (l0[ord[i] as int] + 1) as usize
            } else {
                l0[v]
            },
    ensures
        layered_upto(n, es, ord, i + 1, l1),
{
    let u = ord[i] as int;
    let m = es.len() as int;
    lemma_out_list(es, n, u, m);
    let done = prefix_set(ord, i);
    let done2 = prefix_set(ord, i + 1);
    lemma_prefix_step(ord, i);
    assert(!listed(targets, u)) by {
        if listed(targets, u) {
            assert(prefix_set(ord, i + 1).contains(u));
        }
    }
    assert forall|e: int|
        0 <= e < m && done2.contains((#[trigger] es[e]).0 as int) implies l1[es[e].1 as int]
            >= l1[es[e].0 as int] + 1 by {
        if es[e].0 == u {
            let x = choose|x: int| 0 <= x < targets.len() && targets[x] == es[e].1;
            assert(listed(targets, es[e].1 as int));
        } else {
            assert(done.contains(es[e].0 as int));
            assert(!listed(targets, es[e].0 as int));
        }
    }
    assert forall|v: int| 0 <= v < n && (#[trigger] l1[v]) != 0 implies exists|e: int|
        0 <= e < m && (#[trigger] es[e]).1 == v && done2.contains(es[e].0 as int) && l1[v] == l1[es[e].0 as int]
            + 1 by {
        if listed(targets, v) && l0[v] <= l0[u] {
            let x = choose|x: int| 0 <= x < targets.len() && #[trigger] targets[x] == v;
            let e = choose|e: int| 0 <= e < m && #[trigger] es[e] == (u as usize, targets[x]);
            assert(es[e].1 == v && done2.contains(es[e].0 as int));
        } else {
            let e = choose|e: int|
                0 <= e < m && (#[trigger] es[e]).1 == v && done.contains(es[e].0 as int) && l0[v] == l0[es[e].0 as int]
                    + 1;
            assert(!listed(targets, es[e].0 as int));
            assert(done2.contains(es[e].0 as int));
        }
    }
}

/// The layer of every gate: gates are relaxed in Kahn's order, each
/// pushing the gates it feeds one layer past its own.
fn longest_path_layers(n: usize, edges: &[(usize, usize)], adj: &Vec<Vec<usize>>, order: &Vec<usize>) -> (layer: Vec<usize>)
    requires
        edges_within(edges@, n as int),
        adj@.len() == n,
        forall|u: int| 0 <= u < n ==> (#[trigger] adj@[u])@ == out_list(edges@, u, edges@.len() as int),
        is_kahn_order(n as int, edges@, order@),
    ensures
        layer@.len() == n,
        is_layering(n as int, edges@, order@, layer@),
        forall|v: int| 0 <= v < n ==> #[trigger] layer@[v] <= n,
{
    let ghost es = edges@;
    let ghost ord = order@;
    proof {
        reveal(is_kahn_order);
        lemma_distinct_len(ord, n as int);
    }
    let mut layer: Vec<usize> = Vec::new();
    for i in 0..n
        invariant
            layer@.len() == i,
            forall|v: int| 0 <= v < i ==> #[trigger] layer@[v] == 0,
    {
        layer.push(0);
    }
    for i in 0..order.len()
        invariant
            es == edges@,
            ord == order@,
            edges_within(es, n as int),
            adj@.len() == n,
            forall|u: int| 0 <= u < n ==> (#[trigger] adj@[u])@ == out_list(es, u, es.len() as int),
            is_kahn_order(n as int, es, ord),
            ord.len() <= n,
            forall|p: int| 0 <= p < ord.len() ==> (#[trigger] ord[p]) < n,
            layered_upto(n as int, es, ord, i as int, layer@),
    {
        let u = order[i];
        let ghost l0 = layer@;
        proof {
            lemma_out_list(es, n as int, u as int, es.len() as int);
            assert forall|x: int| 0 <= x < adj@[u as int]@.len() implies #[trigger] adj@[u as int]@[x] != u by {
                let e = choose|e: int| 0 <= e < es.len() && #[trigger] es[e] == (u, adj@[u as int]@[x]);
                lemma_fed_later(n as int, es, ord, i as int, e);
                assert(ord[i as int] == u);
            }
        }
        relax(&mut layer, u, &adj[u]);
        proof {
            lemma_targets_later(n as int, es, ord, i as int, adj@[u as int]@);
            lemma_relax_step(n as int, es, ord, i as int, adj@[u as int]@, l0, layer@);
        }
    }
    proof {
        reveal(is_layering);
        assert forall|x: int| prefix_set(ord, ord.len() as int).contains(x) <==> listed(ord, x) by {}
    }
    layer
}

/// The deepest layer.
fn deepest(layer: &Vec<usize>) -> (m: usize)
    requires
        layer@.len() > 0,
    ensures
        forall|w: int| 0 <= w < layer@.len() ==> #[trigger] layer@[w] <= m,
        exists|w: int| 0 <= w < layer@.len() && layer@[w] == m,
{
    let mut m: usize = layer[0];
    for v in 1..layer.len()
        invariant
            layer@.len() > 0,
            forall|w: int| 0 <= w < v ==> #[trigger] layer@[w] <= m,
            exists|w: int| 0 <= w < layer@.len() && layer@[w] == m,
    {
        if layer[v] > m {
            m = layer[v];
        }
    }
    m
}

/// The gates of each layer up to `max_layer`, in increasing order.
fn layer_members(layer: &Vec<usize>, max_layer: usize) -> (members: Vec<Vec<usize>>)
    requires
        max_layer < usize::MAX,
        forall|w: int| 0 <= w < layer@.len() ==> #[trigger] layer@[w] <= max_layer,
    ensures
        members@.len() == max_layer + 1,
        forall|x: int| 0 <= x <= max_layer ==> (#[trigger] members@[x])@ == on_layer(layer@, x, layer@.len() as int),
{
    let mut members: Vec<Vec<usize>> = Vec::new();
    for l in 0..max_layer + 1
        invariant
            members@.len() == l,
            forall|x: int| 0 <= x < l ==> (#[trigger] members@[x])@ == Seq::<usize>::empty(),
    {
        members.push(Vec::new());
    }
    for node in 0..layer.len()
        invariant
            forall|w: int| 0 <= w < layer@.len() ==> #[trigger] layer@[w] <= max_layer,
            members@.len() == max_layer + 1,
            forall|x: int| 0 <= x <= max_layer ==> (#[trigger] members@[x])@ == on_layer(layer@, x, node as int),
    {
        let l = layer[node];
        members[l].push(node);
        assert forall|x: int| 0 <= x <= max_layer implies (#[trigger] members@[x])@ == on_layer(
            layer@,
            x,
            node + 1,
        ) by {}
    }
    members
}

/// Every gate's layer and its rank within the layer.
fn places_of(layer: &Vec<usize>, members: &Vec<Vec<usize>>, max_layer: usize) -> (places: Vec<(usize, usize)>)
    requires
        max_layer < usize::MAX,
        forall|w: int| 0 <= w < layer@.len() ==> #[trigger] layer@[w] <= max_layer,
        members@.len() == max_layer + 1,
        forall|x: int| 0 <= x <= max_layer ==> (#[trigger] members@[x])@ == on_layer(layer@, x, layer@.len() as int),
    ensures
        places@.len() == layer@.len(),
        forall|w: int| 0 <= w < layer@.len() ==> #[trigger] places@[w] == (layer@[w], rank(layer@, w) as usize),
{
    let ghost ly = layer@;
    let n = layer.len();
    let mut places: Vec<(usize, usize)> = Vec::new();
    for v in 0..n
        invariant
            places@.len() == v,
    {
        places.push((0, 0));
    }
    for l in 0..max_layer + 1
        invariant
            ly == layer@,
            n == ly.len(),
            forall|w: int| 0 <= w < n ==> #[trigger] ly[w] <= max_layer,
            members@.len() == max_layer + 1,
            forall|x: int| 0 <= x <= max_layer ==> (#[trigger] members@[x])@ == on_layer(ly, x, n as int),
            places@.len() == n,
            forall|w: int| 0 <= w < n && ly[w] < l ==> #[trigger] places@[w] == (ly[w], rank(ly, w) as usize),
    {
        let nodes = &members[l];
        proof {
            lemma_on_layer(ly, l as int, n as int);
        }
        for pos in 0..nodes.len()
            invariant
                ly == layer@,
                n == ly.len(),
                l <= max_layer,
                nodes@ == on_layer(ly, l as int, n as int),
                forall|p: int| 0 <= p < nodes@.len() ==> 0 <= #[trigger] nodes@[p] < n,
                forall|p: int| 0 <= p < nodes@.len() ==> ly[#[trigger] nodes@[p] as int] == l,
                forall|p: int| 0 <= p < nodes@.len() ==> on_layer(ly, l as int, #[trigger] nodes@[p] as int).len() == p,
                forall|w: int|
                    0 <= w < n && ly[w] == l ==> #[trigger] on_layer(ly, l as int, w).len() < nodes@.len()
                        && nodes@[on_layer(ly, l as int, w).len() as int] == w,
                places@.len() == n,
                forall|w: int|
                    0 <= w < n && (ly[w] < l || (ly[w] == l && rank(ly, w) < pos)) ==> #[trigger] places@[w] == (
                        ly[w],
                        rank(ly, w) as usize,
                    ),
        {
            let node = nodes[pos];
            places.set(node, (l, pos));
            assert forall|w: int|
                0 <= w < n && (ly[w] < l || (ly[w] == l && rank(ly, w) < pos + 1)) implies #[trigger] places@[w] == (
                ly[w],
                rank(ly, w) as usize,
            ) by {
                if w != node && ly[w] == l && rank(ly, w) == pos {
                    assert(on_layer(ly, l as int, w).len() < nodes@.len());
                }
            }
        }
        proof {
            assert forall|w: int| 0 <= w < n && ly[w] < l + 1 implies #[trigger] places@[w] == (
                ly[w],
                rank(ly, w) as usize,
            ) by {
                if ly[w] == l {
                    assert(on_layer(ly, l as int, w).len() < nodes@.len());
                }
            }
        }
    }
    places
}

/// The place of every gate in a layered drawing: its layer, the length of
/// the longest path of edges to it (Kahn's order), and its rank among the
/// gates of that layer by index.
pub fn kahn_layout(gates: &[GateDescriptor], edges: &[(usize, usize)]) -> (places: Vec<(usize, usize)>)
    requires
        gates@.len() < usize::MAX,
        edges_within(edges@, gates@.len() as int),
    ensures
        places@.len() == gates@.len(),
        exists|order: Seq<usize>|
            is_kahn_order(gates@.len() as int, edges@, order) && is_layering(
                gates@.len() as int,
                edges@,
                order,
                places@.map_values(|q: (usize, usize)| q.0),
            ),
        forall|v: int|
            0 <= v < places@.len() ==> (#[trigger] places@[v]).1 == rank(
                places@.map_values(|q: (usize, usize)| q.0),
                v,
            ),
{
    let n = gates.len();
    // adjacency lists and in-degrees
    let (adj, in_degree) = adjacency(n, edges);
    // Kahn's order; gates on or behind a cycle are left out
    let topo_order = kahn_order(n, edges, &adj, in_degree);
    // each layer is the longest path from any source
    let layer = longest_path_layers(n, edges, &adj, &topo_order);
    let ghost ly = layer@;
    if n == 0 {
        let places: Vec<(usize, usize)> = Vec::new();
        assert(places@.map_values(|q: (usize, usize)| q.0) =~= ly);
        return places;
    }
    // group the gates by layer, then number them within each layer
    let max_layer = deepest(&layer);
    let members = layer_members(&layer, max_layer);
    let places = places_of(&layer, &members, max_layer);
    proof {
        let lv = places@.map_values(|q: (usize, usize)| q.0);
        assert(lv =~= ly);
        assert(is_kahn_order(n as int, edges@, topo_order@) && is_layering(n as int, edges@, topo_order@, lv));
        assert forall|v: int| 0 <= v < places@.len() implies (#[trigger] places@[v]).1 == rank(lv, v) by {
            lemma_on_layer(ly, ly[v] as int, v);
        }
    }
    places
}

} // verus!
