use vstd::prelude::*;

use crate::sim::transistor::SignalGraph;

verus! {

/// Transistor `t` has a terminal on signal `s`, and `s` is not a rail.
pub open spec fn touches(g: SignalGraph, t: int, s: int) -> bool {
    &&& s > 1
    &&& (g.gates@[t].0 == s || g.sources@[t].0 == s || g.drains@[t].0 == s)
}

/// Both transistors are in `ts` and share a wire other than VDD and GND.
pub open spec fn adjacent(g: SignalGraph, ts: Seq<usize>, x: int, y: int) -> bool {
    &&& in_list(ts, x)
    &&& in_list(ts, y)
    &&& exists|s: int| touches(g, x, s) && touches(g, y, s)
}

/// `x` is one of the entries of `ts`.
pub open spec fn in_list(ts: Seq<usize>, x: int) -> bool {
    exists|p: int| 0 <= p < ts.len() && #[trigger] ts[p] as int == x
}

/// `y` is reachable from `x` in at most `d` steps between adjacent transistors.
pub open spec fn linked(g: SignalGraph, ts: Seq<usize>, x: int, y: int, d: nat) -> bool
    decreases d,
{
    if d == 0 {
        x == y
    } else {
        linked(g, ts, x, y, (d - 1) as nat) || exists|z: int|
            linked(g, ts, x, z, (d - 1) as nat) && #[trigger] adjacent(g, ts, z, y)
    }
}

pub open spec fn connected(g: SignalGraph, ts: Seq<usize>, x: int, y: int) -> bool {
    exists|d: nat| #[trigger] linked(g, ts, x, y, d)
}

/// How many entries of `v` are false.
pub open spec fn count_false(v: Seq<bool>) -> nat
    decreases v.len(),
{
    if v.len() == 0 {
        0
    } else {
        count_false(v.drop_last()) + if v.last() {
            0nat
        } else {
            1nat
        }
    }
}

/// Marking an entry that was false leaves one false entry fewer.
pub proof fn lemma_count_false_set(v: Seq<bool>, i: int)
    requires
        0 <= i < v.len(),
        !v[i],
    ensures
        count_false(v.update(i, true)) + 1 == count_false(v),
    decreases v.len(),
{
    if i < v.len() - 1 {
        lemma_count_false_set(v.drop_last(), i);
        assert(v.update(i, true).drop_last() =~= v.drop_last().update(i, true));
    } else {
        assert(v.update(i, true).drop_last() =~= v.drop_last());
    }
}

proof fn lemma_linked_step(g: SignalGraph, ts: Seq<usize>, x: int, z: int, y: int)
    requires
        connected(g, ts, x, z),
        adjacent(g, ts, z, y),
    ensures
        connected(g, ts, x, y),
{
    let d = choose|d: nat| #[trigger] linked(g, ts, x, z, d);
    assert(linked(g, ts, x, y, d + 1));
}

proof fn lemma_adjacent_symmetric(g: SignalGraph, ts: Seq<usize>, x: int, y: int)
    ensures
        adjacent(g, ts, x, y) == adjacent(g, ts, y, x),
{
}


/// Every list `lists[s]` holds exactly the transistors of `ts` that touch
/// signal `s`.
pub open spec fn wire_lists_ok(g: SignalGraph, ts: Seq<usize>, lists: Seq<Vec<usize>>) -> bool {
    &&& lists.len() == g.signals@.len()
    &&& forall|s: int, k: int|
        0 <= s < lists.len() && 0 <= k < lists[s]@.len() ==> {
            &&& (#[trigger] lists[s]@[k]) < g.kinds@.len()
            &&& ts.contains(lists[s]@[k])
            &&& touches(g, lists[s]@[k] as int, s)
        }
    &&& forall|s: int, x: usize|
        0 <= s < lists.len() && ts.contains(x) && #[trigger] touches(g, x as int, s) ==> lists[s]@.contains(x)
}

/// Every list `lists[s]` is exactly the list of wire `s`.
pub open spec fn lists_exact(g: SignalGraph, ts: Seq<usize>, lists: Seq<Vec<usize>>) -> bool {
    forall|s: int| 0 <= s < lists.len() ==> (#[trigger] lists[s])@ == wire_list(g, ts, s)
}

/// The clusters as sequences.
pub open spec fn clusters_view(v: Seq<Vec<usize>>) -> Seq<Seq<usize>> {
    v.map_values(|c: Vec<usize>| c@)
}

pub open spec fn in_clusters(cl: Seq<Seq<usize>>, x: int) -> bool {
    exists|c: int, k: int| 0 <= c < cl.len() && 0 <= k < cl[c].len() && #[trigger] cl[c][k] == x
}

/// `cl` splits the transistors of `ts` into their connected components:
/// every cluster is non-empty and connected, no transistor appears twice,
/// every transistor of `ts` appears, and a transistor's neighbours are in
/// its own cluster.
pub open spec fn is_component_partition(g: SignalGraph, ts: Seq<usize>, cl: Seq<Seq<usize>>) -> bool {
    &&& forall|c: int| 0 <= c < cl.len() ==> #[trigger] cl[c].len() > 0
    &&& forall|c: int, k: int| 0 <= c < cl.len() && 0 <= k < cl[c].len() ==> ts.contains(#[trigger] cl[c][k])
    &&& forall|c1: int, k1: int, c2: int, k2: int|
        0 <= c1 < cl.len() && 0 <= k1 < cl[c1].len() && 0 <= c2 < cl.len() && 0 <= k2 < cl[c2].len()
            && #[trigger] cl[c1][k1] == #[trigger] cl[c2][k2] ==> c1 == c2 && k1 == k2
    &&& forall|p: int| 0 <= p < ts.len() ==> in_clusters(cl, #[trigger] ts[p] as int)
    &&& forall|c: int, k: int|
        0 <= c < cl.len() && 0 <= k < cl[c].len() ==> connected(g, ts, cl[c][0] as int, #[trigger] cl[c][k] as int)
    &&& forall|c: int, k: int, y: int|
        0 <= c < cl.len() && 0 <= k < cl[c].len() && #[trigger] adjacent(g, ts, cl[c][k] as int, y)
            ==> exists|k2: int| 0 <= k2 < cl[c].len() && cl[c][k2] == y
}

/// Each cluster starts at the first transistor of `ts` that no earlier
/// cluster holds: the clusters come in the order of their first
/// transistor in the list.
pub open spec fn clusters_in_list_order(ts: Seq<usize>, cl: Seq<Seq<usize>>) -> bool {
    forall|c: int|
        0 <= c < cl.len() ==> exists|p: int|
            0 <= p < ts.len() && ts[p] == (#[trigger] cl[c])[0] && forall|q: int|
                0 <= q < p ==> in_clusters(cl.take(c), #[trigger] ts[q] as int)
}

/// The entries transistor `t` adds to the list of wire `s`: `t` once for
/// each of its terminals on `s`, gate first, then source, then drain, none
/// for a rail.
pub open spec fn terminal_hits(g: SignalGraph, t: usize, s: int) -> Seq<usize> {
    (if s > 1 && g.gates@[t as int].0 == s {
        seq![t]
    } else {
        Seq::empty()
    }) + (if s > 1 && g.sources@[t as int].0 == s {
        seq![t]
    } else {
        Seq::empty()
    }) + (if s > 1 && g.drains@[t as int].0 == s {
        seq![t]
    } else {
        Seq::empty()
    })
}

/// The list of wire `s`: the transistors of `ts` in their order, each
/// once per terminal it has on `s`.
pub open spec fn wire_list(g: SignalGraph, ts: Seq<usize>, s: int) -> Seq<usize>
    decreases ts.len(),
{
    if ts.len() == 0 {
        Seq::empty()
    } else {
        wire_list(g, ts.drop_last(), s) + terminal_hits(g, ts.last(), s)
    }
}

/// What visiting `cur` queues before the visited ones are dropped: the
/// lists of its gate, source and drain wires, in that order, rails left out.
pub open spec fn reach(g: SignalGraph, ts: Seq<usize>, cur: usize) -> Seq<usize> {
    let gs = g.gates@[cur as int].0 as int;
    let ss = g.sources@[cur as int].0 as int;
    let ds = g.drains@[cur as int].0 as int;
    (if gs > 1 {
        wire_list(g, ts, gs)
    } else {
        Seq::empty()
    }) + (if ss > 1 {
        wire_list(g, ts, ss)
    } else {
        Seq::empty()
    }) + (if ds > 1 {
        wire_list(g, ts, ds)
    } else {
        Seq::empty()
    })
}

/// The entries of `list` not marked in `visited`, in order.
pub open spec fn unvisited(list: Seq<usize>, visited: Seq<bool>) -> Seq<usize>
    decreases list.len(),
{
    if list.len() == 0 {
        Seq::empty()
    } else {
        let rest = unvisited(list.drop_last(), visited);
        if visited[list.last() as int] {
            rest
        } else {
            rest.push(list.last())
        }
    }
}

/// The transistors a breadth-first search visits, in visiting order,
/// with `queue` still to take and `visited` marked: it takes the head of
/// the queue, skips it when visited, and otherwise visits it and queues
/// the unvisited entries of its reach.
pub open spec fn bfs(g: SignalGraph, ts: Seq<usize>, queue: Seq<usize>, visited: Seq<bool>) -> Seq<usize>
    decreases count_false(visited), queue.len(),
{
    if queue.len() == 0 {
        Seq::empty()
    } else {
        let cur = queue[0];
        if cur >= visited.len() || visited[cur as int] {
            bfs(g, ts, queue.drop_first(), visited)
        } else {
            let v2 = visited.update(cur as int, true);
            proof {
                lemma_count_false_set(visited, cur as int);
            }
            seq![cur] + bfs(g, ts, queue.drop_first() + unvisited(reach(g, ts, cur), v2), v2)
        }
    }
}

proof fn lemma_unvisited_add(a: Seq<usize>, b: Seq<usize>, visited: Seq<bool>)
    ensures
        unvisited(a + b, visited) == unvisited(a, visited) + unvisited(b, visited),
    decreases b.len(),
{
    if b.len() > 0 {
        assert((a + b).drop_last() =~= a + b.drop_last());
        lemma_unvisited_add(a, b.drop_last(), visited);
    } else {
        assert(a + b =~= a);
    }
}

/// Each cluster is the breadth-first search from its first transistor,
/// the transistors of the earlier clusters counting as visited.
pub open spec fn clusters_in_bfs_order(g: SignalGraph, ts: Seq<usize>, cl: Seq<Seq<usize>>) -> bool {
    forall|c: int|
        0 <= c < cl.len() ==> #[trigger] cl[c] == bfs(
            g,
            ts,
            seq![cl[c][0]],
            Seq::new(g.kinds@.len(), |x: int| in_clusters(cl.take(c), x)),
        )
}

/// Appends, in order, the entries of `list` that are not yet visited.
fn push_unvisited(list: &Vec<usize>, visited: &Vec<bool>, queue: &mut Vec<usize>)
    requires
        forall|k: int| 0 <= k < list@.len() ==> #[trigger] list@[k] < visited@.len(),
    ensures
        final(queue)@ == old(queue)@ + unvisited(list@, visited@),
        final(queue)@.len() >= old(queue)@.len(),
        forall|k: int| 0 <= k < old(queue)@.len() ==> #[trigger] final(queue)@[k] == old(queue)@[k],
        forall|k: int|
            0 <= k < list@.len() ==> visited@[#[trigger] list@[k] as int] || exists|k2: int|
                old(queue)@.len() <= k2 < final(queue)@.len() && final(queue)@[k2] == list@[k],
        forall|k2: int|
            old(queue)@.len() <= k2 < final(queue)@.len() ==> list@.contains(#[trigger] final(queue)@[k2]),
{
    let ghost q0 = queue@;
    for k in 0..list.len()
        invariant
            forall|k: int| 0 <= k < list@.len() ==> #[trigger] list@[k] < visited@.len(),
            queue@.len() >= q0.len(),
            forall|x: int| 0 <= x < q0.len() ==> #[trigger] queue@[x] == q0[x],
            forall|j: int|
                0 <= j < k ==> visited@[#[trigger] list@[j] as int] || exists|k2: int|
                    q0.len() <= k2 < queue@.len() && queue@[k2] == list@[j],
            forall|k2: int| q0.len() <= k2 < queue@.len() ==> list@.contains(#[trigger] queue@[k2]),
            queue@ == q0 + unvisited(list@.take(k as int), visited@),
    {
        let nb = list[k];
        proof {
            assert(list@.take(k + 1).drop_last() =~= list@.take(k as int));
            assert(list@.take(k + 1).last() == nb);
        }
        let ghost qb = queue@;
        if !visited[nb] {
            queue.push(nb);
            assert(queue@[queue@.len() - 1] == list@[k as int]);
        }
        assert forall|j: int|
            0 <= j < k + 1 implies visited@[#[trigger] list@[j] as int] || exists|k2: int|
                q0.len() <= k2 < queue@.len() && queue@[k2] == list@[j] by {
            if j < k && !visited@[list@[j] as int] {
                let k2 = choose|k2: int| q0.len() <= k2 < qb.len() && qb[k2] == list@[j];
                assert(queue@[k2] == qb[k2]);
            }
            if j == k && !visited@[list@[j] as int] {
                assert(queue@[queue@.len() - 1] == list@[j]);
            }
        }
        assert forall|k2: int| q0.len() <= k2 < queue@.len() implies list@.contains(#[trigger] queue@[k2]) by {
            if k2 < qb.len() {
                assert(queue@[k2] == qb[k2]);
            } else {
                assert(list@[k as int] == queue@[k2]);
            }
        }
    }
    assert(list@.take(list@.len() as int) =~= list@);
}

proof fn lemma_wire_list_take(g: SignalGraph, ts: Seq<usize>, p: int, s: int)
    requires
        0 <= p < ts.len(),
    ensures
        wire_list(g, ts.take(p + 1), s) == wire_list(g, ts.take(p), s) + terminal_hits(g, ts[p], s),
{
    assert(ts.take(p + 1).drop_last() =~= ts.take(p));
    assert(ts.take(p + 1).last() == ts[p]);
}

/// One step of the breadth-first search: visiting the unvisited head of
/// the queue.
proof fn lemma_bfs_step(g: SignalGraph, ts: Seq<usize>, qs: Seq<usize>, vis: Seq<bool>)
    requires
        qs.len() > 0,
        qs[0] < vis.len(),
        !vis[qs[0] as int],
    ensures
        bfs(g, ts, qs, vis) == seq![qs[0]] + bfs(
            g,
            ts,
            qs.drop_first() + unvisited(reach(g, ts, qs[0]), vis.update(qs[0] as int, true)),
            vis.update(qs[0] as int, true),
        ),
{
}

/// What visiting `cur` queues, split by wire.
proof fn lemma_unvisited_reach(g: SignalGraph, ts: Seq<usize>, cur: usize, vis: Seq<bool>)
    ensures
        unvisited(reach(g, ts, cur), vis) == (if g.gates@[cur as int].0 > 1 {
            unvisited(wire_list(g, ts, g.gates@[cur as int].0 as int), vis)
        } else {
            Seq::empty()
        }) + (if g.sources@[cur as int].0 > 1 {
            unvisited(wire_list(g, ts, g.sources@[cur as int].0 as int), vis)
        } else {
            Seq::empty()
        }) + (if g.drains@[cur as int].0 > 1 {
            unvisited(wire_list(g, ts, g.drains@[cur as int].0 as int), vis)
        } else {
            Seq::empty()
        }),
{
    let gs = g.gates@[cur as int].0 as int;
    let ss = g.sources@[cur as int].0 as int;
    let ds = g.drains@[cur as int].0 as int;
    let lg = if gs > 1 { wire_list(g, ts, gs) } else { Seq::<usize>::empty() };
    let ls = if ss > 1 { wire_list(g, ts, ss) } else { Seq::<usize>::empty() };
    let ld = if ds > 1 { wire_list(g, ts, ds) } else { Seq::<usize>::empty() };
    assert(reach(g, ts, cur) == lg + ls + ld);
    lemma_unvisited_add(lg + ls, ld, vis);
    lemma_unvisited_add(lg, ls, vis);
    assert(unvisited(Seq::<usize>::empty(), vis) =~= Seq::<usize>::empty());
}

/// Breadth-first search from `seed` over unvisited transistors sharing a
/// non-rail wire; marks and returns the cluster found, in visiting order.
#[verifier::rlimit(90)]
#[verifier::spinoff_prover]
fn grow_cluster(
    graph: &SignalGraph,
    ts: &[usize],
    lists: &Vec<Vec<usize>>,
    visited: &mut Vec<bool>,
    seed: usize,
) -> (cluster: Vec<usize>)
    requires
        graph.wires_ok(),
        wire_lists_ok(*graph, ts@, lists@),
        lists_exact(*graph, ts@, lists@),
        old(visited)@.len() == graph.kinds@.len(),
        forall|p: int| 0 <= p < ts@.len() ==> #[trigger] ts@[p] < graph.kinds@.len(),
        seed < graph.kinds@.len(),
        ts@.contains(seed),
        !old(visited)@[seed as int],
    ensures
        final(visited)@.len() == old(visited)@.len(),
        cluster@.len() > 0,
        cluster@[0] == seed,
        forall|k1: int, k2: int|
            0 <= k1 < k2 < cluster@.len() ==> #[trigger] cluster@[k1] != #[trigger] cluster@[k2],
        forall|k: int|
            0 <= k < cluster@.len() ==> {
                &&& ts@.contains(#[trigger] cluster@[k])
                &&& cluster@[k] < graph.kinds@.len()
                &&& !old(visited)@[cluster@[k] as int]
                &&& connected(*graph, ts@, seed as int, cluster@[k] as int)
            },
        forall|x: int|
            0 <= x < final(visited)@.len() ==> (#[trigger] final(visited)@[x] <==> (old(visited)@[x]
                || cluster@.contains(x as usize))),
        forall|k: int, y: int|
            0 <= k < cluster@.len() && #[trigger] adjacent(*graph, ts@, cluster@[k] as int, y) ==> (
            old(visited)@[y] || cluster@.contains(y as usize)),
        cluster@ == bfs(*graph, ts@, seq![seed], old(visited)@),
{
    let ghost g = *graph;
    let ghost v0 = visited@;
    let n = graph.kinds.len();
    let mut cluster: Vec<usize> = Vec::new();
    let mut queue: Vec<usize> = Vec::new();
    queue.push(seed);
    let mut head: usize = 0;
    proof {
        assert(linked(g, ts@, seed as int, seed as int, 0));
        assert(queue@.subrange(0, 1) =~= seq![seed]);
        assert(cluster@ + bfs(g, ts@, seq![seed], v0) =~= bfs(g, ts@, seq![seed], v0));
    }
    while head < queue.len()
        invariant
            graph.wires_ok(),
            g == *graph,
            n == graph.kinds@.len(),
            wire_lists_ok(g, ts@, lists@),
            forall|p: int| 0 <= p < ts@.len() ==> #[trigger] ts@[p] < n,
            visited@.len() == n,
            v0.len() == n,
            !v0[seed as int],
            head <= queue@.len(),
            queue@.len() > 0,
            queue@[0] == seed,
            head == 0 ==> cluster@.len() == 0,
            head > 0 ==> cluster@.len() > 0 && cluster@[0] == seed,
            forall|k: int|
                0 <= k < queue@.len() ==> {
                    &&& ts@.contains(#[trigger] queue@[k])
                    &&& queue@[k] < n
                    &&& connected(g, ts@, seed as int, queue@[k] as int)
                },
            forall|k1: int, k2: int|
                0 <= k1 < k2 < cluster@.len() ==> #[trigger] cluster@[k1] != #[trigger] cluster@[k2],
            forall|k: int|
                0 <= k < cluster@.len() ==> {
                    &&& ts@.contains(#[trigger] cluster@[k])
                    &&& cluster@[k] < n
                    &&& !v0[cluster@[k] as int]
                    &&& connected(g, ts@, seed as int, cluster@[k] as int)
                },
            forall|x: int| 0 <= x < n ==> (#[trigger] visited@[x] <==> (v0[x] || cluster@.contains(x as usize))),
            forall|k: int, y: int|
                0 <= k < cluster@.len() && #[trigger] adjacent(g, ts@, cluster@[k] as int, y) ==> (
                visited@[y] || exists|k2: int| head <= k2 < queue@.len() && queue@[k2] == y),
            lists_exact(g, ts@, lists@),
            cluster@ + bfs(g, ts@, queue@.subrange(head as int, queue@.len() as int), visited@) == bfs(
                g,
                ts@,
                seq![seed],
                v0,
            ),
        decreases count_false(visited@), queue@.len() - head,
    {
        let cur = queue[head];
        let ghost q_before = queue@;
        let ghost h_before = head;
        head = head + 1;
        if visited[cur] {
            proof {
                assert forall|k: int, y: int|
                    0 <= k < cluster@.len() && #[trigger] adjacent(g, ts@, cluster@[k] as int, y) implies (
                    visited@[y] || exists|k2: int| head <= k2 < queue@.len() && queue@[k2] == y) by {
                    if !visited@[y] {
                        let k2 = choose|k2: int| h_before <= k2 < q_before.len() && q_before[k2] == y;
                        assert(k2 != h_before);
                    }
                }
                let qs = q_before.subrange(h_before as int, q_before.len() as int);
                assert(qs[0] == cur);
                assert(qs.drop_first() =~= queue@.subrange(head as int, queue@.len() as int));
                assert(bfs(g, ts@, qs, visited@) == bfs(g, ts@, qs.drop_first(), visited@));
            }
            continue;
        }
        let ghost vis_before = visited@;
        let ghost cl_before = cluster@;
        let ghost qs = q_before.subrange(h_before as int, q_before.len() as int);
        proof {
            assert(qs[0] == cur);
            lemma_bfs_step(g, ts@, qs, vis_before);
            lemma_count_false_set(visited@, cur as int);
            assert(!cl_before.contains(cur));
            assert(!v0[cur as int]);
        }
        visited.set(cur, true);
        cluster.push(cur);
        let ghost q1 = queue@;
        let gs = graph.gates[cur].0;
        if gs > 1 {
            push_unvisited(&lists[gs], visited, &mut queue);
        }
        let ghost q2 = queue@;
        let ss = graph.sources[cur].0;
        if ss > 1 {
            push_unvisited(&lists[ss], visited, &mut queue);
        }
        let ghost q3 = queue@;
        let ds = graph.drains[cur].0;
        if ds > 1 {
            push_unvisited(&lists[ds], visited, &mut queue);
        }
        proof {
            // one step of the breadth-first search
            assert(cluster@ + bfs(g, ts@, queue@.subrange(head as int, queue@.len() as int), visited@) == bfs(
                g,
                ts@,
                seq![seed],
                v0,
            )) by {
                let q4 = queue@;
                let vis = visited@;
                assert(vis == vis_before.update(cur as int, true));
                lemma_unvisited_reach(g, ts@, cur, vis);
                assert(lists@[gs as int]@ == wire_list(g, ts@, gs as int));
                assert(lists@[ss as int]@ == wire_list(g, ts@, ss as int));
                assert(lists@[ds as int]@ == wire_list(g, ts@, ds as int));
                assert(q4 =~= q1 + unvisited(reach(g, ts@, cur), vis));
                assert(q4.subrange(head as int, q4.len() as int) =~= qs.drop_first() + unvisited(
                    reach(g, ts@, cur),
                    vis,
                ));
                assert(cluster@ =~= cl_before + seq![cur]);
                assert(cluster@ + bfs(g, ts@, q4.subrange(head as int, q4.len() as int), vis) =~= cl_before
                    + bfs(g, ts@, qs, vis_before));
            }
        }
        proof {
            let q4 = queue@;
            assert(forall|k: int| 0 <= k < q1.len() ==> #[trigger] q2[k] == q1[k]);
            assert(forall|k: int| 0 <= k < q2.len() ==> #[trigger] q3[k] == q2[k]);
            assert(forall|k: int| 0 <= k < q3.len() ==> #[trigger] q4[k] == q3[k]);
            // every new queue entry shares a wire with `cur`
            assert forall|k: int| 0 <= k < q4.len() implies {
                &&& ts@.contains(#[trigger] q4[k])
                &&& q4[k] < n
                &&& connected(g, ts@, seed as int, q4[k] as int)
            } by {
                if k < q1.len() {
                    assert(q4[k] == q1[k]);
                } else {
                    let s: int = if k < q2.len() {
                        gs as int
                    } else if k < q3.len() {
                        ss as int
                    } else {
                        ds as int
                    };
                    if k < q2.len() {
                        assert(q4[k] == q3[k] && q3[k] == q2[k]);
                        assert(lists@[s]@.contains(q2[k]));
                        let j = choose|j: int| 0 <= j < lists@[s]@.len() && lists@[s]@[j] == q2[k];
                        assert(q4[k] == lists@[s]@[j]);
                    } else if k < q3.len() {
                        assert(q4[k] == q3[k]);
                        assert(lists@[s]@.contains(q3[k]));
                        let j = choose|j: int| 0 <= j < lists@[s]@.len() && lists@[s]@[j] == q3[k];
                        assert(q4[k] == lists@[s]@[j]);
                    } else {
                        assert(lists@[s]@.contains(q4[k]));
                        let j = choose|j: int| 0 <= j < lists@[s]@.len() && lists@[s]@[j] == q4[k];
                        assert(q4[k] == lists@[s]@[j]);
                    }
                    assert(touches(g, q4[k] as int, s));
                    assert(touches(g, cur as int, s));
                    assert(adjacent(g, ts@, cur as int, q4[k] as int));
                    assert(q_before[h_before as int] == cur);
                    lemma_linked_step(g, ts@, seed as int, cur as int, q4[k] as int);
                }
            }
            assert forall|k: int, y: int|
                0 <= k < cluster@.len() && #[trigger] adjacent(g, ts@, cluster@[k] as int, y) implies (
                visited@[y] || exists|k2: int| head <= k2 < q4.len() && q4[k2] == y) by {
                if k < cl_before.len() {
                    assert(cluster@[k] == cl_before[k]);
                    if !vis_before[y] {
                        let k2 = choose|k2: int| h_before <= k2 < q_before.len() && q_before[k2] == y;
                        if k2 == h_before {
                            assert(y == cur);
                        } else {
                            assert(q4[k2] == q_before[k2]);
                        }
                    }
                } else {
                    assert(cluster@[k] == cur);
                    let s = choose|s: int| touches(g, cur as int, s) && touches(g, y, s);
                    let yp = choose|p: int| 0 <= p < ts@.len() && #[trigger] ts@[p] as int == y;
                    let yu = y as usize;
                    assert(ts@.contains(yu)) by { assert(ts@[yp] == yu); }
                    assert(touches(g, yu as int, s));
                    assert(0 <= s < lists@.len()) by {
                        assert(g.gates@[cur as int].0 < g.signals@.len());
                        assert(g.sources@[cur as int].0 < g.signals@.len());
                        assert(g.drains@[cur as int].0 < g.signals@.len());
                    }
                    assert(lists@[s]@.contains(yu));
                    let j = choose|j: int| 0 <= j < lists@[s]@.len() && lists@[s]@[j] == yu;
                    if !visited@[y] {
                        if s == gs {
                            let k2 = choose|k2: int| q1.len() <= k2 < q2.len() && q2[k2] == lists@[s]@[j];
                            assert(q3[k2] == q2[k2]);
                            assert(q4[k2] == q2[k2]);
                        } else if s == ss {
                            let k2 = choose|k2: int| q2.len() <= k2 < q3.len() && q3[k2] == lists@[s]@[j];
                            assert(q4[k2] == q3[k2]);
                        } else {
                            let k2 = choose|k2: int| q3.len() <= k2 < q4.len() && q4[k2] == lists@[s]@[j];
                        }
                    }
                }
            }
            assert forall|x: int| 0 <= x < n implies (#[trigger] visited@[x] <==> (v0[x] || cluster@.contains(x as usize))) by {
                if x == cur as int {
                    assert(cluster@[cluster@.len() - 1] == cur);
                } else {
                    if cluster@.contains(x as usize) {
                        let k = choose|k: int| 0 <= k < cluster@.len() && cluster@[k] == x as usize;
                        assert(cl_before[k] == x as usize);
                    }
                    if cl_before.contains(x as usize) {
                        let k = choose|k: int| 0 <= k < cl_before.len() && cl_before[k] == x as usize;
                        assert(cluster@[k] == x as usize);
                    }
                }
            }
            assert forall|k1: int, k2: int|
                0 <= k1 < k2 < cluster@.len() implies #[trigger] cluster@[k1] != #[trigger] cluster@[k2] by {
                if k2 == cluster@.len() - 1 {
                    assert(cluster@[k1] == cl_before[k1]);
                }
            }
            assert(q_before[h_before as int] == cur);
        }
    }
    proof {
        assert forall|k: int, y: int|
            0 <= k < cluster@.len() && #[trigger] adjacent(g, ts@, cluster@[k] as int, y) implies (
            v0[y] || cluster@.contains(y as usize)) by {
            let yi = choose|p: int| 0 <= p < ts@.len() && #[trigger] ts@[p] as int == y;
            assert(ts@[yi] < n);
        }
        assert(queue@.subrange(head as int, queue@.len() as int) =~= Seq::<usize>::empty());
        assert(cluster@ + Seq::<usize>::empty() =~= cluster@);
    }
    cluster
}


/// Groups transistors into CMOS clusters: two transistors of `transistors`
/// belong to the same cluster when a chain of transistors from the list
/// connects them, each sharing a wire other than VDD and GND with the next.
/// Clusters come in the order of their first transistor in the list, and
/// each lists its transistors in breadth-first order from that one: a
/// visited transistor queues the transistors on its gate wire, then on its
/// source wire, then on its drain wire, each wire's in the order of the
/// list.
#[verifier::rlimit(80)]
pub fn find_clusters(graph: &SignalGraph, transistors: &[usize]) -> (clusters: Vec<Vec<usize>>)
    requires
        graph.wires_ok(),
        forall|p: int| 0 <= p < transistors@.len() ==> #[trigger] transistors@[p] < graph.kinds@.len(),
    ensures
        is_component_partition(*graph, transistors@, clusters_view(clusters@)),
        clusters_in_list_order(transistors@, clusters_view(clusters@)),
        clusters_in_bfs_order(*graph, transistors@, clusters_view(clusters@)),
{
    let ghost g = *graph;
    let ghost ts = transistors@;
    let n = graph.kinds.len();
    let ns = graph.signals.len();

    // signal -> which transistors touch it
    let mut lists: Vec<Vec<usize>> = Vec::new();
    for s in 0..ns
        invariant
            lists@.len() == s,
            forall|x: int| 0 <= x < s ==> (#[trigger] lists@[x])@.len() == 0,
    {
        lists.push(Vec::new());
    }
    proof {
        assert forall|s: int| 0 <= s < ns implies (#[trigger] lists@[s])@ == wire_list(g, ts.take(0), s) by {
            assert(lists@[s]@ =~= Seq::<usize>::empty());
        }
    }
    for p in 0..transistors.len()
        invariant
            graph.wires_ok(),
            g == *graph,
            ts == transistors@,
            n == graph.kinds@.len(),
            ns == graph.signals@.len(),
            forall|p: int| 0 <= p < ts.len() ==> #[trigger] ts[p] < n,
            lists@.len() == ns,
            forall|s: int, k: int|
                0 <= s < lists@.len() && 0 <= k < lists@[s]@.len() ==> {
                    &&& (#[trigger] lists@[s]@[k]) < n
                    &&& ts.contains(lists@[s]@[k])
                    &&& touches(g, lists@[s]@[k] as int, s)
                },
            forall|s: int, q: int|
                0 <= s < ns && 0 <= q < p && #[trigger] touches(g, ts[q] as int, s) ==> lists@[s]@.contains(
                    ts[q],
                ),
            forall|s: int| 0 <= s < ns ==> (#[trigger] lists@[s])@ == wire_list(g, ts.take(p as int), s),
    {
        let t = transistors[p];
        let ghost l0 = lists@;
        let gs = graph.gates[t].0;
        if gs > 1 {
            lists[gs].push(t);
        }
        let ghost l1 = lists@;
        let ss = graph.sources[t].0;
        if ss > 1 {
            lists[ss].push(t);
        }
        let ghost l2 = lists@;
        let ds = graph.drains[t].0;
        if ds > 1 {
            lists[ds].push(t);
        }
        proof {
            assert forall|s: int| 0 <= s < ns implies (#[trigger] lists@[s])@ == wire_list(g, ts.take(p + 1), s) by {
                lemma_wire_list_take(g, ts, p as int, s);
                assert(l1[s]@ =~= l0[s]@ + (if s > 1 && g.gates@[t as int].0 == s {
                    seq![t]
                } else {
                    Seq::empty()
                }));
                assert(l2[s]@ =~= l1[s]@ + (if s > 1 && g.sources@[t as int].0 == s {
                    seq![t]
                } else {
                    Seq::empty()
                }));
                assert(lists@[s]@ =~= l2[s]@ + (if s > 1 && g.drains@[t as int].0 == s {
                    seq![t]
                } else {
                    Seq::empty()
                }));
                assert(lists@[s]@ =~= wire_list(g, ts.take(p as int), s) + terminal_hits(g, t, s));
            }
            assert(ts.contains(t)) by { assert(ts[p as int] == t); }
            assert forall|s: int, k: int| 0 <= s < lists@.len() && 0 <= k < lists@[s]@.len() implies {
                &&& (#[trigger] lists@[s]@[k]) < n
                &&& ts.contains(lists@[s]@[k])
                &&& touches(g, lists@[s]@[k] as int, s)
            } by {
                if s == ds && ds > 1 && k == lists@[s]@.len() - 1 {
                } else if k < l2[s]@.len() {
                    assert(lists@[s]@[k] == l2[s]@[k]);
                    if s == ss && ss > 1 && k == l1[s]@.len() {
                    } else if k < l1[s]@.len() {
                        assert(l2[s]@[k] == l1[s]@[k]);
                        if s == gs && gs > 1 && k == l0[s]@.len() {
                        } else {
                            assert(l1[s]@[k] == l0[s]@[k]);
                        }
                    }
                }
            }
            assert forall|s: int, q: int|
                0 <= s < ns && 0 <= q < p + 1 && #[trigger] touches(g, ts[q] as int, s) implies lists@[s]@.contains(
                ts[q],
            ) by {
                if q < p {
                    let k = choose|k: int| 0 <= k < l0[s]@.len() && l0[s]@[k] == ts[q];
                    assert(l1[s]@[k] == l0[s]@[k]);
                    assert(l2[s]@[k] == l1[s]@[k]);
                    assert(lists@[s]@[k] == l2[s]@[k]);
                } else {
                    if s == gs {
                        let k = l0[s]@.len() as int;
                        assert(l1[s]@[k] == t);
                        assert(l2[s]@[k] == l1[s]@[k]);
                        assert(lists@[s]@[k] == l2[s]@[k]);
                    } else if s == ss {
                        let k = l1[s]@.len() as int;
                        assert(l2[s]@[k] == t);
                        assert(lists@[s]@[k] == l2[s]@[k]);
                    } else {
                        assert(lists@[s]@[lists@[s]@.len() - 1] == t);
                    }
                }
            }
        }
    }
    proof {
        assert forall|s: int, x: usize|
            0 <= s < lists@.len() && ts.contains(x) && #[trigger] touches(g, x as int, s) implies lists@[s]@.contains(x) by {
            let q = choose|q: int| 0 <= q < ts.len() && ts[q] == x;
            assert(touches(g, ts[q] as int, s));
        }
        assert(wire_lists_ok(g, ts, lists@));
        assert(ts.take(ts.len() as int) =~= ts);
        assert(lists_exact(g, ts, lists@));
    }

    let mut visited: Vec<bool> = Vec::new();
    for t in 0..n
        invariant
            visited@.len() == t,
            forall|x: int| 0 <= x < t ==> !(#[trigger] visited@[x]),
    {
        visited.push(false);
    }
    let mut clusters: Vec<Vec<usize>> = Vec::new();
    for p in 0..transistors.len()
        invariant
            graph.wires_ok(),
            g == *graph,
            ts == transistors@,
            n == graph.kinds@.len(),
            forall|p: int| 0 <= p < ts.len() ==> #[trigger] ts[p] < n,
            wire_lists_ok(g, ts, lists@),
            lists_exact(g, ts, lists@),
            visited@.len() == n,
            forall|x: int| 0 <= x < n ==> (#[trigger] visited@[x] <==> in_clusters(clusters_view(clusters@), x)),
            forall|q: int| 0 <= q < p ==> in_clusters(clusters_view(clusters@), #[trigger] ts[q] as int),
            clusters_in_list_order(ts, clusters_view(clusters@)),
            clusters_in_bfs_order(g, ts, clusters_view(clusters@)),
            forall|c: int| 0 <= c < clusters@.len() ==> #[trigger] clusters@[c]@.len() > 0,
            forall|c: int, k: int|
                0 <= c < clusters@.len() && 0 <= k < clusters@[c]@.len() ==> {
                    &&& ts.contains(#[trigger] clusters@[c]@[k])
                    &&& clusters@[c]@[k] < n
                    &&& connected(g, ts, clusters@[c]@[0] as int, clusters@[c]@[k] as int)
                },
            forall|c1: int, k1: int, c2: int, k2: int|
                0 <= c1 < clusters@.len() && 0 <= k1 < clusters@[c1]@.len() && 0 <= c2 < clusters@.len()
                    && 0 <= k2 < clusters@[c2]@.len() && #[trigger] clusters@[c1]@[k1]
                    == #[trigger] clusters@[c2]@[k2] ==> c1 == c2 && k1 == k2,
            forall|c: int, k: int, y: int|
                0 <= c < clusters@.len() && 0 <= k < clusters@[c]@.len() && #[trigger] adjacent(
                    g,
                    ts,
                    clusters@[c]@[k] as int,
                    y,
                ) ==> exists|k2: int| 0 <= k2 < clusters@[c]@.len() && clusters@[c]@[k2] == y,
    {
        let t = transistors[p];
        if visited[t] {
            assert(ts[p as int] == t);
        } else {
            proof {
                assert(ts.contains(t)) by { assert(ts[p as int] == t); }
            }
            let ghost v0 = visited@;
            let ghost cl0 = clusters@;
            let cluster = grow_cluster(graph, transistors, &lists, &mut visited, t);
            clusters.push(cluster);
            proof {
                let cv0 = clusters_view(cl0);
                let cv = clusters_view(clusters@);
                let nc = cl0.len() as int;
                assert(cv.take(nc) =~= cv0);
                assert(v0 =~= Seq::new(n as nat, |x: int| in_clusters(cv0, x)));
                assert forall|c: int| 0 <= c < cv.len() implies #[trigger] cv[c] == bfs(
                    g,
                    ts,
                    seq![cv[c][0]],
                    Seq::new(g.kinds@.len(), |x: int| in_clusters(cv.take(c), x)),
                ) by {
                    if c < nc {
                        assert(cv.take(c) =~= cv0.take(c));
                        assert(cv[c] == cv0[c]);
                    } else {
                        assert(cv[c] == cluster@);
                    }
                }
            }
            proof {
                let cl = clusters@;
                let nc = cl0.len();
                assert(cl[nc as int]@ == cluster@);
                assert forall|c: int, k: int| 0 <= c < nc && 0 <= k < cl[c]@.len() implies #[trigger] cl[c]@[k]
                    == cl0[c]@[k] by {}
                // the new cluster is disjoint from the old ones
                assert forall|c: int, k: int, k2: int|
                    0 <= c < nc && 0 <= k < cl0[c]@.len() && 0 <= k2 < cluster@.len() implies #[trigger] cl0[c]@[k]
                    != #[trigger] cluster@[k2] by {
                    if cl0[c]@[k] == cluster@[k2] {
                        assert(in_clusters(clusters_view(cl0), cluster@[k2] as int)) by {
                            assert(clusters_view(cl0)[c][k] == cl0[c]@[k]);
                        }
                    }
                }
                assert forall|x: int| 0 <= x < n implies (#[trigger] visited@[x] <==> in_clusters(
                    clusters_view(cl),
                    x,
                )) by {
                    let cv = clusters_view(cl);
                    let cv0 = clusters_view(cl0);
                    if in_clusters(cv, x) {
                        let (c, k) = choose|c: int, k: int|
                            0 <= c < cv.len() && 0 <= k < cv[c].len() && #[trigger] cv[c][k] == x;
                        if c < nc {
                            assert(cv0[c][k] == x);
                        } else {
                            assert(cluster@.contains(x as usize)) by { assert(cluster@[k] == x); }
                        }
                    }
                    if v0[x] {
                        let (c, k) = choose|c: int, k: int|
                            0 <= c < cv0.len() && 0 <= k < cv0[c].len() && #[trigger] cv0[c][k] == x;
                        assert(cv[c][k] == x);
                    }
                    if cluster@.contains(x as usize) {
                        let k = choose|k: int| 0 <= k < cluster@.len() && cluster@[k] == x as usize;
                        assert(cv[nc as int][k] == x);
                    }
                }
                assert(clusters_in_list_order(ts, clusters_view(cl))) by {
                    let cv = clusters_view(cl);
                    let cv0 = clusters_view(cl0);
                    assert forall|c: int| 0 <= c < cv.len() implies exists|pp: int|
                        0 <= pp < ts.len() && ts[pp] == (#[trigger] cv[c])[0] && forall|q: int|
                            0 <= q < pp ==> in_clusters(cv.take(c), #[trigger] ts[q] as int) by {
                        if c < nc {
                            assert(cv.take(c) =~= cv0.take(c));
                            assert(cv[c] == cv0[c]);
                            let pp = choose|pp: int|
                                0 <= pp < ts.len() && ts[pp] == (#[trigger] cv0[c])[0] && forall|q: int|
                                    0 <= q < pp ==> in_clusters(cv0.take(c), #[trigger] ts[q] as int);
                        } else {
                            assert(cv.take(c) =~= cv0);
                            assert(cv[c][0] == t);
                            assert(ts[p as int] == t);
                        }
                    }
                }
                assert forall|q: int| 0 <= q < p + 1 implies in_clusters(clusters_view(cl), #[trigger] ts[q] as int) by {
                    let cv = clusters_view(cl);
                    let cv0 = clusters_view(cl0);
                    if q < p {
                        let (c, k) = choose|c: int, k: int|
                            0 <= c < cv0.len() && 0 <= k < cv0[c].len() && #[trigger] cv0[c][k] == ts[q] as int;
                        assert(cv[c][k] == ts[q]);
                    } else {
                        assert(cv[nc as int][0] == t);
                    }
                }
                assert forall|c1: int, k1: int, c2: int, k2: int|
                    0 <= c1 < cl.len() && 0 <= k1 < cl[c1]@.len() && 0 <= c2 < cl.len() && 0 <= k2
                        < cl[c2]@.len() && #[trigger] cl[c1]@[k1] == #[trigger] cl[c2]@[k2] implies c1 == c2
                    && k1 == k2 by {
                    if c1 < nc && c2 < nc {
                        assert(cl[c1]@[k1] == cl0[c1]@[k1]);
                        assert(cl[c2]@[k2] == cl0[c2]@[k2]);
                    } else if c1 < nc {
                        assert(cl[c1]@[k1] == cl0[c1]@[k1]);
                        assert(cl0[c1]@[k1] != cluster@[k2]);
                    } else if c2 < nc {
                        assert(cl[c2]@[k2] == cl0[c2]@[k2]);
                        assert(cl0[c2]@[k2] != cluster@[k1]);
                    }
                }
                assert forall|c: int, k: int, y: int|
                    0 <= c < cl.len() && 0 <= k < cl[c]@.len() && #[trigger] adjacent(g, ts, cl[c]@[k] as int, y)
                        implies exists|k2: int| 0 <= k2 < cl[c]@.len() && cl[c]@[k2] == y by {
                    if c < nc {
                        assert(cl[c]@[k] == cl0[c]@[k]);
                        let k2 = choose|k2: int| 0 <= k2 < cl0[c]@.len() && cl0[c]@[k2] == y;
                        assert(cl[c]@[k2] == cl0[c]@[k2]);
                    } else {
                        let m = cluster@[k];
                        if !cluster@.contains(y as usize) || y < 0 {
                            let yp = choose|p: int| 0 <= p < ts.len() && #[trigger] ts[p] as int == y;
                            assert(v0[y]);
                            let cv0 = clusters_view(cl0);
                            let (c2, k2) = choose|c2: int, k2: int|
                                0 <= c2 < cv0.len() && 0 <= k2 < cv0[c2].len() && #[trigger] cv0[c2][k2] == y;
                            lemma_adjacent_symmetric(g, ts, m as int, y);
                            assert(adjacent(g, ts, cl0[c2]@[k2] as int, m as int));
                            let k3 = choose|k3: int| 0 <= k3 < cl0[c2]@.len() && cl0[c2]@[k3] == m as int;
                            assert(cl0[c2]@[k3] != cluster@[k]);
                        } else {
                            let k2 = choose|k2: int| 0 <= k2 < cluster@.len() && cluster@[k2] == y as usize;
                            assert(cl[c]@[k2] == y);
                        }
                    }
                }
            }
        }
    }
    proof {
        let cv = clusters_view(clusters@);
        assert forall|c: int, k: int|
            0 <= c < cv.len() && 0 <= k < cv[c].len() implies connected(g, ts, cv[c][0] as int, #[trigger] cv[c][k] as int) by {
            assert(cv[c] == clusters@[c]@);
        }
        assert forall|c1: int, k1: int, c2: int, k2: int|
            0 <= c1 < cv.len() && 0 <= k1 < cv[c1].len() && 0 <= c2 < cv.len() && 0 <= k2 < cv[c2].len()
                && #[trigger] cv[c1][k1] == #[trigger] cv[c2][k2] implies c1 == c2 && k1 == k2 by {
            assert(cv[c1] == clusters@[c1]@);
            assert(cv[c2] == clusters@[c2]@);
        }
        assert forall|c: int, k: int, y: int|
            0 <= c < cv.len() && 0 <= k < cv[c].len() && #[trigger] adjacent(g, ts, cv[c][k] as int, y)
                implies exists|k2: int| 0 <= k2 < cv[c].len() && cv[c][k2] == y by {
            assert(cv[c] == clusters@[c]@);
            let k2 = choose|k2: int| 0 <= k2 < clusters@[c]@.len() && clusters@[c]@[k2] == y;
        }
        assert forall|c: int| 0 <= c < cv.len() implies #[trigger] cv[c].len() > 0 by {
            assert(cv[c] == clusters@[c]@);
        }
        assert forall|c: int, k: int| 0 <= c < cv.len() && 0 <= k < cv[c].len() implies ts.contains(#[trigger] cv[c][k]) by {
            assert(cv[c] == clusters@[c]@);
        }
    }
    clusters
}

} // verus!
