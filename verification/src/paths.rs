//! The shortest-path engine: breadth-first search over the built graph,
//! with at most one recorded predecessor per node and parent-pointer path
//! reconstruction. Every edge counts as one hop; the stored scores are
//! never consulted.

use vstd::prelude::*;

verus! {

use crate::graph::{MovieGraph, graph_edges, graph_neighbors, graph_node_count, graph_nodes,
    has_edge, out_targets};

/// Whether `w` is a directed walk through the edge list `es`: each
/// consecutive pair of entries is joined by an edge.
pub open spec fn is_walk(es: Seq<(int, int, u32)>, w: Seq<int>) -> bool {
    forall|i: int| 0 <= i < w.len() - 1 ==> has_edge(es, #[trigger] w[i], w[i + 1])
}

/// Whether `w` is a directed walk that starts at `s` and ends at `t`,
/// both included.
pub open spec fn connects(es: Seq<(int, int, u32)>, w: Seq<int>, s: int, t: int) -> bool {
    &&& is_walk(es, w)
    &&& w.len() >= 1
    &&& w.first() == s
    &&& w.last() == t
}

/// Whether some directed walk leads from `s` to `t`.
pub open spec fn reachable(es: Seq<(int, int, u32)>, s: int, t: int) -> bool {
    exists|w: Seq<int>| connects(es, w, s, t)
}

/// A node position sequence, as mathematical integers.
pub open spec fn to_ints(p: Seq<usize>) -> Seq<int> {
    p.map_values(|x: usize| x as int)
}

/// Whether `x` stands among the first `head` entries of the search queue,
/// that is, among the nodes whose outgoing edges have been handed out.
pub open spec fn processed(q: Seq<usize>, head: int, x: int) -> bool {
    exists|i: int| 0 <= i < head && ((#[trigger] q[i]) as int) == x
}

/// The breadth-first search state. `q` is the queue of discovered nodes in
/// discovery order; the entries below `head` have been dequeued. `visited`
/// marks exactly the queued nodes. Every queued node but the start carries
/// its predecessor, discovered strictly earlier, and sits one hop beyond
/// it; distances along the queue never decrease and spread by at most one
/// hop past the node under the cursor. Every edge out of a dequeued node
/// leads to a discovered node at most one hop further out, and `end` has
/// never been dequeued.
pub open spec fn bfs_inv(
    es: Seq<(int, int, u32)>,
    n: int,
    start: int,
    end: int,
    q: Seq<usize>,
    head: int,
    visited: Seq<bool>,
    parent: Seq<usize>,
    dist: Seq<int>,
) -> bool {
    &&& visited.len() == n
    &&& parent.len() == n
    &&& dist.len() == n
    &&& 1 <= q.len() <= n
    &&& 0 <= head <= q.len()
    &&& (q[0] as int) == start
    &&& dist[start] == 0
    &&& (forall|i: int, j: int| 0 <= i < j < q.len() ==> q[i] != q[j])
    &&& (forall|i: int| 0 <= i < q.len() ==> ((#[trigger] q[i]) as int) < n)
    &&& (forall|x: int| 0 <= x < n ==>
        ((#[trigger] visited[x]) <==> exists|i: int| 0 <= i < q.len() && ((#[trigger] q[i]) as int) == x))
    &&& (forall|i: int| 0 <= i < q.len() ==> dist[(#[trigger] q[i]) as int] >= 0)
    &&& (forall|i: int| 1 <= i < q.len() ==> {
        let x = (#[trigger] q[i]) as int;
        &&& (parent[x] as int) < n
        &&& has_edge(es, parent[x] as int, x)
        &&& dist[x] == dist[parent[x] as int] + 1
        &&& (exists|j: int| 0 <= j < i && ((#[trigger] q[j]) as int) == parent[x] as int)
    })
    &&& (forall|i: int, j: int| 0 <= i <= j < q.len() ==>
        dist[(#[trigger] q[i]) as int] <= dist[(#[trigger] q[j]) as int])
    &&& (head < q.len() ==> (forall|i: int| 0 <= i < q.len() ==>
        dist[(#[trigger] q[i]) as int] <= dist[q[head] as int] + 1))
    &&& (forall|i: int, b: int| 0 <= i < head && #[trigger] has_edge(es, (#[trigger] q[i]) as int, b) ==> {
        &&& 0 <= b < n
        &&& visited[b]
        &&& dist[b] <= dist[q[i] as int] + 1
    })
    &&& (forall|i: int| 0 <= i < head ==> ((#[trigger] q[i]) as int) != end)
}

/// A node appears among the outgoing targets of `a` exactly when an edge
/// runs from `a` to it.
pub proof fn lemma_out_targets_iff(es: Seq<(int, int, u32)>, a: int)
    ensures
        forall|b: int| #[trigger] out_targets(es, a).contains(b) <==> has_edge(es, a, b),
    decreases es.len(),
{
    if es.len() > 0 {
        lemma_out_targets_iff(es.drop_last(), a);
        let out = out_targets(es, a);
        let rest = out_targets(es.drop_last(), a);
        let e = es.last();
        assert forall|b: int| #[trigger] out.contains(b) implies has_edge(es, a, b) by {
            let i = choose|i: int| 0 <= i < out.len() && out[i] == b;
            if e.0 == a && i == 0 {
                assert(es[es.len() - 1].0 == a && es[es.len() - 1].1 == b);
            } else {
                if e.0 == a {
                    assert(rest[i - 1] == b);
                } else {
                    assert(rest[i] == b);
                }
                assert(rest.contains(b));
                let t = choose|t: int| 0 <= t < es.drop_last().len()
                    && (#[trigger] es.drop_last()[t]).0 == a && es.drop_last()[t].1 == b;
                assert(es[t].0 == a && es[t].1 == b);
            }
        };
        assert forall|b: int| has_edge(es, a, b) implies #[trigger] out.contains(b) by {
            let i = choose|i: int| 0 <= i < es.len() && (#[trigger] es[i]).0 == a && es[i].1 == b;
            if i == es.len() - 1 {
                assert(out[0] == b);
            } else {
                assert(es.drop_last()[i].0 == a && es.drop_last()[i].1 == b);
                assert(has_edge(es.drop_last(), a, b));
                assert(rest.contains(b));
                let j = choose|j: int| 0 <= j < rest.len() && rest[j] == b;
                if e.0 == a {
                    assert(out[j + 1] == b);
                } else {
                    assert(out[j] == b);
                }
            }
        };
    }
}

/// A sequence of pairwise distinct node positions below `n` has at most
/// `n` entries.
proof fn lemma_distinct_bounded(q: Seq<usize>, n: int)
    requires
        n >= 0,
        forall|i: int, j: int| 0 <= i < j < q.len() ==> q[i] != q[j],
        forall|i: int| 0 <= i < q.len() ==> ((#[trigger] q[i]) as int) < n,
    ensures
        q.len() <= n,
{
    let qi = q.map_values(|x: usize| x as int);
    assert forall|i: int, j: int| 0 <= i < qi.len() && 0 <= j < qi.len() && i != j
        implies qi[i] != qi[j] by {
        if i < j {
            assert(q[i] != q[j]);
        } else {
            assert(q[j] != q[i]);
        }
    };
    assert(qi.no_duplicates());
    qi.unique_seq_to_set();
    let rng = Set::new(|x: int| 0 <= x < n);
    vstd::set_lib::lemma_int_range(0, n);
    assert(vstd::set_lib::set_int_range(0, n) =~= rng);
    assert forall|x: int| qi.to_set().contains(x) implies rng.contains(x) by {
        let i = choose|i: int| 0 <= i < qi.len() && qi[i] == x;
        assert(0 <= qi[i] < n);
    };
    vstd::set_lib::lemma_len_subset(qi.to_set(), rng);
}

/// Once the queue is exhausted, every node a walk from the start can
/// reach has been visited.
proof fn lemma_walk_visited(
    es: Seq<(int, int, u32)>,
    n: int,
    start: int,
    end: int,
    q: Seq<usize>,
    head: int,
    visited: Seq<bool>,
    parent: Seq<usize>,
    dist: Seq<int>,
    w: Seq<int>,
    i: int,
)
    requires
        bfs_inv(es, n, start, end, q, head, visited, parent, dist),
        head == q.len(),
        is_walk(es, w),
        w.len() >= 1,
        w[0] == start,
        0 <= start < n,
        0 <= i < w.len(),
    ensures
        0 <= w[i] < n && visited[w[i]],
    decreases i,
{
    if i == 0 {
        assert((q[0] as int) == start);
        assert(visited[start]);
    } else {
        lemma_walk_visited(es, n, start, end, q, head, visited, parent, dist, w, i - 1);
        let idx = choose|idx: int| 0 <= idx < q.len() && ((q[idx]) as int) == w[i - 1];
        assert(has_edge(es, w[i - 1], w[i]));
        assert(has_edge(es, q[idx] as int, w[i]));
    }
}

/// Along any walk from the start, every prefix either stays within the
/// dequeued region with distances bounded by the hop count, or meets a
/// discovered but not yet dequeued node whose distance is bounded by its
/// position in the walk.
proof fn lemma_walk_bound(
    es: Seq<(int, int, u32)>,
    n: int,
    start: int,
    end: int,
    q: Seq<usize>,
    head: int,
    visited: Seq<bool>,
    parent: Seq<usize>,
    dist: Seq<int>,
    w: Seq<int>,
    i: int,
)
    requires
        bfs_inv(es, n, start, end, q, head, visited, parent, dist),
        is_walk(es, w),
        w.len() >= 1,
        w[0] == start,
        0 <= start < n,
        0 <= i < w.len(),
    ensures
        (exists|j: int| 0 <= j <= i && 0 <= #[trigger] w[j] < n && visited[w[j]]
            && dist[w[j]] <= j && !processed(q, head, w[j]))
        || (processed(q, head, w[i]) && 0 <= w[i] < n && dist[w[i]] <= i),
    decreases i,
{
    if i == 0 {
        assert((q[0] as int) == start);
        assert(visited[start]);
        assert(dist[start] == 0);
        if !processed(q, head, start) {
            assert(0 <= w[0] < n && visited[w[0]] && dist[w[0]] <= 0 && !processed(q, head, w[0]));
        }
    } else {
        lemma_walk_bound(es, n, start, end, q, head, visited, parent, dist, w, i - 1);
        if exists|j: int| 0 <= j <= i - 1 && 0 <= #[trigger] w[j] < n && visited[w[j]]
            && dist[w[j]] <= j && !processed(q, head, w[j]) {
            let j = choose|j: int| 0 <= j <= i - 1 && 0 <= #[trigger] w[j] < n && visited[w[j]]
                && dist[w[j]] <= j && !processed(q, head, w[j]);
            assert(0 <= j <= i && 0 <= w[j] < n && visited[w[j]] && dist[w[j]] <= j
                && !processed(q, head, w[j]));
        } else {
            let idx = choose|idx: int| 0 <= idx < head && ((q[idx]) as int) == w[i - 1];
            assert(has_edge(es, w[i - 1], w[i]));
            assert(has_edge(es, q[idx] as int, w[i]));
            assert(0 <= w[i] < n && visited[w[i]] && dist[w[i]] <= dist[w[i - 1]] + 1);
            if !processed(q, head, w[i]) {
                assert(0 <= w[i] < n && visited[w[i]] && dist[w[i]] <= i
                    && !processed(q, head, w[i]));
            }
        }
    }
}

/// When the node under the queue cursor is the goal, no directed walk
/// from the start reaches the goal in fewer hops than the recorded
/// distance.
proof fn lemma_bfs_minimal(
    es: Seq<(int, int, u32)>,
    n: int,
    start: int,
    end: int,
    q: Seq<usize>,
    head: int,
    visited: Seq<bool>,
    parent: Seq<usize>,
    dist: Seq<int>,
    w: Seq<int>,
)
    requires
        bfs_inv(es, n, start, end, q, head, visited, parent, dist),
        0 <= head < q.len(),
        (q[head] as int) == end,
        connects(es, w, start, end),
        0 <= start < n,
    ensures
        w.len() >= dist[end] + 1,
{
    let last = w.len() - 1;
    lemma_walk_bound(es, n, start, end, q, head, visited, parent, dist, w, last);
    if processed(q, head, w[last]) && 0 <= w[last] < n && dist[w[last]] <= last {
        let idx = choose|idx: int| 0 <= idx < head && ((q[idx]) as int) == w[last];
        assert(q[idx] != q[head]);
        assert(false);
    } else {
        let j = choose|j: int| 0 <= j <= last && 0 <= #[trigger] w[j] < n && visited[w[j]]
            && dist[w[j]] <= j && !processed(q, head, w[j]);
        let idx = choose|idx: int| 0 <= idx < q.len() && ((q[idx]) as int) == w[j];
        assert(idx >= head);
        assert(dist[q[head] as int] <= dist[q[idx] as int]);
        assert(dist[end] <= dist[w[j]]);
    }
}

/// Dequeue `node`, the entry under the queue cursor, and hand out its
/// outgoing edges: every undiscovered target is marked visited, recorded
/// with `node` as predecessor one hop beyond it, and appended to the
/// queue; the search state then satisfies its invariant with the cursor
/// advanced past `node`. The recorded distances, updated alongside, come
/// back as the result.
#[verifier::rlimit(100)]
fn expand_node(
    g: &MovieGraph,
    node: usize,
    start: usize,
    end: usize,
    n: usize,
    queue: &mut Vec<usize>,
    visited: &mut Vec<bool>,
    parent: &mut Vec<usize>,
    Ghost(head): Ghost<int>,
    Ghost(dist0): Ghost<Seq<int>>,
) -> (dist1: Ghost<Seq<int>>)
    requires
        n as int == graph_nodes(*g).len(),
        (start as int) < n as int,
        (end as int) < n as int,
        bfs_inv(graph_edges(*g), n as int, start as int, end as int, old(queue)@, head,
            old(visited)@, old(parent)@, dist0),
        0 <= head < old(queue)@.len(),
        old(queue)@[head] == node,
        node != end,
    ensures
        bfs_inv(graph_edges(*g), n as int, start as int, end as int, final(queue)@, head + 1,
            final(visited)@, final(parent)@, dist1@),
{
    let ghost es = graph_edges(*g);
    let ghost mut dist: Seq<int> = dist0;
    proof {
        assert((queue@[head] as int) < n as int);
    }
    let neigh = graph_neighbors(g, node);
    proof {
        lemma_out_targets_iff(es, node as int);
    }
    let mut k: usize = 0;
    while k < neigh.len()
        invariant
            n as int == graph_nodes(*g).len(),
            es == graph_edges(*g),
            (start as int) < n as int,
            (end as int) < n as int,
            head < queue@.len(),
            queue@[head] == node,
            (node as int) < n as int,
            node != end,
            neigh@.len() == out_targets(es, node as int).len(),
            forall|t: int| 0 <= t < neigh@.len() ==>
                ((#[trigger] neigh@[t]) as int) == out_targets(es, node as int)[t],
            forall|b: int| #[trigger] out_targets(es, node as int).contains(b)
                <==> has_edge(es, node as int, b),
            forall|t: int| 0 <= t < neigh@.len() ==> ((#[trigger] neigh@[t]) as int) < n as int,
            k <= neigh@.len(),
            bfs_inv(es, n as int, start as int, end as int, queue@, head, visited@,
                parent@, dist),
            forall|t: int| 0 <= t < k ==> visited@[(#[trigger] neigh@[t]) as int]
                && dist[neigh@[t] as int] <= dist[node as int] + 1,
        decreases neigh@.len() - k,
    {
        let v = neigh[k];
        if !visited[v] {
            proof {
                lemma_distinct_bounded(queue@.push(v), n as int);
                assert(out_targets(es, node as int)[k as int] == v as int);
                assert(out_targets(es, node as int).contains(v as int));
                assert(has_edge(es, node as int, v as int));
            }
            let ghost q0 = queue@;
            let ghost vis0 = visited@;
            let ghost p0 = parent@;
            let ghost d0 = dist;
            proof {
                assert(!vis0[v as int]);
                assert forall|i: int| 0 <= i < q0.len() implies (#[trigger] q0[i]) != v by {
                    if q0[i] == v {
                        assert((q0[i] as int) == v as int);
                        assert(vis0[v as int]);
                    }
                };
            }
            visited.set(v, true);
            parent.set(v, node);
            queue.push(v);
            proof {
                dist = d0.update(v as int, d0[node as int] + 1);
                let q1 = queue@;
                assert(q1 == q0.push(v));
                assert(visited@ == vis0.update(v as int, true));
                assert(parent@ == p0.update(v as int, node));
                assert(q1[q1.len() - 1] == v);
                assert((q0[head] as int) == node as int);
                assert(node != v);
                assert forall|x: int| 0 <= x < n as int implies
                    ((#[trigger] visited@[x]) <==> exists|i: int| 0 <= i < q1.len()
                        && ((#[trigger] q1[i]) as int) == x) by {
                    if x == v as int {
                        assert((q1[q1.len() - 1] as int) == x);
                    } else {
                        if visited@[x] {
                            assert(vis0[x]);
                            let i = choose|i: int| 0 <= i < q0.len()
                                && ((q0[i]) as int) == x;
                            assert((q1[i] as int) == x);
                        }
                        if exists|i: int| 0 <= i < q1.len() && ((#[trigger] q1[i]) as int) == x {
                            let i = choose|i: int| 0 <= i < q1.len()
                                && ((q1[i]) as int) == x;
                            assert(i < q0.len());
                            assert((q0[i] as int) == x);
                            assert(vis0[x]);
                        }
                    }
                };
                assert forall|i: int| 1 <= i < q1.len() implies {
                    let x = (#[trigger] q1[i]) as int;
                    &&& (parent@[x] as int) < n as int
                    &&& has_edge(es, parent@[x] as int, x)
                    &&& dist[x] == dist[parent@[x] as int] + 1
                    &&& (exists|j: int| 0 <= j < i && ((#[trigger] q1[j]) as int)
                        == parent@[x] as int)
                } by {
                    if i == q1.len() - 1 {
                        assert((q1[head] as int) == node as int);
                        assert((parent@[v as int] as int) == node as int);
                        assert(dist[v as int] == dist[node as int] + 1);
                    } else {
                        let x = (q1[i]) as int;
                        assert(q1[i] == q0[i]);
                        assert(q0[i] != v);
                        assert(x != v as int);
                        assert((parent@[x] as int) == (p0[x] as int));
                        let j = choose|j: int| 0 <= j < i && ((q0[j]) as int)
                            == (p0[x] as int);
                        assert((q1[j] as int) == parent@[x] as int);
                        assert(q0[j] != v);
                        assert(dist[p0[x] as int] == d0[p0[x] as int]);
                        assert(dist[x] == d0[x]);
                    }
                };
                assert forall|i: int, j: int| 0 <= i <= j < q1.len() implies
                    dist[(#[trigger] q1[i]) as int] <= dist[(#[trigger] q1[j]) as int] by {
                    if j == q1.len() - 1 {
                        if i < j {
                            assert(q0[i] != v);
                            assert(d0[q0[i] as int] <= d0[node as int] + 1);
                        }
                    } else {
                        assert(q0[i] != v && q0[j] != v);
                    }
                };
                assert forall|i: int| 0 <= i < q1.len() implies
                    dist[(#[trigger] q1[i]) as int] <= dist[q1[head] as int] + 1 by {
                    if i < q1.len() - 1 {
                        assert(q0[i] != v);
                        assert(d0[q0[i] as int] <= d0[node as int] + 1);
                    }
                };
            }
        } else {
            proof {
                assert(visited@[v as int]);
                let i = choose|i: int| 0 <= i < queue@.len()
                    && ((queue@[i]) as int) == v as int;
                assert(dist[queue@[i] as int] <= dist[queue@[head] as int] + 1);
            }
        }
        k = k + 1;
    }
    proof {
        assert forall|i: int, b: int| 0 <= i < head + 1
            && #[trigger] has_edge(es, (#[trigger] queue@[i]) as int, b) implies {
            &&& 0 <= b < n as int
            &&& visited@[b]
            &&& dist[b] <= dist[queue@[i] as int] + 1
        } by {
            if i == head {
                assert(out_targets(es, node as int).contains(b));
                let t = choose|t: int| 0 <= t < out_targets(es, node as int).len()
                    && out_targets(es, node as int)[t] == b;
                assert((neigh@[t] as int) == b);
                assert(visited@[(neigh@[t]) as int]);
            }
        };
        if head + 1 < queue@.len() {
            assert forall|i: int| 0 <= i < queue@.len() implies
                dist[(#[trigger] queue@[i]) as int] <= dist[queue@[head + 1] as int] + 1 by {
                assert(dist[queue@[i] as int] <= dist[queue@[head] as int] + 1);
                assert(dist[queue@[head] as int] <= dist[queue@[head + 1] as int]);
            };
        }
        assert forall|i: int| 0 <= i < head + 1 implies
            ((#[trigger] queue@[i]) as int) != end as int by {
            if i == head {
                assert((queue@[head] as int) == node as int);
            }
        };
    }
    Ghost(dist)
}

/// Follow the recorded predecessors back from `end` to `start` and turn
/// the chain around: a directed walk from `start` to `end` whose hop count
/// is exactly the recorded distance of `end`.
#[verifier::rlimit(100)]
fn build_path(
    parent: &Vec<usize>,
    start: usize,
    end: usize,
    n: usize,
    Ghost(es): Ghost<Seq<(int, int, u32)>>,
    Ghost(q): Ghost<Seq<usize>>,
    Ghost(visited): Ghost<Seq<bool>>,
    Ghost(dist): Ghost<Seq<int>>,
) -> (p: Vec<usize>)
    requires
        parent@.len() == n as int,
        dist.len() == n as int,
        q.len() >= 1,
        (q[0] as int) == start as int,
        dist[start as int] == 0,
        (start as int) < n as int,
        (end as int) < n as int,
        forall|x: int| 0 <= x < n as int ==>
            ((#[trigger] visited[x]) <==> exists|i: int| 0 <= i < q.len()
                && ((#[trigger] q[i]) as int) == x),
        forall|i: int| 0 <= i < q.len() ==> ((#[trigger] q[i]) as int) < n as int,
        forall|i: int| 0 <= i < q.len() ==> dist[(#[trigger] q[i]) as int] >= 0,
        forall|i: int| 1 <= i < q.len() ==> {
            let x = (#[trigger] q[i]) as int;
            &&& (parent@[x] as int) < n as int
            &&& has_edge(es, parent@[x] as int, x)
            &&& dist[x] == dist[parent@[x] as int] + 1
            &&& (exists|j: int| 0 <= j < i && ((#[trigger] q[j]) as int) == parent@[x] as int)
        },
        visited[end as int],
    ensures
        connects(es, to_ints(p@), start as int, end as int),
        p@.len() == dist[end as int] + 1,
        forall|k: int| 0 <= k < p@.len() ==> ((#[trigger] p@[k]) as int) < n as int,
        start == end ==> p@ =~= seq![start],
{
    let mut rev: Vec<usize> = Vec::new();
    let mut current: usize = end;
    while current != start
        invariant
            parent@.len() == n as int,
            dist.len() == n as int,
            q.len() >= 1,
            (q[0] as int) == start as int,
            dist[start as int] == 0,
            (start as int) < n as int,
            (end as int) < n as int,
            forall|x: int| 0 <= x < n as int ==>
                ((#[trigger] visited[x]) <==> exists|i: int| 0 <= i < q.len()
                    && ((#[trigger] q[i]) as int) == x),
            forall|i: int| 0 <= i < q.len() ==> ((#[trigger] q[i]) as int) < n as int,
            forall|i: int| 0 <= i < q.len() ==> dist[(#[trigger] q[i]) as int] >= 0,
            forall|i: int| 1 <= i < q.len() ==> {
                let x = (#[trigger] q[i]) as int;
                &&& (parent@[x] as int) < n as int
                &&& has_edge(es, parent@[x] as int, x)
                &&& dist[x] == dist[parent@[x] as int] + 1
                &&& (exists|j: int| 0 <= j < i && ((#[trigger] q[j]) as int) == parent@[x] as int)
            },
            (current as int) < n as int,
            visited[current as int],
            forall|t: int| 0 <= t < rev@.len() ==> ((#[trigger] rev@[t]) as int) < n as int,
            forall|t: int| 0 <= t < rev@.len() - 1 ==>
                has_edge(es, (#[trigger] rev@[t + 1]) as int, rev@[t] as int),
            rev@.len() >= 1 ==> rev@[0] == end
                && has_edge(es, current as int, rev@[rev@.len() - 1] as int),
            rev@.len() == 0 ==> current == end,
            dist[current as int] + rev@.len() == dist[end as int],
        decreases dist[current as int],
    {
        proof {
            assert(visited[current as int]);
            let i = choose|i: int| 0 <= i < q.len() && ((q[i]) as int) == current as int;
            assert(i >= 1);
            assert(dist[q[i] as int] == dist[parent@[current as int] as int] + 1);
            let j = choose|j: int| 0 <= j < i
                && ((q[j]) as int) == parent@[current as int] as int;
            assert(dist[q[j] as int] >= 0);
            assert(visited[parent@[current as int] as int]);
        }
        rev.push(current);
        current = parent[current];
    }
    proof {
        assert(rev@.len() == dist[end as int]);
    }
    let mut path: Vec<usize> = Vec::new();
    path.push(current);
    let mut t: usize = rev.len();
    while t > 0
        invariant
            (start as int) < n as int,
            (end as int) < n as int,
            rev@.len() == dist[end as int],
            forall|u: int| 0 <= u < rev@.len() ==> ((#[trigger] rev@[u]) as int) < n as int,
            forall|u: int| 0 <= u < rev@.len() - 1 ==>
                has_edge(es, (#[trigger] rev@[u + 1]) as int, rev@[u] as int),
            rev@.len() >= 1 ==> rev@[0] == end
                && has_edge(es, start as int, rev@[rev@.len() - 1] as int),
            rev@.len() == 0 ==> start == end,
            t <= rev@.len(),
            path@.len() == 1 + (rev@.len() - t),
            path@[0] == start,
            forall|u: int| 1 <= u < path@.len() ==>
                (#[trigger] path@[u]) == rev@[rev@.len() - u],
            forall|u: int| 0 <= u < path@.len() - 1 ==>
                has_edge(es, (#[trigger] path@[u]) as int, path@[u + 1] as int),
            forall|u: int| 0 <= u < path@.len() ==> ((#[trigger] path@[u]) as int) < n as int,
        decreases t,
    {
        t = t - 1;
        proof {
            if path@.len() == 1 {
                assert(t as int == rev@.len() - 1);
                assert(has_edge(es, path@[0] as int, rev@[t as int] as int));
            } else {
                assert(path@[path@.len() - 1] == rev@[rev@.len() - (path@.len() - 1)]);
                assert(rev@.len() - (path@.len() - 1) == t + 1);
                assert(has_edge(es, (rev@[t + 1]) as int, rev@[t as int] as int));
            }
        }
        path.push(rev[t]);
    }
    proof {
        assert(path@.len() == dist[end as int] + 1);
        if rev@.len() >= 1 {
            assert(path@[path@.len() - 1] == rev@[0]);
        } else {
            assert(path@.len() == 1);
        }
        let pm = to_ints(path@);
        assert(pm.first() == start as int);
        assert(pm.last() == end as int);
        assert(is_walk(es, pm)) by {
            assert forall|u: int| 0 <= u < pm.len() - 1
                implies has_edge(es, #[trigger] pm[u], pm[u + 1]) by {
                assert(has_edge(es, path@[u] as int, path@[u + 1] as int));
            };
        };
        assert(connects(es, pm, start as int, end as int));
        if start == end {
            assert(dist[end as int] == 0);
            assert(path@ =~= seq![start]);
        }
    }
    path
}

/// The fewest-hops path from `start` to `end`, both given as node
/// positions of `g`, following directed edges only. `Some(p)` is a
/// shortest directed walk from `start` to `end`, endpoints included;
/// `None` means no such walk exists. When `start == end` the single-node
/// path comes back.
#[verifier::rlimit(100)]
pub fn shortest_path(g: &MovieGraph, start: usize, end: usize) -> (r: Option<Vec<usize>>)
    requires
        (start as int) < graph_nodes(*g).len(),
        (end as int) < graph_nodes(*g).len(),
    ensures
        (match r {
            Option::Some(p) => {
                &&& connects(graph_edges(*g), to_ints(p@), start as int, end as int)
                &&& (forall|w: Seq<int>|
                    #[trigger] connects(graph_edges(*g), w, start as int, end as int)
                        ==> p@.len() <= w.len())
                &&& (forall|k: int| 0 <= k < p@.len() ==>
                    ((#[trigger] p@[k]) as int) < graph_nodes(*g).len())
            }
            Option::None => !reachable(graph_edges(*g), start as int, end as int),
        }),
        start == end ==> (r matches Option::Some(p) && p@ =~= seq![start]),
{
    let ghost es = graph_edges(*g);
    let n = graph_node_count(g);
    let mut visited: Vec<bool> = Vec::new();
    let mut parent: Vec<usize> = Vec::new();
    let mut k0: usize = 0;
    while k0 < n
        invariant
            k0 <= n,
            visited@.len() == k0 as int,
            parent@.len() == k0 as int,
            forall|t: int| 0 <= t < k0 ==> #[trigger] visited@[t] == false,
        decreases n - k0,
    {
        visited.push(false);
        parent.push(0);
        k0 = k0 + 1;
    }
    let mut queue: Vec<usize> = Vec::new();
    queue.push(start);
    visited.set(start, true);
    let ghost mut dist: Seq<int> = Seq::new(n as nat, |i: int| 0);
    let mut head: usize = 0;
    proof {
        assert forall|x: int| 0 <= x < n implies
            ((#[trigger] visited@[x]) <==> exists|i: int| 0 <= i < queue@.len()
                && ((#[trigger] queue@[i]) as int) == x) by {
            if x == start as int {
                assert((queue@[0] as int) == x);
            }
        };
    }
    while head < queue.len()
        invariant
            n == graph_nodes(*g).len(),
            es == graph_edges(*g),
            (start as int) < n,
            (end as int) < n,
            head <= queue@.len(),
            bfs_inv(es, n as int, start as int, end as int, queue@, head as int, visited@,
                parent@, dist),
        decreases n - head,
    {
        let node = queue[head];
        if node == end {
            proof {
                assert((queue@[head as int] as int) == end as int);
                assert(visited@[end as int]);
            }
            let path = build_path(&parent, start, end, n, Ghost(es), Ghost(queue@),
                Ghost(visited@), Ghost(dist));
            proof {
                assert forall|w: Seq<int>|
                    #[trigger] connects(es, w, start as int, end as int)
                    implies path@.len() <= w.len() by {
                    lemma_bfs_minimal(es, n as int, start as int, end as int, queue@,
                        head as int, visited@, parent@, dist, w);
                };
            }
            return Option::Some(path);
        }
        let dist1 = expand_node(g, node, start, end, n, &mut queue, &mut visited,
            &mut parent, Ghost(head as int), Ghost(dist));
        proof {
            dist = dist1@;
        }
        head = head + 1;
    }
    proof {
        assert(head as int == queue@.len());
        if reachable(es, start as int, end as int) {
            let w = choose|w: Seq<int>| connects(es, w, start as int, end as int);
            lemma_walk_visited(es, n as int, start as int, end as int, queue@, head as int,
                visited@, parent@, dist, w, w.len() - 1);
            assert(visited@[end as int]);
            let i = choose|i: int| 0 <= i < queue@.len() && ((queue@[i]) as int) == end as int;
            assert((queue@[i] as int) != end as int);
            assert(false);
        }
        assert((queue@[0] as int) == start as int);
        assert((queue@[0] as int) != end as int);
    }
    Option::None
}

} // verus!
