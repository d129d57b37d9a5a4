//! Shortest paths in a directed graph whose edges all have the length one.
use vstd::prelude::*;
use vstd::multiset::Multiset;
use std::collections::HashMap;
use crate::graphs::{Adjacency, edge, closed, walk};
use crate::graphs::directed_graph::DirectedGraph;
use crate::heaps::fibonacci_heap::FibonacciHeap;
use crate::heaps::queue_model::is_least;
use crate::order::{le, total_order, lemma_pairs_total_order};

verus! {

/// Some node whose distance is one less than that of `v` has an edge to `v`.
pub open spec fn stepped(g: Adjacency, dist: Map<u64, usize>, v: u64) -> bool {
    exists|u: u64| dist.contains_key(u) && edge(g, u, v) && dist[u] + 1 == dist[v]
}

/// No edge out of `u` leads to a node without a distance, or to one whose
/// distance is more than one above that of `u`.
pub open spec fn relaxed(g: Adjacency, dist: Map<u64, usize>, u: u64) -> bool {
    forall|v: u64| #[trigger] edge(g, u, v) ==> dist.contains_key(v) && dist[v] <= dist[u] + 1
}

/// `dist` gives to each node that can be reached from `start` the length of
/// a shortest path to it: `start` has the distance zero, every other node
/// with a distance is one step behind a node whose distance is one less, and
/// no edge leads out of the nodes with a distance, or shortens a distance.
pub open spec fn shortest_distances(g: Adjacency, start: u64, dist: Map<u64, usize>) -> bool {
    &&& dist.contains_key(start)
    &&& dist[start] == 0
    &&& forall|v: u64| dist.contains_key(v) && v != start ==> #[trigger] stepped(g, dist, v)
    &&& forall|u: u64| dist.contains_key(u) ==> #[trigger] relaxed(g, dist, u)
}

/// No walk from `start` to a node is shorter than the distance of the node,
/// and every node that a walk from `start` reaches has a distance.
pub proof fn lemma_distance_is_least(
    g: Adjacency,
    start: u64,
    dist: Map<u64, usize>,
    path: Seq<u64>,
)
    requires
        shortest_distances(g, start, dist),
        walk(g, path),
        path[0] == start,
    ensures
        dist.contains_key(path.last()),
        dist[path.last()] <= path.len() - 1,
    decreases path.len(),
{
    if path.len() > 1 {
        let front = path.drop_last();
        assert forall|i: int| 0 <= i < front.len() - 1 implies edge(
            g,
            #[trigger] front[i],
            front[i + 1],
        ) by {
            assert(edge(g, path[i], path[i + 1]));
        }
        lemma_distance_is_least(g, start, dist, front);
        let u = front.last();
        assert(u == path[path.len() - 2]);
        assert(edge(g, path[path.len() - 2], path[path.len() - 1]));
        assert(relaxed(g, dist, u));
    }
}

/// To every node with a distance a walk from `start` leads that has as many
/// edges as the distance says.
pub proof fn lemma_distance_is_walked(g: Adjacency, start: u64, dist: Map<u64, usize>, v: u64) -> (path:
    Seq<u64>)
    requires
        shortest_distances(g, start, dist),
        dist.contains_key(v),
    ensures
        walk(g, path),
        path[0] == start,
        path.last() == v,
        path.len() == dist[v] + 1,
    decreases dist[v],
{
    if v == start {
        seq![start]
    } else {
        assert(stepped(g, dist, v));
        let u = choose|u: u64| dist.contains_key(u) && edge(g, u, v) && dist[u] + 1 == dist[v];
        let front = lemma_distance_is_walked(g, start, dist, u);
        let path = front.push(v);
        assert forall|i: int| 0 <= i < path.len() - 1 implies edge(
            g,
            #[trigger] path[i],
            path[i + 1],
        ) by {
            if i < front.len() - 1 {
                assert(edge(g, front[i], front[i + 1]));
            }
        }
        path
    }
}

/// The node `u` waits in the queue with its distance, or is relaxed.
spec fn settled(g: Adjacency, dist: Map<u64, usize>, queue: Multiset<(usize, u64)>, u: u64) -> bool {
    queue.contains((dist[u], u)) || relaxed(g, dist, u)
}

/// What holds of the distances found so far and of the queue, once a node
/// with the distance `low` has left the queue; `busy` is a node that is
/// being relaxed, if there is one.
spec fn searching(
    g: Adjacency,
    start: u64,
    dist: Map<u64, usize>,
    queue: Multiset<(usize, u64)>,
    low: int,
    busy: Option<u64>,
) -> bool {
    &&& dist.dom().finite()
    &&& dist.contains_key(start)
    &&& dist[start] == 0
    &&& forall|v: u64| #[trigger]
        dist.contains_key(v) ==> (v == start || g.contains_key(v)) && dist[v] <= low + 1 && dist[v]
            < dist.len()
    &&& forall|v: u64| dist.contains_key(v) && v != start ==> #[trigger] stepped(g, dist, v)
    &&& forall|x: (usize, u64)| #[trigger]
        queue.contains(x) ==> dist.contains_key(x.1) && dist[x.1] == x.0 && low <= x.0
    &&& forall|u: u64|
        dist.contains_key(u) && busy != Some(u) ==> #[trigger] settled(g, dist, queue, u)
}

/// A node that is new gets a distance and a place in the queue.
proof fn lemma_discovered(
    g: Adjacency,
    start: u64,
    dist: Map<u64, usize>,
    queue: Multiset<(usize, u64)>,
    low: int,
    from: u64,
    to: u64,
)
    requires
        closed(g),
        searching(g, start, dist, queue, low, Some(from)),
        dist.contains_key(from),
        dist[from] == low,
        edge(g, from, to),
        !dist.contains_key(to),
        low + 1 <= usize::MAX,
    ensures
        searching(
            g,
            start,
            dist.insert(to, (low + 1) as usize),
            queue.insert(((low + 1) as usize, to)),
            low,
            Some(from),
        ),
        dist.insert(to, (low + 1) as usize).len() == dist.len() + 1,
{
    let next = (low + 1) as usize;
    let dist2 = dist.insert(to, next);
    let queue2 = queue.insert((next, to));
    assert(dist2.dom() =~= dist.dom().insert(to));
    assert(dist2.len() == dist.len() + 1);
    assert forall|v: u64| dist2.contains_key(v) && v != start implies #[trigger] stepped(
        g,
        dist2,
        v,
    ) by {
        if v == to {
            assert(dist2.contains_key(from) && edge(g, from, v) && dist2[from] + 1 == dist2[v]);
        } else {
            assert(stepped(g, dist, v));
            let u = choose|u: u64| dist.contains_key(u) && edge(g, u, v) && dist[u] + 1 == dist[v];
            assert(dist2.contains_key(u) && edge(g, u, v) && dist2[u] + 1 == dist2[v]);
        }
    }
    assert forall|x: (usize, u64)| #[trigger] queue2.contains(x) implies dist2.contains_key(x.1)
        && dist2[x.1] == x.0 && low <= x.0 by {
        if x != (next, to) {
            assert(queue.contains(x));
        }
    }
    assert forall|u: u64| dist2.contains_key(u) && Some(from) != Some(u) implies #[trigger] settled(
        g,
        dist2,
        queue2,
        u,
    ) by {
        if u == to {
            assert(queue2.contains((dist2[u], u)));
        } else {
            assert(settled(g, dist, queue, u));
            if queue.contains((dist[u], u)) {
                assert(queue2.contains((dist2[u], u)));
            } else {
                assert(relaxed(g, dist, u));
                assert forall|v: u64| #[trigger] edge(g, u, v) implies dist2.contains_key(v)
                    && dist2[v] <= dist2[u] + 1 by {}
            }
        }
    }
}

/// The node with the least distance in the queue leaves the queue to be
/// relaxed.
proof fn lemma_popped(
    g: Adjacency,
    start: u64,
    dist: Map<u64, usize>,
    queue: Multiset<(usize, u64)>,
    low: int,
    entry: (usize, u64),
)
    requires
        searching(g, start, dist, queue, low, None),
        is_least(entry, queue),
        forall|a: (usize, u64), b: (usize, u64)|
            #[trigger] le(a, b) <==> (a.0 < b.0 || (a.0 == b.0 && a.1 <= b.1)),
    ensures
        searching(g, start, dist, queue.remove(entry), entry.0 as int, Some(entry.1)),
        dist.contains_key(entry.1),
        dist[entry.1] == entry.0,
{
    let queue2 = queue.remove(entry);
    assert(queue.contains(entry));
    assert forall|x: (usize, u64)| #[trigger] queue2.contains(x) implies dist.contains_key(x.1)
        && dist[x.1] == x.0 && entry.0 <= x.0 by {
        assert(queue.contains(x));
        assert(le(entry, x));
    }
    assert forall|u: u64| dist.contains_key(u) && Some(entry.1) != Some(u) implies #[trigger] settled(
        g,
        dist,
        queue2,
        u,
    ) by {
        assert(settled(g, dist, queue, u));
        if queue.contains((dist[u], u)) {
            assert((dist[u], u) != entry);
            assert(queue2.contains((dist[u], u)));
        }
    }
}

/// A node without edges is relaxed.
proof fn lemma_no_edges(
    g: Adjacency,
    start: u64,
    dist: Map<u64, usize>,
    queue: Multiset<(usize, u64)>,
    low: int,
    position: u64,
)
    requires
        searching(g, start, dist, queue, low, Some(position)),
        !g.contains_key(position),
    ensures
        searching(g, start, dist, queue, low, None),
{
    assert forall|u: u64| dist.contains_key(u) && None::<u64> != Some(u) implies #[trigger] settled(
        g,
        dist,
        queue,
        u,
    ) by {
        if u == position {
            assert(relaxed(g, dist, u));
        }
    }
}

/// Follows each edge out of `position`, whose distance is `cost`, and gives
/// the distance `cost + 1` and a place in the queue to each node that has no
/// shorter distance yet.
fn relax(
    neighbors: &Vec<u64>,
    cost: usize,
    position: u64,
    dist: &mut HashMap<u64, usize>,
    heap: &mut FibonacciHeap<(usize, u64)>,
    Ghost(g): Ghost<Adjacency>,
    Ghost(start): Ghost<u64>,
)
    requires
        total_order::<(usize, u64)>(),
        old(heap).wf(),
        closed(g),
        g.contains_key(position),
        g[position] == neighbors@,
        old(dist)@.contains_key(position),
        old(dist)@[position] == cost,
        searching(g, start, old(dist)@, old(heap)@, cost as int, Some(position)),
    ensures
        final(heap).wf(),
        searching(g, start, final(dist)@, final(heap)@, cost as int, None),
        final(dist)@.len() - old(dist)@.len() == final(heap)@.len() - old(heap)@.len(),
        final(dist)@.len() >= old(dist)@.len(),
{
    let mut k: usize = 0;
    while k < neighbors.len()
        invariant
            total_order::<(usize, u64)>(),
            heap.wf(),
            closed(g),
            g.contains_key(position),
            g[position] == neighbors@,
            dist@.contains_key(position),
            dist@[position] == cost,
            k <= neighbors.len(),
            searching(g, start, dist@, heap@, cost as int, Some(position)),
            dist@.len() - old(dist)@.len() == heap@.len() - old(heap)@.len(),
            dist@.len() >= old(dist)@.len(),
            forall|i: int|
                0 <= i < k ==> dist@.contains_key(#[trigger] neighbors@[i]) && dist@[neighbors@[i]]
                    <= cost + 1,
        decreases neighbors.len() - k,
    {
        let neighbor = neighbors[k];
        let known = dist.len();
        proof {
            assert(neighbors@.contains(neighbors@[k as int]));
            assert(edge(g, position, neighbor));
            assert(dist@.contains_key(position));
            assert(cost < known);
        }
        let next = cost + 1;
        let better = match dist.get(&neighbor) {
            Some(d) => next < *d,
            None => true,
        };
        if better {
            proof {
                if dist@.contains_key(neighbor) {
                    assert(dist@[neighbor] <= cost + 1);
                }
                lemma_discovered(g, start, dist@, heap@, cost as int, position, neighbor);
            }
            heap.push((next, neighbor));
            dist.insert(neighbor, next);
        }
        k += 1;
    }
    proof {
        assert forall|u: u64| dist@.contains_key(u) && None::<u64> != Some(u) implies #[trigger] settled(
            g,
            dist@,
            heap@,
            u,
        ) by {
            if u == position {
                assert forall|v: u64| #[trigger] edge(g, u, v) implies dist@.contains_key(v)
                    && dist@[v] <= dist@[u] + 1 by {
                    let i = choose|i: int| 0 <= i < neighbors@.len() && neighbors@[i] == v;
                    assert(dist@.contains_key(neighbors@[i]));
                }
            }
        }
    }
}

impl DirectedGraph {
    /// The distances from `start` to the nodes that can be reached from it,
    /// an edge counting one.
    pub fn dijkstra(&self, start: u64) -> (dist: HashMap<u64, usize>)
        requires
            self.wf(),
        ensures
            shortest_distances(self@, start, dist@),
    {
        let mut dist: HashMap<u64, usize> = HashMap::new();
        let mut heap: FibonacciHeap<(usize, u64)> = FibonacciHeap::new();
        proof {
            lemma_pairs_total_order();
        }
        dist.insert(start, 0);
        heap.push((0, start));
        let ghost g = self@;
        let ghost universe = g.dom().insert(start);
        let ghost low: int = 0;
        proof {
            self.lemma_finite();
            assert(dist@.dom() =~= Set::<u64>::empty().insert(start));
            assert(dist@.len() == 1);
            assert(heap@ =~= Multiset::<(usize, u64)>::empty().insert((0usize, start)));
            assert forall|u: u64| dist@.contains_key(u) implies #[trigger] settled(
                g,
                dist@,
                heap@,
                u,
            ) by {
                assert(heap@.contains((dist@[u], u)));
            }
        }
        loop
            invariant
                total_order::<(usize, u64)>(),
                forall|a: (usize, u64), b: (usize, u64)|
                    #[trigger] le(a, b) <==> (a.0 < b.0 || (a.0 == b.0 && a.1 <= b.1)),
                heap.wf(),
                g == self@,
                closed(g),
                universe == g.dom().insert(start),
                universe.finite(),
                searching(g, start, dist@, heap@, low, None),
            decreases universe.len() - dist@.len() + heap@.len(),
        {
            proof {
                assert(dist@.dom().subset_of(universe));
                vstd::set_lib::lemma_len_subset(dist@.dom(), universe);
            }
            let ghost queue0 = heap@;
            let popped = heap.pop();
            match popped {
                None => {
                    proof {
                        assert forall|u: u64| dist@.contains_key(u) implies #[trigger] relaxed(
                            g,
                            dist@,
                            u,
                        ) by {
                            assert(settled(g, dist@, heap@, u));
                        }
                    }
                    return dist;
                },
                Some(entry) => {
                    let cost = entry.0;
                    let position = entry.1;
                    proof {
                        lemma_popped(g, start, dist@, queue0, low, entry);
                        low = cost as int;
                    }
                    let stale = match dist.get(&position) {
                        Some(d) => cost > *d,
                        None => false,
                    };
                    if !stale {
                        match self.neighbors(&position) {
                            Some(neighbors) => {
                                relax(
                                    neighbors,
                                    cost,
                                    position,
                                    &mut dist,
                                    &mut heap,
                                    Ghost(g),
                                    Ghost(start),
                                );
                            },
                            None => {
                                proof {
                                    lemma_no_edges(g, start, dist@, heap@, low, position);
                                }
                            },
                        }
                    } else {
                        proof {
                            assert(false);
                        }
                    }
                },
            }
        }
    }
}

} // verus!
