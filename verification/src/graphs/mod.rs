//! Graphs over nodes named by numbers, kept as adjacency lists, and searches
//! through them.
use vstd::prelude::*;
use std::collections::HashMap;
use std::collections::VecDeque;

pub mod directed_graph;
pub mod undirected_graph;
pub mod algorithms;

verus! {

/// The adjacency lists of a graph: for each node the nodes that its edges
/// lead to, in the order in which the edges were added.
pub type Adjacency = Map<u64, Seq<u64>>;

/// The adjacency lists that a map from nodes to vectors of nodes holds.
pub open spec fn adjacency_of(nodes: Map<u64, Vec<u64>>) -> Adjacency {
    nodes.map_values(|v: Vec<u64>| v@)
}

/// `g` has an edge from `u` to `v`.
pub open spec fn edge(g: Adjacency, u: u64, v: u64) -> bool {
    g.contains_key(u) && g[u].contains(v)
}

/// Every edge of `g` leads to a node of `g`.
pub open spec fn closed(g: Adjacency) -> bool {
    forall|u: u64, v: u64| #[trigger] edge(g, u, v) ==> g.contains_key(v)
}

/// The edges out of `u`, or none where `u` is no node of `g`.
pub open spec fn out_edges(g: Adjacency, u: u64) -> Seq<u64> {
    if g.contains_key(u) {
        g[u]
    } else {
        Seq::empty()
    }
}

/// `g` with the node `u`, which gets no edges where it is new.
pub open spec fn with_node(g: Adjacency, u: u64) -> Adjacency {
    if g.contains_key(u) {
        g
    } else {
        g.insert(u, Seq::empty())
    }
}

/// `g` with one more edge from `u` to `v`, and with both as nodes.
pub open spec fn with_edge(g: Adjacency, u: u64, v: u64) -> Adjacency {
    with_node(g.insert(u, out_edges(g, u).push(v)), v)
}

/// `g` with one more edge between `a` and `b`, which each list of the two
/// gets, and with both as nodes.
pub open spec fn with_link(g: Adjacency, a: u64, b: u64) -> Adjacency {
    let half = g.insert(a, out_edges(g, a).push(b));
    half.insert(b, out_edges(half, b).push(a))
}

/// Some node before position `j` of `order` has an edge to the node at `j`.
pub open spec fn reached_from_earlier(g: Adjacency, order: Seq<u64>, j: int) -> bool {
    exists|i: int| 0 <= i < j && edge(g, order[i], order[j])
}

/// `order` is the order of a search of `g` from `start`: it begins with
/// `start`, names no node twice, reaches every later node by an edge from an
/// earlier one, and holds every node that an edge from one of its nodes
/// leads to.
pub open spec fn search_order(g: Adjacency, start: u64, order: Seq<u64>) -> bool {
    &&& order.len() > 0
    &&& order[0] == start
    &&& order.no_duplicates()
    &&& forall|j: int| 0 < j < order.len() ==> #[trigger] reached_from_earlier(g, order, j)
    &&& forall|i: int, v: u64|
        0 <= i < order.len() && #[trigger] edge(g, order[i], v) ==> order.contains(v)
}

/// One of the nodes up to position `i` of `order` has an edge to the node at
/// `j`.
pub open spec fn reached_within(g: Adjacency, order: Seq<u64>, j: int, i: int) -> bool {
    exists|a: int| 0 <= a <= i && edge(g, order[a], order[j])
}

/// Breadth first: the nodes stand in the order of the nodes from which an
/// edge first led to them. Where the node at `i` has an edge to a node, an
/// edge from a node up to `i` leads to each node that stands before that one.
pub open spec fn level_order(g: Adjacency, order: Seq<u64>) -> bool {
    forall|i: int, j: int, k: int|
        #![trigger edge(g, order[i], order[k]), reached_within(g, order, j, i)]
        0 <= i < order.len() && 0 < j < k < order.len() && edge(g, order[i], order[k])
            ==> reached_within(g, order, j, i)
}

/// The node at `i` is the first node of `order` with an edge to the node at
/// `j`.
pub open spec fn first_reached_from(g: Adjacency, order: Seq<u64>, i: int, j: int) -> bool {
    edge(g, order[i], order[j]) && !reached_within(g, order, j, i - 1)
}

/// `v` stands in `list` before position `p`.
pub open spec fn occurs_before(list: Seq<u64>, v: u64, p: int) -> bool {
    exists|a: int| 0 <= a < p && list[a] == v
}

/// Nodes that were first reached from the same node stand in the order in
/// which the edges out of that node lead to them.
pub open spec fn sibling_order(g: Adjacency, order: Seq<u64>) -> bool {
    forall|i: int, j: int, k: int, p: int|
        #![trigger first_reached_from(g, order, i, j), first_reached_from(g, order, i, k), g[order[i]][p]]
        0 <= i < order.len() && 0 < j < k < order.len() && first_reached_from(g, order, i, j)
            && first_reached_from(g, order, i, k) && 0 <= p < g[order[i]].len() && g[order[i]][p]
            == order[k] ==> occurs_before(g[order[i]], order[j], p)
}

/// `order` is the order in which a breadth-first search of `g` from `start`
/// finds the nodes.
pub open spec fn breadth_first_order(g: Adjacency, start: u64, order: Seq<u64>) -> bool {
    search_order(g, start, order) && level_order(g, order) && sibling_order(g, order)
}

/// Among the nodes up to position `a` that have an edge to the node at `j`
/// there is a first one.
pub proof fn lemma_first_source(g: Adjacency, order: Seq<u64>, j: int, a: int) -> (i: int)
    requires
        0 <= a < j < order.len(),
        edge(g, order[a], order[j]),
    ensures
        0 <= i <= a,
        first_reached_from(g, order, i, j),
    decreases a,
{
    if reached_within(g, order, j, a - 1) {
        let b = choose|b: int| 0 <= b <= a - 1 && edge(g, order[b], order[j]);
        lemma_first_source(g, order, j, b)
    } else {
        a
    }
}

/// Among the positions up to `p` at which `v` stands in `list` there is a
/// first one.
pub proof fn lemma_first_occurrence(list: Seq<u64>, v: u64, p: int) -> (q: int)
    requires
        0 <= p < list.len(),
        list[p] == v,
    ensures
        0 <= q <= p,
        list[q] == v,
        !occurs_before(list, v, q),
    decreases p,
{
    if occurs_before(list, v, p) {
        let a = choose|a: int| 0 <= a < p && list[a] == v;
        lemma_first_occurrence(list, v, a)
    } else {
        p
    }
}

/// Two breadth-first orders that agree up to position `j` agree at `j`.
pub proof fn lemma_order_step(g: Adjacency, start: u64, a: Seq<u64>, b: Seq<u64>, j: int)
    requires
        breadth_first_order(g, start, a),
        breadth_first_order(g, start, b),
        1 <= j < a.len(),
        j <= b.len(),
        forall|x: int| 0 <= x < j ==> a[x] == b[x],
    ensures
        j < b.len(),
        b[j] == a[j],
{
    let v = a[j];
    assert(reached_from_earlier(g, a, j));
    let a0 = choose|i: int| 0 <= i < j && edge(g, a[i], a[j]);
    let i = lemma_first_source(g, a, j, a0);
    // `v` stands in `b`, behind the part in which the two orders agree
    assert(edge(g, b[i], v));
    assert(b.contains(v));
    let k = choose|k: int| 0 <= k < b.len() && b[k] == v;
    if k < j {
        assert(a[k] == v);
    }
    assert(first_reached_from(g, b, i, k)) by {
        if reached_within(g, b, k, i - 1) {
            let x = choose|x: int| 0 <= x <= i - 1 && edge(g, b[x], b[k]);
            assert(edge(g, a[x], a[j]));
            assert(reached_within(g, a, j, i - 1));
        }
    }
    if k > j {
        let w = b[j];
        assert(reached_from_earlier(g, b, j));
        let b0 = choose|x: int| 0 <= x < j && edge(g, b[x], b[j]);
        let i2 = lemma_first_source(g, b, j, b0);
        assert(edge(g, a[i2], w));
        assert(a.contains(w));
        let l = choose|l: int| 0 <= l < a.len() && a[l] == w;
        if l < j {
            assert(b[l] == w);
        }
        assert(l > j);
        assert(first_reached_from(g, a, i2, l)) by {
            if reached_within(g, a, l, i2 - 1) {
                let x = choose|x: int| 0 <= x <= i2 - 1 && edge(g, a[x], a[l]);
                assert(edge(g, b[x], b[j]));
                assert(reached_within(g, b, j, i2 - 1));
            }
        }
        // in `b` the node `w` stands before `v`, in `a` behind it
        assert(reached_within(g, b, j, i)) by {
            assert(edge(g, b[i], b[k]));
        }
        assert(reached_within(g, a, j, i2)) by {
            assert(edge(g, a[i2], a[l]));
        }
        assert(i2 <= i) by {
            if i2 > i {
                let x = choose|x: int| 0 <= x <= i && edge(g, b[x], b[j]);
                assert(0 <= x <= i2 - 1 && edge(g, b[x], b[j]));
                assert(reached_within(g, b, j, i2 - 1));
            }
        }
        assert(i <= i2) by {
            if i > i2 {
                let x = choose|x: int| 0 <= x <= i2 && edge(g, a[x], a[j]);
                assert(0 <= x <= i - 1 && edge(g, a[x], a[j]));
                assert(reached_within(g, a, j, i - 1));
            }
        }
        let list = g[a[i]];
        assert(list.contains(v));
        let p0 = choose|p: int| 0 <= p < list.len() && list[p] == v;
        let p = lemma_first_occurrence(list, v, p0);
        assert(g[b[i]][p] == b[k]);
        assert(occurs_before(g[b[i]], b[j], p));
        let q = choose|q: int| 0 <= q < p && list[q] == w;
        assert(g[a[i]][q] == a[l]);
        assert(occurs_before(g[a[i]], a[j], q));
        let q2 = choose|q2: int| 0 <= q2 < q && list[q2] == v;
        assert(0 <= q2 < p && list[q2] == v);
    }
}

/// Two breadth-first orders agree as far as the first of them goes.
pub proof fn lemma_order_prefix(g: Adjacency, start: u64, a: Seq<u64>, b: Seq<u64>, j: int)
    requires
        breadth_first_order(g, start, a),
        breadth_first_order(g, start, b),
        0 <= j <= a.len(),
    ensures
        j <= b.len(),
        forall|x: int| 0 <= x < j ==> a[x] == b[x],
    decreases j,
{
    if j > 1 {
        lemma_order_prefix(g, start, a, b, j - 1);
        lemma_order_step(g, start, a, b, j - 1);
    }
}

/// A graph has one breadth-first order from each start.
pub proof fn lemma_order_unique(g: Adjacency, start: u64, a: Seq<u64>, b: Seq<u64>)
    requires
        breadth_first_order(g, start, a),
        breadth_first_order(g, start, b),
    ensures
        a == b,
{
    lemma_order_prefix(g, start, a, b, a.len() as int);
    lemma_order_prefix(g, start, b, a, b.len() as int);
    assert(a =~= b);
}

/// `path` leads along edges of `g`.
pub open spec fn walk(g: Adjacency, path: Seq<u64>) -> bool {
    &&& path.len() > 0
    &&& forall|i: int| 0 <= i < path.len() - 1 ==> edge(g, #[trigger] path[i], path[i + 1])
}

/// A walk along edges of `g` leads from `start` to `v`.
pub open spec fn reaches(g: Adjacency, start: u64, v: u64) -> bool {
    exists|path: Seq<u64>| walk(g, path) && path[0] == start && path.last() == v
}

/// To each node of a search order a walk from the start leads.
pub proof fn lemma_order_is_walked(g: Adjacency, start: u64, order: Seq<u64>, j: int) -> (path:
    Seq<u64>)
    requires
        search_order(g, start, order),
        0 <= j < order.len(),
    ensures
        walk(g, path),
        path[0] == start,
        path.last() == order[j],
    decreases j,
{
    if j == 0 {
        seq![start]
    } else {
        assert(reached_from_earlier(g, order, j));
        let i = choose|i: int| 0 <= i < j && edge(g, order[i], order[j]);
        let front = lemma_order_is_walked(g, start, order, i);
        let path = front.push(order[j]);
        assert forall|k: int| 0 <= k < path.len() - 1 implies edge(
            g,
            #[trigger] path[k],
            path[k + 1],
        ) by {
            if k < front.len() - 1 {
                assert(edge(g, front[k], front[k + 1]));
            }
        }
        path
    }
}

/// Every node that a walk from the start leads to is in the search order.
pub proof fn lemma_walk_is_found(g: Adjacency, start: u64, order: Seq<u64>, path: Seq<u64>)
    requires
        search_order(g, start, order),
        walk(g, path),
        path[0] == start,
    ensures
        order.contains(path.last()),
    decreases path.len(),
{
    if path.len() == 1 {
        assert(order[0] == start);
    } else {
        let front = path.drop_last();
        assert forall|k: int| 0 <= k < front.len() - 1 implies edge(
            g,
            #[trigger] front[k],
            front[k + 1],
        ) by {
            assert(edge(g, path[k], path[k + 1]));
        }
        lemma_walk_is_found(g, start, order, front);
        let i = choose|i: int| 0 <= i < order.len() && order[i] == front.last();
        assert(front.last() == path[path.len() - 2]);
        assert(edge(g, path[path.len() - 2], path[path.len() - 1]));
        assert(edge(g, order[i], path.last()));
    }
}

/// A search order holds exactly the nodes that can be reached from the
/// start.
pub proof fn lemma_search_reaches(g: Adjacency, start: u64, order: Seq<u64>)
    requires
        search_order(g, start, order),
    ensures
        forall|v: u64| order.contains(v) <==> reaches(g, start, v),
{
    assert forall|v: u64| order.contains(v) <==> reaches(g, start, v) by {
        if order.contains(v) {
            let j = choose|j: int| 0 <= j < order.len() && order[j] == v;
            let path = lemma_order_is_walked(g, start, order, j);
            assert(walk(g, path) && path[0] == start && path.last() == v);
        }
        if reaches(g, start, v) {
            let path = choose|path: Seq<u64>| walk(g, path) && path[0] == start && path.last() == v;
            lemma_walk_is_found(g, start, order, path);
        }
    }
}

/// What holds of the nodes found so far in a search of `g` from `start`, in
/// the order in which they were found: `seen` begins with `start`, names no
/// node twice, and reaches every later node by an edge from an earlier one.
spec fn found_order(g: Adjacency, start: u64, seen: Seq<u64>) -> bool {
    &&& seen.len() > 0
    &&& seen[0] == start
    &&& seen.no_duplicates()
    &&& forall|j: int| 0 < j < seen.len() ==> #[trigger] reached_from_earlier(g, seen, j)
}

/// Every node that an edge from one of the first `n` nodes of `seen` leads to
/// is in `seen`.
spec fn explored(g: Adjacency, seen: Seq<u64>, n: int) -> bool {
    forall|i: int, v: u64| 0 <= i < n && #[trigger] edge(g, seen[i], v) ==> seen.contains(v)
}

/// A node that an edge from a found node leads to may be added to the nodes
/// found.
proof fn lemma_found_more(g: Adjacency, start: u64, seen: Seq<u64>, n: int, p: int, v: u64)
    requires
        found_order(g, start, seen),
        0 <= n <= seen.len(),
        explored(g, seen, n),
        0 <= p < seen.len(),
        edge(g, seen[p], v),
        !seen.contains(v),
    ensures
        found_order(g, start, seen.push(v)),
        explored(g, seen.push(v), n),
        forall|x: u64| seen.push(v).contains(x) <==> seen.contains(x) || x == v,
{
    let more = seen.push(v);
    assert forall|x: u64| more.contains(x) <==> seen.contains(x) || x == v by {
        if seen.contains(x) {
            let i = choose|i: int| 0 <= i < seen.len() && seen[i] == x;
            assert(more[i] == x);
        }
        if more.contains(x) && x != v {
            let i = choose|i: int| 0 <= i < more.len() && more[i] == x;
            assert(seen[i] == x);
        }
        assert(more[seen.len() as int] == v);
    }
    assert forall|j: int| 0 < j < more.len() implies #[trigger] reached_from_earlier(
        g,
        more,
        j,
    ) by {
        if j < seen.len() {
            assert(reached_from_earlier(g, seen, j));
            let i = choose|i: int| 0 <= i < j && edge(g, seen[i], seen[j]);
            assert(more[i] == seen[i]);
            assert(more[j] == seen[j]);
            assert(edge(g, more[i], more[j]));
        } else {
            assert(more[p] == seen[p]);
            assert(edge(g, more[p], more[j]));
        }
    }
    assert forall|i: int, x: u64| 0 <= i < n && #[trigger] edge(g, more[i], x) implies more.contains(
        x,
    ) by {
        assert(more[i] == seen[i]);
        assert(seen.contains(x));
    }
}

/// A node found from the node at position `n`, the first that is not
/// explored, keeps the nodes found in breadth-first order.
proof fn lemma_level_more(g: Adjacency, seen: Seq<u64>, n: int, v: u64)
    requires
        0 <= n < seen.len(),
        explored(g, seen, n),
        level_order(g, seen),
        forall|j: int| 0 < j < seen.len() ==> #[trigger] reached_within(g, seen, j, n),
        edge(g, seen[n], v),
        !seen.contains(v),
    ensures
        level_order(g, seen.push(v)),
        forall|j: int| 0 < j < seen.len() + 1 ==> #[trigger] reached_within(g, seen.push(v), j, n),
{
    let more = seen.push(v);
    let last = seen.len() as int;
    assert forall|j: int| 0 < j < more.len() implies #[trigger] reached_within(g, more, j, n) by {
        if j < last {
            assert(reached_within(g, seen, j, n));
            let a = choose|a: int| 0 <= a <= n && edge(g, seen[a], seen[j]);
            assert(edge(g, more[a], more[j]));
        } else {
            assert(edge(g, more[n], more[j]));
        }
    }
    assert forall|i: int, j: int, k: int|
        #![trigger edge(g, more[i], more[k]), reached_within(g, more, j, i)]
        0 <= i < more.len() && 0 < j < k < more.len() && edge(g, more[i], more[k]) implies reached_within(
        g,
        more,
        j,
        i,
    ) by {
        if i < last && k < last {
            assert(edge(g, seen[i], seen[k]));
            assert(reached_within(g, seen, j, i));
            let a = choose|a: int| 0 <= a <= i && edge(g, seen[a], seen[j]);
            assert(edge(g, more[a], more[j]));
        } else {
            if i < n {
                assert(edge(g, seen[i], v));
                assert(seen.contains(v));
            }
            assert(reached_within(g, more, j, n));
            let a = choose|a: int| 0 <= a <= n && edge(g, more[a], more[j]);
            assert(0 <= a <= i && edge(g, more[a], more[j]));
        }
    }
}

/// A node found from the node at position `n` by the edge at position `k`
/// keeps the nodes in the order of the edges by which they were found.
proof fn lemma_sibling_more(
    g: Adjacency,
    seen: Seq<u64>,
    n: int,
    first_new: int,
    list: Seq<u64>,
    k: int,
    v: u64,
)
    requires
        0 <= n < first_new <= seen.len(),
        explored(g, seen, n),
        sibling_order(g, seen),
        g.contains_key(seen[n]),
        g[seen[n]] == list,
        0 <= k < list.len(),
        list[k] == v,
        !seen.contains(v),
        forall|i: int| 0 <= i < k ==> seen.contains(#[trigger] list[i]),
        forall|j: int| 0 < j < seen.len() ==> #[trigger] reached_within(g, seen, j, n),
        forall|j: int| 0 < j < first_new ==> #[trigger] reached_within(g, seen, j, n - 1),
        forall|j: int| first_new <= j < seen.len() ==> occurs_before(list, #[trigger] seen[j], k),
    ensures
        sibling_order(g, seen.push(v)),
        forall|j: int| 0 < j < first_new ==> #[trigger] reached_within(g, seen.push(v), j, n - 1),
        forall|j: int|
            first_new <= j < seen.len() + 1 ==> occurs_before(
                list,
                #[trigger] seen.push(v)[j],
                k + 1,
            ),
        forall|i: int| 0 <= i < k + 1 ==> seen.push(v).contains(#[trigger] list[i]),
{
    let more = seen.push(v);
    let last = seen.len() as int;
    assert(list.contains(list[k]));
    assert(edge(g, seen[n], v));
    assert forall|j: int, b: int|
        0 < j < last && reached_within(g, seen, j, b) implies reached_within(g, more, j, b) by {
        let a = choose|a: int| 0 <= a <= b && edge(g, seen[a], seen[j]);
        if a < last {
            assert(edge(g, more[a], more[j]));
        } else {
            assert(reached_within(g, seen, j, n));
            let c = choose|c: int| 0 <= c <= n && edge(g, seen[c], seen[j]);
            assert(0 <= c <= b && edge(g, more[c], more[j]));
        }
    }
    assert forall|j: int| 0 < j < first_new implies #[trigger] reached_within(g, more, j, n - 1) by {
        assert(reached_within(g, seen, j, n - 1));
    }
    assert forall|j: int| first_new <= j < last + 1 implies occurs_before(
        list,
        #[trigger] more[j],
        k + 1,
    ) by {
        if j < last {
            assert(occurs_before(list, seen[j], k));
            let a = choose|a: int| 0 <= a < k && list[a] == seen[j];
            assert(0 <= a < k + 1 && list[a] == more[j]);
        } else {
            assert(0 <= k < k + 1 && list[k] == more[j]);
        }
    }
    assert forall|i: int| 0 <= i < k + 1 implies more.contains(#[trigger] list[i]) by {
        if i < k {
            assert(seen.contains(list[i]));
            let a = choose|a: int| 0 <= a < seen.len() && seen[a] == list[i];
            assert(more[a] == list[i]);
        } else {
            assert(more[last] == list[i]);
        }
    }
    assert forall|i: int, j: int, k2: int, p: int|
        #![trigger first_reached_from(g, more, i, j), first_reached_from(g, more, i, k2), g[more[i]][p]]
        0 <= i < more.len() && 0 < j < k2 < more.len() && first_reached_from(g, more, i, j)
            && first_reached_from(g, more, i, k2) && 0 <= p < g[more[i]].len() && g[more[i]][p]
            == more[k2] implies occurs_before(g[more[i]], more[j], p) by {
        assert(reached_within(g, seen, j, n));
        assert(reached_within(g, more, j, n));
        if i == last {
            let a = choose|a: int| 0 <= a <= n && edge(g, more[a], more[j]);
            assert(0 <= a <= i - 1 && edge(g, more[a], more[j]));
            assert(reached_within(g, more, j, i - 1));
        } else if k2 < last {
            assert(edge(g, seen[i], seen[j]));
            assert(edge(g, seen[i], seen[k2]));
            if reached_within(g, seen, j, i - 1) {
                assert(reached_within(g, more, j, i - 1));
            }
            if reached_within(g, seen, k2, i - 1) {
                assert(reached_within(g, more, k2, i - 1));
            }
            assert(first_reached_from(g, seen, i, j));
            assert(first_reached_from(g, seen, i, k2));
            assert(g[seen[i]][p] == seen[k2]);
            assert(occurs_before(g[seen[i]], seen[j], p));
        } else {
            if i > n {
                assert(0 <= n <= i - 1 && edge(g, more[n], more[k2]));
                assert(reached_within(g, more, k2, i - 1));
            }
            if i < n {
                assert(edge(g, seen[i], v));
                assert(seen.contains(v));
            }
            assert(i == n);
            if j < first_new {
                assert(reached_within(g, more, j, n - 1));
            }
            assert(occurs_before(list, seen[j], k));
            let a = choose|a: int| 0 <= a < k && list[a] == seen[j];
            if p < k {
                assert(seen.contains(list[p]));
            }
            assert(0 <= a < p && list[a] == more[j]);
        }
    }
}

/// Once the edges out of the node at position `n` have all been followed, the
/// first `n + 1` nodes are explored.
proof fn lemma_explored_more(g: Adjacency, seen: Seq<u64>, n: int)
    requires
        0 <= n < seen.len(),
        explored(g, seen, n),
        forall|v: u64| #[trigger] edge(g, seen[n], v) ==> seen.contains(v),
    ensures
        explored(g, seen, n + 1),
{
}

/// A search that has explored every node it found has the order of a search.
proof fn lemma_search_done(g: Adjacency, start: u64, seen: Seq<u64>)
    requires
        found_order(g, start, seen),
        explored(g, seen, seen.len() as int),
    ensures
        search_order(g, start, seen),
{
}

/// A list of distinct nodes, all of a finite set, is no longer than the set is
/// large.
proof fn lemma_distinct_within(order: Seq<u64>, universe: Set<u64>)
    requires
        order.no_duplicates(),
        universe.finite(),
        forall|i: int| 0 <= i < order.len() ==> universe.contains(#[trigger] order[i]),
    ensures
        order.len() <= universe.len(),
{
    order.unique_seq_to_set();
    assert(order.to_set().subset_of(universe)) by {
        assert forall|x: u64| order.to_set().contains(x) implies universe.contains(x) by {
            let i = choose|i: int| 0 <= i < order.len() && order[i] == x;
        }
    }
    vstd::set_lib::lemma_len_subset(order.to_set(), universe);
}

/// The state of a search of `g` from `start`: `seen` holds the nodes found so
/// far in the order in which they were found, the first `n` of them are
/// explored, and `visited` holds exactly the nodes found.
spec fn search_state(
    g: Adjacency,
    start: u64,
    seen: Seq<u64>,
    n: int,
    visited: Map<u64, bool>,
) -> bool {
    &&& found_order(g, start, seen)
    &&& 0 <= n <= seen.len()
    &&& explored(g, seen, n)
    &&& forall|v: u64| visited.contains_key(v) <==> seen.contains(v)
    &&& forall|i: int| 0 <= i < seen.len() ==> (#[trigger] seen[i]) == start || g.contains_key(seen[i])
    &&& level_order(g, seen)
    &&& sibling_order(g, seen)
    &&& forall|j: int| 0 < j < seen.len() ==> #[trigger] reached_within(g, seen, j, n - 1)
}

/// The state of a search while the edges out of the node at position `n` are
/// followed, of which `k` have been: the nodes from position `first_new` on
/// have been found from that node, the nodes before it from nodes before it.
spec fn discovering(
    g: Adjacency,
    start: u64,
    seen: Seq<u64>,
    n: int,
    visited: Map<u64, bool>,
    first_new: int,
    list: Seq<u64>,
    k: int,
) -> bool {
    &&& found_order(g, start, seen)
    &&& 0 <= n < first_new <= seen.len()
    &&& explored(g, seen, n)
    &&& forall|v: u64| visited.contains_key(v) <==> seen.contains(v)
    &&& forall|i: int| 0 <= i < seen.len() ==> (#[trigger] seen[i]) == start || g.contains_key(seen[i])
    &&& level_order(g, seen)
    &&& sibling_order(g, seen)
    &&& forall|j: int| 0 < j < seen.len() ==> #[trigger] reached_within(g, seen, j, n)
    &&& forall|j: int| 0 < j < first_new ==> #[trigger] reached_within(g, seen, j, n - 1)
    &&& forall|j: int| first_new <= j < seen.len() ==> occurs_before(list, #[trigger] seen[j], k)
    &&& forall|i: int| 0 <= i < k ==> seen.contains(#[trigger] list[i])
}

/// Follows the edges out of `node`, the last of the nodes `done`, and queues
/// each node that they lead to and that was not found before.
fn discover(
    neighbors: &Vec<u64>,
    node: u64,
    visited: &mut HashMap<u64, bool>,
    queue: &mut VecDeque<u64>,
    Ghost(g): Ghost<Adjacency>,
    Ghost(start): Ghost<u64>,
    Ghost(done): Ghost<Seq<u64>>,
)
    requires
        closed(g),
        done.len() > 0,
        done.last() == node,
        g.contains_key(node),
        g[node] == neighbors@,
        search_state(g, start, done + old(queue)@, done.len() - 1, old(visited)@),
    ensures
        search_state(g, start, done + final(queue)@, done.len() as int, final(visited)@),
{
    let ghost n = done.len() - 1;
    let ghost seen = done + queue@;
    let ghost first_new = seen.len() as int;
    let mut k: usize = 0;
    proof {
        lemma_level_on(g, seen, n - 1, n);
    }
    while k < neighbors.len()
        invariant
            closed(g),
            g.contains_key(node),
            g[node] == neighbors@,
            k <= neighbors.len(),
            n == done.len() - 1,
            0 <= n < done.len(),
            done[n] == node,
            seen == done + queue@,
            discovering(g, start, seen, n, visited@, first_new, neighbors@, k as int),
        decreases neighbors.len() - k,
    {
        let neighbor = neighbors[k];
        let ghost seen1 = seen;
        let ghost visited1 = visited@;
        proof {
            assert(neighbors@.contains(neighbors@[k as int]));
            assert(seen1[n] == node);
            assert(edge(g, seen1[n], neighbor));
            assert(visited1.contains_key(neighbor) <==> seen1.contains(neighbor));
        }
        if !visited.contains_key(&neighbor) {
            queue.push_back(neighbor);
            visited.insert(neighbor, true);
            proof {
                lemma_found_more(g, start, seen1, n, n, neighbor);
                lemma_level_more(g, seen1, n, neighbor);
                lemma_sibling_more(g, seen1, n, first_new, neighbors@, k as int, neighbor);
                seen = seen1.push(neighbor);
                assert(seen =~= done + queue@);
                assert forall|v: u64| visited@.contains_key(v) <==> seen.contains(v) by {
                    assert(visited1.contains_key(v) <==> seen1.contains(v));
                    assert(seen.contains(v) <==> seen1.contains(v) || v == neighbor);
                }
                assert forall|i: int| 0 <= i < seen.len() implies (#[trigger] seen[i]) == start
                    || g.contains_key(seen[i]) by {
                    if i < seen1.len() {
                        assert(seen[i] == seen1[i]);
                    }
                }
            }
        } else {
            proof {
                assert(seen1.contains(neighbor));
                assert forall|j: int| first_new <= j < seen.len() implies occurs_before(
                    neighbors@,
                    #[trigger] seen[j],
                    k + 1,
                ) by {
                    assert(occurs_before(neighbors@, seen[j], k as int));
                    let a = choose|a: int| 0 <= a < k && neighbors@[a] == seen[j];
                    assert(0 <= a < k + 1 && neighbors@[a] == seen[j]);
                }
            }
        }
        k += 1;
    }
    proof {
        assert forall|v: u64| #[trigger] edge(g, seen[n], v) implies seen.contains(v) by {
            let idx = choose|idx: int| 0 <= idx < neighbors@.len() && neighbors@[idx] == v;
            assert(seen.contains(neighbors@[idx]));
        }
        lemma_explored_more(g, seen, n);
    }
}

/// Nodes that were reached from the nodes up to a position were reached from
/// the nodes up to any later position.
proof fn lemma_level_on(g: Adjacency, seen: Seq<u64>, from: int, to: int)
    requires
        from <= to,
        forall|j: int| 0 < j < seen.len() ==> #[trigger] reached_within(g, seen, j, from),
    ensures
        forall|j: int| 0 < j < seen.len() ==> #[trigger] reached_within(g, seen, j, to),
{
    assert forall|j: int| 0 < j < seen.len() implies #[trigger] reached_within(g, seen, j, to) by {
        assert(reached_within(g, seen, j, from));
        let a = choose|a: int| 0 <= a <= from && edge(g, seen[a], seen[j]);
        assert(0 <= a <= to && edge(g, seen[a], seen[j]));
    }
}

/// The breadth-first search of the graph `nodes` from `start`.
pub(crate) fn breadth_first(nodes: &HashMap<u64, Vec<u64>>, start: u64) -> (r: Vec<u64>)
    requires
        closed(adjacency_of(nodes@)),
    ensures
        breadth_first_order(adjacency_of(nodes@), start, r@),
{
    let mut visited: HashMap<u64, bool> = HashMap::new();
    let mut queue: VecDeque<u64> = VecDeque::new();
    let mut result: Vec<u64> = Vec::new();
    queue.push_back(start);
    visited.insert(start, true);
    let ghost g = adjacency_of(nodes@);
    let ghost universe = g.dom().insert(start);
    proof {
        assert(g.dom() =~= nodes@.dom());
        let seen = result@ + queue@;
        assert(seen =~= seq![start]);
        assert forall|v: u64| visited@.contains_key(v) <==> seen.contains(v) by {
            assert(seen[0] == start);
        }
    }
    while queue.len() > 0
        invariant
            g == adjacency_of(nodes@),
            closed(g),
            universe == g.dom().insert(start),
            universe.finite(),
            search_state(g, start, result@ + queue@, result@.len() as int, visited@),
        decreases universe.len() - result@.len(),
    {
        let ghost seen = result@ + queue@;
        let ghost m = result@.len() as int;
        proof {
            lemma_distinct_within(seen, universe);
        }
        let node = queue.pop_front().unwrap();
        result.push(node);
        proof {
            assert(seen =~= result@ + queue@);
        }
        match nodes.get(&node) {
            Some(neighbors) => {
                discover(neighbors, node, &mut visited, &mut queue, Ghost(g), Ghost(start), Ghost(result@));
            },
            None => {
                proof {
                    lemma_explored_more(g, seen, m);
                    lemma_level_on(g, seen, m - 1, m);
                }
            },
        }
    }
    proof {
        assert((result@ + queue@) =~= result@);
        lemma_search_done(g, start, result@);
    }
    result
}

} // verus!
