//! An undirected graph as a map from each node to the list of its
//! neighbours; an edge stands in the lists of both its ends.
use vstd::prelude::*;
use std::collections::HashMap;
use crate::graphs::{
    Adjacency, adjacency_of, edge, closed, with_node, with_link, out_edges, breadth_first_order,
    breadth_first,
};

verus! {

/// An undirected graph over nodes named by numbers.
#[derive(Debug, Clone)]
pub struct UndirectedGraph {
    nodes: HashMap<u64, Vec<u64>>,
}

impl View for UndirectedGraph {
    type V = Adjacency;

    /// The adjacency lists.
    closed spec fn view(&self) -> Adjacency {
        adjacency_of(self.nodes@)
    }
}

impl UndirectedGraph {
    /// The representation invariant: every edge leads to a node of the graph.
    pub open spec fn wf(&self) -> bool {
        closed(self@)
    }

    /// A graph without nodes.
    pub fn new() -> (graph: Self)
        ensures
            graph.wf(),
            graph@ == Map::<u64, Seq<u64>>::empty(),
    {
        let graph = UndirectedGraph { nodes: HashMap::new() };
        assert(graph@ =~= Map::<u64, Seq<u64>>::empty());
        graph
    }

    /// Makes `node` a node of the graph.
    pub fn add_node(&mut self, node: u64)
        requires
            old(self).wf(),
        ensures
            final(self).wf(),
            final(self)@ == with_node(old(self)@, node),
    {
        self.nodes.entry(node).or_insert(Vec::new());
        proof {
            assert(self@ =~= with_node(old(self)@, node));
            assert forall|u: u64, v: u64| #[trigger] edge(self@, u, v) implies self@.contains_key(
                v,
            ) by {
                assert(edge(old(self)@, u, v));
            }
        }
    }

    /// Adds an edge between `a` and `b`, and makes both nodes of the graph.
    pub fn add_edge(&mut self, a: u64, b: u64)
        requires
            old(self).wf(),
        ensures
            final(self).wf(),
            final(self)@ == with_link(old(self)@, a, b),
    {
        let ghost g0 = self@;
        self.nodes.entry(a).or_insert(Vec::new()).push(b);
        let ghost half = self@;
        proof {
            assert(half =~= g0.insert(a, out_edges(g0, a).push(b)));
        }
        self.nodes.entry(b).or_insert(Vec::new()).push(a);
        proof {
            assert(self@ =~= half.insert(b, out_edges(half, b).push(a)));
            assert forall|u: u64, v: u64| #[trigger] edge(self@, u, v) implies self@.contains_key(
                v,
            ) by {
                if v != a && v != b {
                    let i = choose|i: int| 0 <= i < self@[u].len() && self@[u][i] == v;
                    if u == b {
                        assert(half.contains_key(b));
                        assert(half[b][i] == v);
                    }
                    assert(edge(half, u, v));
                    let j = choose|j: int| 0 <= j < half[u].len() && half[u][j] == v;
                    if u == a {
                        assert(g0.contains_key(a));
                        assert(g0[a][j] == v);
                    }
                    assert(edge(g0, u, v));
                }
            }
        }
    }

    /// Whether `node` is a node of the graph.
    pub fn contains(&self, node: &u64) -> (r: bool)
        ensures
            r == self@.contains_key(*node),
    {
        self.nodes.contains_key(node)
    }

    /// The neighbours of `node`, or `None` where `node` is no node of the
    /// graph.
    pub fn neighbors(&self, node: &u64) -> (r: Option<&Vec<u64>>)
        ensures
            r is Some == self@.contains_key(*node),
            r is Some ==> r.unwrap()@ == self@[*node],
    {
        self.nodes.get(node)
    }

    /// The nodes that can be reached from `start`, in the order in which a
    /// breadth-first search finds them.
    pub fn bfs(&self, start: u64) -> (r: Vec<u64>)
        requires
            self.wf(),
        ensures
            breadth_first_order(self@, start, r@),
    {
        breadth_first(&self.nodes, start)
    }
}

} // verus!
