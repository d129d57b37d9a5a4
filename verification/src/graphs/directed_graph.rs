//! A directed graph as a map from each node to the list of the nodes that its
//! edges lead to.
use vstd::prelude::*;
use std::collections::HashMap;
use crate::graphs::{
    Adjacency, adjacency_of, edge, closed, with_node, with_edge, out_edges, breadth_first_order,
    breadth_first,
};

verus! {

/// A directed graph over nodes named by numbers.
#[derive(Debug, Clone)]
pub struct DirectedGraph {
    nodes: HashMap<u64, Vec<u64>>,
}

impl View for DirectedGraph {
    type V = Adjacency;

    /// The adjacency lists.
    closed spec fn view(&self) -> Adjacency {
        adjacency_of(self.nodes@)
    }
}

impl DirectedGraph {
    /// The representation invariant: every edge leads to a node of the graph.
    pub open spec fn wf(&self) -> bool {
        closed(self@)
    }

    /// A graph has finitely many nodes.
    pub proof fn lemma_finite(&self)
        ensures
            self@.dom().finite(),
    {
        assert(self@.dom() =~= self.nodes@.dom());
    }

    /// A graph without nodes.
    pub fn new() -> (graph: Self)
        ensures
            graph.wf(),
            graph@ == Map::<u64, Seq<u64>>::empty(),
    {
        let graph = DirectedGraph { nodes: HashMap::new() };
        assert(graph@ =~= Map::<u64, Seq<u64>>::empty());
        graph
    }

    /// Makes `node` a node of the graph.
    pub fn add_node(&mut self, node: u64)
        requires
            old(self).wf(),
        ensures
            final(self).wf(),
            final(self)@ == with_node(old(self)@, node),
    {
        self.nodes.entry(node).or_insert(Vec::new());
        proof {
            assert(self@ =~= with_node(old(self)@, node));
            assert forall|u: u64, v: u64| #[trigger] edge(self@, u, v) implies self@.contains_key(
                v,
            ) by {
                assert(edge(old(self)@, u, v));
            }
        }
    }

    /// Adds an edge from `from` to `to`, and makes both nodes of the graph.
    pub fn add_edge(&mut self, from: u64, to: u64)
        requires
            old(self).wf(),
        ensures
            final(self).wf(),
            final(self)@ == with_edge(old(self)@, from, to),
    {
        self.nodes.entry(from).or_insert(Vec::new()).push(to);
        let ghost mid = self@;
        proof {
            assert(mid =~= old(self)@.insert(from, out_edges(old(self)@, from).push(to)));
        }
        self.nodes.entry(to).or_insert(Vec::new());
        proof {
            assert(self@ =~= with_edge(old(self)@, from, to));
            assert forall|u: u64, v: u64| #[trigger] edge(self@, u, v) implies self@.contains_key(
                v,
            ) by {
                if v != to && v != from {
                    assert(self@[u].contains(v));
                    let i = choose|i: int| 0 <= i < self@[u].len() && self@[u][i] == v;
                    if u == from {
                        assert(old(self)@.contains_key(from));
                        assert(old(self)@[from][i] == v);
                    }
                    assert(edge(old(self)@, u, v));
                }
            }
        }
    }

    /// Whether `node` is a node of the graph.
    pub fn contains(&self, node: &u64) -> (r: bool)
        ensures
            r == self@.contains_key(*node),
    {
        self.nodes.contains_key(node)
    }

    /// The nodes that the edges out of `node` lead to, or `None` where `node`
    /// is no node of the graph.
    pub fn neighbors(&self, node: &u64) -> (r: Option<&Vec<u64>>)
        ensures
            r is Some == self@.contains_key(*node),
            r is Some ==> r.unwrap()@ == self@[*node],
    {
        self.nodes.get(node)
    }

    /// The nodes that can be reached from `start`, in the order in which a
    /// breadth-first search finds them: `start` first, then the nodes its
    /// edges lead to, then those that their edges lead to, and so on.
    pub fn bfs(&self, start: u64) -> (r: Vec<u64>)
        requires
            self.wf(),
        ensures
            breadth_first_order(self@, start, r@),
    {
        breadth_first(&self.nodes, start)
    }
}

} // verus!
