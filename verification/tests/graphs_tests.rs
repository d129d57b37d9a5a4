use data_structures::graphs::directed_graph::DirectedGraph;
use data_structures::graphs::undirected_graph::UndirectedGraph;

#[test]
fn test_directed_graph() {
    let mut graph = DirectedGraph::new();
    graph.add_node(1);
    graph.add_node(2);
    graph.add_edge(1, 2);
    assert!(graph.contains(&1));
    assert!(graph.contains(&2));
    assert!(graph.neighbors(&1).unwrap().contains(&2));
}

#[test]
fn test_undirected_graph() {
    let mut graph = UndirectedGraph::new();
    graph.add_node(1);
    graph.add_node(2);
    graph.add_edge(1, 2);
    assert!(graph.contains(&1));
    assert!(graph.contains(&2));
    assert!(graph.neighbors(&1).unwrap().contains(&2));
    assert!(graph.neighbors(&2).unwrap().contains(&1));
}

#[test]
fn directed_graph_edges_make_nodes() {
    let mut graph = DirectedGraph::new();
    assert!(!graph.contains(&7));
    assert!(graph.neighbors(&7).is_none());
    graph.add_edge(7, 8);
    assert!(graph.contains(&7));
    assert!(graph.contains(&8));
    assert_eq!(graph.neighbors(&7).unwrap(), &vec![8]);
    assert!(graph.neighbors(&8).unwrap().is_empty());
    graph.add_node(7);
    assert_eq!(graph.neighbors(&7).unwrap(), &vec![8]);
    graph.add_edge(7, 8);
    assert_eq!(graph.neighbors(&7).unwrap(), &vec![8, 8]);
}

#[test]
fn directed_graph_bfs_goes_level_by_level() {
    let mut graph = DirectedGraph::new();
    graph.add_edge(1, 2);
    graph.add_edge(1, 3);
    graph.add_edge(2, 4);
    graph.add_edge(3, 4);
    graph.add_edge(4, 1);
    graph.add_edge(5, 1);
    assert_eq!(graph.bfs(1), vec![1, 2, 3, 4]);
    assert_eq!(graph.bfs(5), vec![5, 1, 2, 3, 4]);
    assert_eq!(graph.bfs(4), vec![4, 1, 2, 3]);
}

#[test]
fn directed_graph_bfs_from_a_stranger() {
    let mut graph = DirectedGraph::new();
    graph.add_edge(1, 2);
    assert_eq!(graph.bfs(9), vec![9]);
    assert_eq!(graph.bfs(2), vec![2]);
}

#[test]
fn undirected_graph_self_loop() {
    let mut graph = UndirectedGraph::new();
    graph.add_edge(3, 3);
    assert_eq!(graph.neighbors(&3).unwrap(), &vec![3, 3]);
    assert_eq!(graph.bfs(3), vec![3]);
}

#[test]
fn undirected_graph_bfs_reaches_both_ways() {
    let mut graph = UndirectedGraph::new();
    graph.add_edge(1, 2);
    graph.add_edge(3, 2);
    graph.add_edge(3, 4);
    graph.add_node(5);
    assert_eq!(graph.bfs(4), vec![4, 3, 2, 1]);
    assert_eq!(graph.bfs(2), vec![2, 1, 3, 4]);
    assert_eq!(graph.bfs(5), vec![5]);
}

#[test]
fn dijkstra_counts_edges() {
    let mut graph = DirectedGraph::new();
    graph.add_edge(1, 2);
    graph.add_edge(2, 3);
    graph.add_edge(1, 3);
    graph.add_edge(3, 4);
    graph.add_edge(4, 1);
    graph.add_edge(9, 1);
    graph.add_node(7);
    let dist = graph.dijkstra(1);
    assert_eq!(dist.len(), 4);
    assert_eq!(dist.get(&1), Some(&0));
    assert_eq!(dist.get(&2), Some(&1));
    assert_eq!(dist.get(&3), Some(&1));
    assert_eq!(dist.get(&4), Some(&2));
    assert_eq!(dist.get(&9), None);
    assert_eq!(dist.get(&7), None);
}

#[test]
fn dijkstra_from_a_stranger() {
    let mut graph = DirectedGraph::new();
    graph.add_edge(1, 2);
    let dist = graph.dijkstra(5);
    assert_eq!(dist.len(), 1);
    assert_eq!(dist.get(&5), Some(&0));
}

#[test]
fn dijkstra_along_a_long_chain() {
    let mut graph = DirectedGraph::new();
    for k in 0..500u64 {
        graph.add_edge(k, k + 1);
        graph.add_edge(k + 1, k / 2);
    }
    let dist = graph.dijkstra(0);
    assert_eq!(dist.len(), 501);
    for k in 0..=500u64 {
        assert_eq!(dist.get(&k), Some(&(k as usize)));
    }
}
