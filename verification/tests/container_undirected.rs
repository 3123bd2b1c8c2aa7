use street_engine::container::undirected::UndirectedGraph;

#[test]
fn test_undirected_graph() {
    let mut graph = UndirectedGraph::new();

    graph.add_edge(103, 25);
    graph.add_edge(85, 103);
    graph.add_edge(85, 32);
    graph.add_edge(67, 25);

    // A hash set hands out its elements in an order that depends on the
    // random state of the process, so the neighbors are compared as a set.
    let mut neighbors = graph.neighbors_iter(103).unwrap();
    neighbors.sort();
    assert_eq!(neighbors, vec![25, 85]);

    assert_eq!(graph.order(), 5);
    assert_eq!(graph.size(), 4);
    assert_eq!(graph.has_edge(103, 25), true);
    assert_eq!(graph.has_edge(25, 103), true);
    assert_eq!(graph.has_edge(85, 103), true);
    assert_eq!(graph.has_edge(103, 85), true);
    assert_eq!(graph.has_edge(85, 25), false);
    assert_eq!(graph.has_edge(25, 85), false);

    graph.remove_edge(103, 25);

    assert_eq!(graph.order(), 5);
    assert_eq!(graph.size(), 3);
    assert_eq!(graph.has_edge(103, 25), false);
    assert_eq!(graph.has_edge(25, 103), false);
    assert_eq!(graph.has_edge(85, 103), true);

    graph.remove_edge(85, 103);

    assert_eq!(graph.order(), 4);
    assert_eq!(graph.size(), 2);
    assert_eq!(graph.has_edge(85, 103), false);
    assert_eq!(graph.has_edge(103, 85), false);
    assert_eq!(graph.has_edge(85, 32), true);
}

#[test]
fn hashed_graph_adding_twice_keeps_one_edge() {
    let mut graph = UndirectedGraph::new();
    graph.add_edge(1u16, 2u16);
    graph.add_edge(2, 1);
    assert_eq!(graph.size(), 1);
    assert_eq!(graph.neighbors_iter(1), Some(vec![2]));
    assert_eq!(graph.neighbors_iter(3), None);
    graph.remove_edge(1, 2);
    assert_eq!(graph.order(), 0);
}

#[test]
fn hashed_graph_removing_a_new_edge_restores_it() {
    let mut graph = UndirectedGraph::new();
    graph.add_edge(10u32, 20u32);
    graph.add_edge(20, 30);
    let sorted = |g: &UndirectedGraph<u32>, n: u32| {
        g.neighbors_iter(n).map(|mut v| {
            v.sort();
            v
        })
    };
    let before: Vec<Option<Vec<u32>>> = [10, 20, 30].iter().map(|&n| sorted(&graph, n)).collect();
    graph.add_edge(30, 10);
    assert!(graph.has_edge(10, 30));
    assert_eq!(graph.size(), 3);
    graph.remove_edge(10, 30);
    assert!(!graph.has_edge(30, 10));
    let after: Vec<Option<Vec<u32>>> = [10, 20, 30].iter().map(|&n| sorted(&graph, n)).collect();
    assert_eq!(before, after);
    assert_eq!(graph.order(), 3);
    assert_eq!(graph.size(), 2);
}

#[test]
fn hashed_graph_removing_a_missing_edge_changes_nothing() {
    let mut graph = UndirectedGraph::new();
    graph.add_edge(1u64, 2u64);
    graph.remove_edge(1, 3);
    graph.remove_edge(4, 5);
    assert!(graph.has_edge(2, 1));
    assert_eq!(graph.order(), 2);
    assert_eq!(graph.size(), 1);
    assert_eq!(graph.neighbors_iter(3), None);
    graph.remove_edge(2, 1);
    assert_eq!(graph.neighbors_iter(1), None);
    assert_eq!(graph.order(), 0);
}
