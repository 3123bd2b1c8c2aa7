use street_engine::base::container::undirected::UndirectedGraph;

#[test]
fn undirected_test_undirected_graph() {
    let mut graph = UndirectedGraph::new();

    graph.add_edge(103, 25);
    graph.add_edge(85, 103);
    graph.add_edge(85, 103);
    graph.add_edge(85, 32);
    graph.add_edge(67, 25);

    let neighbors = graph.neighbors_iter(103).unwrap();
    assert_eq!(neighbors, vec![25, 85]);

    assert_eq!(graph.order(), 5);
    assert_eq!(graph.size(), 4);
    assert_eq!(graph.has_edge(103, 25), true);
    assert_eq!(graph.has_edge(25, 103), true);
    assert_eq!(graph.has_edge(85, 103), true);
    assert_eq!(graph.has_edge(103, 85), true);
    assert_eq!(graph.has_edge(85, 25), false);
    assert_eq!(graph.has_edge(25, 85), false);

    graph.remove_edge(103, 25);

    assert_eq!(graph.order(), 5);
    assert_eq!(graph.size(), 3);
    assert_eq!(graph.has_edge(103, 25), false);
    assert_eq!(graph.has_edge(25, 103), false);
    assert_eq!(graph.has_edge(85, 103), true);

    graph.remove_edge(85, 103);

    assert_eq!(graph.order(), 4);
    assert_eq!(graph.size(), 2);
    assert_eq!(graph.has_edge(85, 103), false);
    assert_eq!(graph.has_edge(103, 85), false);
    assert_eq!(graph.has_edge(85, 32), true);
}

#[test]
fn add_edge_reports_whether_the_edge_is_new() {
    let mut graph = UndirectedGraph::new();
    assert_eq!(graph.add_edge(1u64, 2u64), Some((1, 2)));
    assert_eq!(graph.add_edge(1, 2), None);
    assert_eq!(graph.add_edge(2, 1), None);
    assert_eq!(graph.size(), 1);
    assert_eq!(graph.order(), 2);
}

#[test]
fn remove_edge_always_answers_the_pair() {
    let mut graph: UndirectedGraph<u32> = UndirectedGraph::new();
    assert_eq!(graph.remove_edge(4, 5), Some((4, 5)));
    assert_eq!(graph.order(), 0);
    graph.add_edge(4, 5);
    assert_eq!(graph.remove_edge(5, 4), Some((5, 4)));
    assert_eq!(graph.order(), 0);
    assert_eq!(graph.has_edge(4, 5), false);
}

#[test]
fn removing_a_new_edge_restores_the_graph() {
    let mut graph = UndirectedGraph::new();
    graph.add_edge(1i32, 2i32);
    graph.add_edge(2, 3);
    let before: Vec<Option<Vec<i32>>> = (0..5).map(|n| graph.neighbors_iter(n)).collect();
    graph.add_edge(1, 3);
    assert!(graph.has_edge(3, 1));
    graph.remove_edge(1, 3);
    let after: Vec<Option<Vec<i32>>> = (0..5).map(|n| graph.neighbors_iter(n)).collect();
    assert_eq!(before, after);
}

#[test]
fn self_loop_counts_one_half() {
    let mut graph = UndirectedGraph::new();
    graph.add_edge(7u8, 7u8);
    assert!(graph.has_edge(7, 7));
    assert_eq!(graph.order(), 1);
    assert_eq!(graph.neighbors_iter(7), Some(vec![7]));
    assert_eq!(graph.size(), 0);
    graph.add_edge(7, 8);
    assert_eq!(graph.size(), 1);
}

#[test]
fn neighbors_come_in_increasing_order() {
    let mut graph = UndirectedGraph::new();
    for n in [9i64, -3, 4, 12, 0] {
        graph.add_edge(1, n);
    }
    assert_eq!(graph.neighbors_iter(1), Some(vec![-3, 0, 4, 9, 12]));
    assert_eq!(graph.neighbors_iter(2), None);
}

#[test]
fn remove_node_drops_every_edge_at_it() {
    let mut graph = UndirectedGraph::new();
    graph.add_edge(1u32, 2u32);
    graph.add_edge(1, 3);
    graph.add_edge(2, 3);
    graph.add_edge(1, 1);
    graph.remove_node(1);
    assert!(!graph.has_edge(1, 2));
    assert!(!graph.has_edge(3, 1));
    assert!(!graph.has_edge(1, 1));
    assert!(graph.has_edge(2, 3));
    assert_eq!(graph.order(), 2);
    assert_eq!(graph.neighbors_iter(1), None);
}

#[test]
fn removing_a_missing_edge_changes_nothing() {
    let mut graph = UndirectedGraph::new();
    graph.add_edge(1u64, 2u64);
    assert_eq!(graph.remove_edge(1, 3), Some((1, 3)));
    assert_eq!(graph.remove_edge(4, 5), Some((4, 5)));
    assert!(graph.has_edge(2, 1));
    assert_eq!(graph.order(), 2);
    assert_eq!(graph.size(), 1);
    assert_eq!(graph.neighbors_iter(3), None);
    assert_eq!(graph.neighbors_iter(1), Some(vec![2]));
    graph.remove_edge(2, 1);
    assert_eq!(graph.neighbors_iter(1), None);
    assert_eq!(graph.neighbors_iter(2), None);
}
