use street_engine::model::{CandidateNodeType, Network};

#[test]
fn connections_are_made_both_ways() {
    let mut network = Network::new();
    let a = network.add_new_node('a');
    let b = network.add_new_node('b');
    let c = network.add_new_node('c');
    assert_eq!((a, b, c), (0, 1, 2));

    network.connect_nodes(a, b);
    network.connect_nodes(c, a);
    assert_eq!(network.has_connection(a, b), Some(true));
    assert_eq!(network.has_connection(b, a), Some(true));
    assert_eq!(network.has_connection(b, c), Some(false));
    assert_eq!(network.has_connection(a, 3), None);
    assert_eq!(network.neighbors(a), vec![b, c]);

    network.connect_nodes(a, b);
    assert_eq!(network.neighbors(a), vec![c, b]);
    assert_eq!(network.neighbors(b), vec![a]);

    network.remove_connection(b, a);
    assert_eq!(network.has_connection(a, b), Some(false));
    assert_eq!(network.neighbors(a), vec![c]);
    assert_eq!(network.neighbors(9), Vec::<usize>::new());

    assert_eq!(network.get_node(c), Some('c'));
    assert_eq!(network.get_node(3), None);
    assert_eq!(network.nodes(), &['a', 'b', 'c']);
}

#[test]
fn removing_a_new_connection_restores_the_lists() {
    let mut network = Network::new();
    for v in 0..4u8 {
        network.add_new_node(v);
    }
    network.connect_nodes(0, 1);
    network.connect_nodes(0, 2);
    let before = (0..4).map(|i| network.neighbors(i)).collect::<Vec<_>>();
    network.connect_nodes(0, 3);
    network.remove_connection(0, 3);
    let after = (0..4).map(|i| network.neighbors(i)).collect::<Vec<_>>();
    assert_eq!(before, after);
}

#[test]
fn applying_candidates_grows_the_network() {
    let mut network = Network::new();
    let origin = network.add_new_node('o');

    let a = network.apply_candidate(CandidateNodeType::New('a'), origin);
    assert_eq!(a, 1);
    assert_eq!(network.nodes(), &['o', 'a']);
    assert_eq!(network.neighbors(origin), vec![a]);
    assert_eq!(network.neighbors(a), vec![origin]);

    let b = network.apply_candidate(CandidateNodeType::New('b'), a);
    assert_eq!(b, 2);
    let c = network.apply_candidate(CandidateNodeType::New('c'), origin);
    assert_eq!(c, 3);

    let joined = network.apply_candidate(CandidateNodeType::Existing(b), c);
    assert_eq!(joined, b);
    assert_eq!(network.nodes().len(), 4);
    assert_eq!(network.has_connection(c, b), Some(true));
    assert_eq!(network.neighbors(b), vec![a, c]);
}

#[test]
fn a_branch_splits_the_connection_it_lands_on() {
    let mut network = Network::new();
    let p = network.add_new_node('p');
    let a = network.add_new_node('a');
    let b = network.add_new_node('b');
    network.connect_nodes(a, b);

    let x = network.apply_candidate(CandidateNodeType::Branch('x', a, b), p);
    assert_eq!(x, 3);
    assert_eq!(network.get_node(x), Some('x'));
    assert_eq!(network.has_connection(a, b), Some(false));
    assert_eq!(network.has_connection(b, a), Some(false));
    assert_eq!(network.neighbors(x), vec![p, a, b]);
    assert_eq!(network.neighbors(a), vec![x]);
    assert_eq!(network.neighbors(b), vec![x]);
    assert_eq!(network.neighbors(p), vec![x]);
}

#[test]
fn neighbors_are_listed_once_but_a_self_connection_twice() {
    let mut network = Network::new();
    let a = network.add_new_node(1u8);
    let b = network.add_new_node(2u8);
    network.connect_nodes(a, b);
    network.connect_nodes(b, a);
    network.connect_nodes(a, b);
    assert_eq!(network.neighbors(a), vec![b]);
    assert_eq!(network.neighbors(b), vec![a]);
    network.connect_nodes(a, a);
    assert_eq!(network.neighbors(a), vec![b, a, a]);
    network.connect_nodes(a, a);
    assert_eq!(network.neighbors(a), vec![b, a, a]);
}
