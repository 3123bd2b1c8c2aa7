use street_engine::base::container::path_network::{NodeId, PathNetwork};

#[derive(Debug, Clone, Copy, PartialEq, Eq)]
enum Handle {
    Linear,
    Quadratic(u32),
}

#[derive(Debug, Clone, PartialEq, Eq)]
enum MockAttr {
    A,
    B,
    C,
}

fn five_nodes() -> (PathNetwork<&'static str, Handle, MockAttr>, Vec<NodeId>) {
    let mut network = PathNetwork::new();
    let ids = ["n0", "n1", "n2", "n3", "n4"]
        .into_iter()
        .map(|name| network.add_node(name))
        .collect::<Vec<_>>();
    assert!(network.can_add_node());
    (network, ids)
}

#[test]
fn path_network_paths_and_removals() {
    let (mut network, n) = five_nodes();
    assert_eq!(n, (0..5).map(NodeId::new).collect::<Vec<_>>());

    assert!(network.add_path(n[0], n[1], Handle::Linear, MockAttr::A).is_some());
    assert!(network.add_path(n[1], n[2], Handle::Linear, MockAttr::B).is_some());
    assert!(network.add_path(n[1], n[2], Handle::Quadratic(15), MockAttr::C).is_some());
    assert!(network.add_path(n[2], n[3], Handle::Linear, MockAttr::C).is_some());
    assert!(network.add_path(n[3], n[4], Handle::Quadratic(20), MockAttr::A).is_some());
    assert!(network.add_path(n[4], n[2], Handle::Linear, MockAttr::A).is_some());

    assert_eq!(network.has_path(n[0], n[1], Handle::Linear), Some(MockAttr::A));
    assert_eq!(network.has_path(n[1], n[0], Handle::Linear), Some(MockAttr::A));
    assert_eq!(network.has_path(n[1], n[2], Handle::Linear), Some(MockAttr::B));
    assert_eq!(network.has_path(n[1], n[2], Handle::Quadratic(15)), Some(MockAttr::C));
    assert_eq!(network.has_path(n[2], n[3], Handle::Linear), Some(MockAttr::C));
    assert_eq!(network.has_path(n[3], n[4], Handle::Quadratic(20)), Some(MockAttr::A));
    assert_eq!(network.has_path(n[0], n[1], Handle::Quadratic(15)), None);
    assert_eq!(network.has_path(n[0], n[2], Handle::Linear), None);

    network.remove_path(n[1], n[2], Handle::Linear);
    assert_eq!(network.has_path(n[1], n[2], Handle::Linear), None);
    assert_eq!(network.has_path(n[1], n[2], Handle::Quadratic(15)), Some(MockAttr::C));
    assert_eq!(network.has_path(n[2], n[3], Handle::Linear), Some(MockAttr::C));

    assert_eq!(network.remove_node(n[1]), Some(n[1]));
    assert_eq!(network.has_path(n[0], n[1], Handle::Linear), None);
    assert_eq!(network.has_path(n[1], n[2], Handle::Quadratic(15)), None);
    assert_eq!(network.get_node(n[1]), None);
    assert_eq!(network.remove_node(n[1]), None);
}

#[test]
fn add_path_refusals() {
    let (mut network, n) = five_nodes();
    assert_eq!(network.add_path(n[0], n[0], Handle::Linear, MockAttr::A), None);
    assert_eq!(
        network.add_path(n[0], n[1], Handle::Linear, MockAttr::A),
        Some((n[0], n[1], Handle::Linear, MockAttr::A))
    );
    assert_eq!(network.add_path(n[1], n[0], Handle::Linear, MockAttr::B), None);
    assert_eq!(network.add_path(n[0], NodeId::new(9), Handle::Linear, MockAttr::A), None);
    assert_eq!(network.has_path(n[0], n[1], Handle::Linear), Some(MockAttr::A));
}

#[test]
fn remove_path_and_connection_answers() {
    let (mut network, n) = five_nodes();
    network.add_path(n[0], n[1], Handle::Linear, MockAttr::A);
    network.add_path(n[1], n[0], Handle::Quadratic(1), MockAttr::B);
    network.add_path(n[1], n[2], Handle::Linear, MockAttr::C);
    assert_eq!(network.remove_path(n[0], NodeId::new(7), Handle::Linear), None);
    assert_eq!(
        network.connection_handles(n[0], n[1]),
        vec![Handle::Linear, Handle::Quadratic(1)]
    );
    assert_eq!(network.remove_connection(n[0], n[3]), None);
    assert_eq!(network.remove_connection(n[1], n[0]), Some((n[1], n[0])));
    assert_eq!(network.connection_handles(n[0], n[1]), Vec::<Handle>::new());
    assert_eq!(network.has_path(n[1], n[2], Handle::Linear), Some(MockAttr::C));
}

#[test]
fn neighbors_and_nodes() {
    let (mut network, n) = five_nodes();
    network.add_path(n[2], n[0], Handle::Linear, MockAttr::A);
    network.add_path(n[2], n[3], Handle::Linear, MockAttr::A);
    network.add_path(n[3], n[2], Handle::Quadratic(3), MockAttr::A);
    let neighbors = network.neighbors_iter(n[2]);
    assert_eq!(neighbors, vec![(n[0], &"n0"), (n[3], &"n3")]);
    assert_eq!(network.neighbors_iter(NodeId::new(8)), Vec::new());
    let nodes = network.nodes_iter();
    assert_eq!(nodes.len(), 5);
    assert_eq!(nodes[4], (n[4], &"n4"));
    assert_eq!(network.get_node(n[3]), Some(&"n3"));
}

#[test]
fn modify_node_changes_one_node() {
    let (mut network, n) = five_nodes();
    let r = network.modify_node(n[1], |name| {
        *name = "renamed";
        7
    });
    assert_eq!(r, Some(7));
    assert_eq!(network.get_node(n[1]), Some(&"renamed"));
    assert_eq!(network.modify_node(NodeId::new(11), |_| 0), None);
}

fn xorshift(x: usize) -> usize {
    let mut x = x;
    x ^= x << 13;
    x ^= x >> 17;
    x ^= x << 5;
    x
}

#[test]
fn from_checks_positions() {
    let nodes = vec![10u32, 11, 12];
    let ok: PathNetwork<u32, Handle, MockAttr> =
        PathNetwork::from(nodes.clone(), &[(0, 2, Handle::Linear, MockAttr::B)]).unwrap();
    assert_eq!(ok.has_path(NodeId::new(2), NodeId::new(0), Handle::Linear), Some(MockAttr::B));
    assert_eq!(ok.get_node(NodeId::new(1)), Some(&11));
    let bad: Option<PathNetwork<u32, Handle, MockAttr>> =
        PathNetwork::from(nodes, &[(0, 3, Handle::Linear, MockAttr::B)]);
    assert!(bad.is_none());
}

#[test]
fn reconstruction_keeps_paths() {
    let count = 40;
    let nodes = (0..count).collect::<Vec<usize>>();
    let mut paths = Vec::new();
    for i in 0..count {
        for j in i + 1..count {
            let attr = [MockAttr::A, MockAttr::B, MockAttr::C][xorshift(i * count + j) % 3].clone();
            if xorshift(i * count + j) % 2 == 0 {
                paths.push((i, j, Handle::Linear, attr));
            }
        }
    }

    let mut network0: PathNetwork<usize, Handle, MockAttr> = PathNetwork::new();
    let ids0 = nodes.iter().map(|&v| network0.add_node(v)).collect::<Vec<_>>();
    for (start, end, handle, attr) in paths.iter() {
        network0.add_path(ids0[*start], ids0[*end], *handle, attr.clone());
    }
    // take a few nodes out so that the IDs are no longer 0, 1, 2, ...
    network0.remove_node(ids0[3]);
    network0.remove_node(ids0[17]);

    let network1 = network0.clone().reconstruct().unwrap();
    let order = network0.nodes_iter().into_iter().map(|(id, _)| id).collect::<Vec<_>>();
    assert_eq!(network1.nodes_iter().len(), order.len());
    let listed0 = network0.nodes_iter();
    for (i, (id, node)) in network1.nodes_iter().into_iter().enumerate() {
        assert_eq!(id, NodeId::new(i));
        assert_eq!(node, listed0[i].1);
    }
    for i in 0..order.len() {
        assert_eq!(network1.get_node(NodeId::new(i)), network0.get_node(order[i]));
        for j in 0..order.len() {
            assert_eq!(
                network1.has_path(NodeId::new(i), NodeId::new(j), Handle::Linear),
                network0.has_path(order[i], order[j], Handle::Linear)
            );
        }
    }
}
