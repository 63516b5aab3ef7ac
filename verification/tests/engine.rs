use route_graph::Graph;

#[test]
fn empty_graph() {
    let edge_list: Vec<(usize, usize, i32)> = Vec::new();
    let mut g = Graph::from_edge_list(&edge_list);

    let found = g.populate_sources_list(0, 0);

    assert!(!found);
    assert_eq!(g.sources_list.len(), 0);
}

#[test]
fn single_node() {
    let edge_list = vec![(0, 0, 42)];
    let mut g = Graph::from_edge_list(&edge_list);

    let (path, cost) = g.shortest_path(0, 0).unwrap();

    assert_eq!(g.sources_list.len(), 1);
    assert_eq!(g.sources_list.get(&0).unwrap().minimal_from, 0);
    assert_eq!(g.sources_list.get(&0).unwrap().minimal_cost, 42);
    assert_eq!(g.sources_list.get(&0).unwrap().paths.len(), 1);
    assert_eq!(g.sources_list.get(&0).unwrap().paths.get(&0).unwrap(), &42);
    assert_eq!(path, vec![0]);
    assert_eq!(cost, 42);
}

#[test]
fn two_nodes_one_edge() {
    let edge_list = vec![(0, 1, 42)];
    let mut g = Graph::from_edge_list(&edge_list);

    let (path, cost) = g.shortest_path(0, 1).unwrap();

    assert_eq!(g.sources_list.len(), 1);
    assert!(g.sources_list.get(&0).is_none());
    assert_eq!(g.sources_list.get(&1).unwrap().minimal_from, 0);
    assert_eq!(g.sources_list.get(&1).unwrap().minimal_cost, 42);
    assert_eq!(g.sources_list.get(&1).unwrap().paths.len(), 1);
    assert_eq!(g.sources_list.get(&1).unwrap().paths.get(&0).unwrap(), &42);
    assert_eq!(path, vec![0, 1]);
    assert_eq!(cost, 42);
}

#[test]
fn two_nodes_two_edges() {
    let edge_list = vec![(0, 1, 42), (0, 1, 21)];
    let mut g = Graph::from_edge_list(&edge_list);

    let (path, cost) = g.shortest_path(0, 1).unwrap();

    assert_eq!(g.sources_list.len(), 1);
    assert!(g.sources_list.get(&0).is_none());
    assert_eq!(g.sources_list.get(&1).unwrap().minimal_from, 0);
    assert_eq!(g.sources_list.get(&1).unwrap().minimal_cost, 21);
    assert_eq!(g.sources_list.get(&1).unwrap().paths.len(), 1);
    assert_eq!(g.sources_list.get(&1).unwrap().paths.get(&0).unwrap(), &21);
    assert_eq!(path, vec![0, 1]);
    assert_eq!(cost, 21);
}

#[test]
fn two_destinations() {
    let edge_list = vec![(0, 1, 42), (0, 2, 21)];
    let mut g = Graph::from_edge_list(&edge_list);

    let (path, cost) = g.shortest_path(0, 2).unwrap();

    assert_eq!(g.sources_list.len(), 2);
    assert!(g.sources_list.get(&0).is_none());
    assert_eq!(g.sources_list.get(&1).unwrap().minimal_from, 0);
    assert_eq!(g.sources_list.get(&1).unwrap().minimal_cost, 42);
    assert_eq!(g.sources_list.get(&1).unwrap().paths.len(), 1);
    assert_eq!(g.sources_list.get(&1).unwrap().paths.get(&0).unwrap(), &42);
    assert_eq!(g.sources_list.get(&2).unwrap().minimal_cost, 21);
    assert_eq!(g.sources_list.get(&2).unwrap().paths.len(), 1);
    assert_eq!(g.sources_list.get(&2).unwrap().paths.get(&0).unwrap(), &21);
    assert_eq!(path, vec![0, 2]);
    assert_eq!(cost, 21);
}

#[test]
fn two_sources() {
    let edge_list = vec![(0, 2, 42), (1, 2, 21)];
    let mut g = Graph::from_edge_list(&edge_list);

    g.populate_sources_list(0, 2);
    let (path, cost) = g.shortest_path(1, 2).unwrap();

    assert_eq!(g.sources_list.len(), 1);
    assert!(g.sources_list.get(&0).is_none());
    assert_eq!(g.sources_list.get(&2).unwrap().minimal_from, 1);
    assert_eq!(g.sources_list.get(&2).unwrap().minimal_cost, 21);
    assert_eq!(g.sources_list.get(&2).unwrap().paths.len(), 2);
    assert_eq!(g.sources_list.get(&2).unwrap().paths.get(&0).unwrap(), &42);
    assert_eq!(g.sources_list.get(&2).unwrap().paths.get(&1).unwrap(), &21);
    assert_eq!(path, vec![1, 2]);
    assert_eq!(cost, 21);
}

#[test]
fn three_nodes_linear() {
    let edge_list = vec![(0, 1, 42), (1, 2, 21)];
    let mut g = Graph::from_edge_list(&edge_list);

    let (path, cost) = g.shortest_path(0, 2).unwrap();

    assert_eq!(g.sources_list.len(), 2);
    assert!(g.sources_list.get(&0).is_none());
    assert_eq!(g.sources_list.get(&1).unwrap().minimal_cost, 42);
    assert_eq!(g.sources_list.get(&1).unwrap().paths.len(), 1);
    assert_eq!(g.sources_list.get(&1).unwrap().paths.get(&0).unwrap(), &42);
    assert_eq!(g.sources_list.get(&2).unwrap().minimal_cost, 63);
    assert_eq!(g.sources_list.get(&2).unwrap().paths.len(), 1);
    assert_eq!(g.sources_list.get(&2).unwrap().paths.get(&1).unwrap(), &63);
    assert_eq!(path, vec![0, 1, 2]);
    assert_eq!(cost, 63);
}

#[test]
fn five_nodes_four_edges() {
    let edge_list = vec![(0, 1, 5), (1, 2, 7), (0, 3, 15), (3, 4, 17)];
    let mut g = Graph::from_edge_list(&edge_list);

    let (path, cost) = g.shortest_path(0, 2).unwrap();

    assert_eq!(g.sources_list.len(), 4);
    assert!(g.sources_list.get(&0).is_none());
    assert_eq!(g.sources_list.get(&1).unwrap().minimal_cost, 5);
    assert_eq!(g.sources_list.get(&1).unwrap().paths.len(), 1);
    assert_eq!(g.sources_list.get(&1).unwrap().paths.get(&0).unwrap(), &5);
    assert_eq!(g.sources_list.get(&2).unwrap().minimal_cost, 12);
    assert_eq!(g.sources_list.get(&2).unwrap().paths.len(), 1);
    assert_eq!(g.sources_list.get(&2).unwrap().paths.get(&1).unwrap(), &12);
    assert_eq!(g.sources_list.get(&3).unwrap().minimal_cost, 15);
    assert_eq!(g.sources_list.get(&3).unwrap().paths.len(), 1);
    assert_eq!(g.sources_list.get(&3).unwrap().paths.get(&0).unwrap(), &15);
    assert_eq!(g.sources_list.get(&4).unwrap().minimal_cost, 32);
    assert_eq!(g.sources_list.get(&4).unwrap().paths.len(), 1);
    assert_eq!(g.sources_list.get(&4).unwrap().paths.get(&3).unwrap(), &32);
    assert_eq!(path, vec![0, 1, 2]);
    assert_eq!(cost, 12);
}

#[test]
fn four_nodes_four_edges() {
    let edge_list = vec![(0, 1, 5), (0, 2, 7), (1, 3, 5), (2, 3, 7)];
    let mut g = Graph::from_edge_list(&edge_list);

    let (path, cost) = g.shortest_path(0, 3).unwrap();

    assert_eq!(g.sources_list.len(), 3);
    assert!(g.sources_list.get(&0).is_none());
    assert_eq!(g.sources_list.get(&1).unwrap().minimal_from, 0);
    assert_eq!(g.sources_list.get(&1).unwrap().minimal_cost, 5);
    assert_eq!(g.sources_list.get(&1).unwrap().paths.len(), 1);
    assert_eq!(g.sources_list.get(&1).unwrap().paths.get(&0).unwrap(), &5);
    assert_eq!(g.sources_list.get(&2).unwrap().minimal_from, 0);
    assert_eq!(g.sources_list.get(&2).unwrap().minimal_cost, 7);
    assert_eq!(g.sources_list.get(&2).unwrap().paths.len(), 1);
    assert_eq!(g.sources_list.get(&2).unwrap().paths.get(&0).unwrap(), &7);
    assert_eq!(g.sources_list.get(&3).unwrap().minimal_from, 1);
    assert_eq!(g.sources_list.get(&3).unwrap().minimal_cost, 10);
    assert_eq!(g.sources_list.get(&3).unwrap().paths.len(), 2);
    assert_eq!(g.sources_list.get(&3).unwrap().paths.get(&1).unwrap(), &10);
    assert_eq!(g.sources_list.get(&3).unwrap().paths.get(&2).unwrap(), &14);
    assert_eq!(path, vec![0, 1, 3]);
    assert_eq!(cost, 10);
}

#[test]
fn four_nodes_four_edges_reverse_input() {
    let edge_list = vec![(2, 3, 7), (1, 3, 5), (0, 2, 7), (0, 1, 5)];
    let mut g = Graph::from_edge_list(&edge_list);

    let (path, cost) = g.shortest_path(0, 3).unwrap();

    assert_eq!(g.sources_list.len(), 3);
    assert!(g.sources_list.get(&0).is_none());
    assert_eq!(g.sources_list.get(&1).unwrap().minimal_cost, 5);
    assert_eq!(g.sources_list.get(&1).unwrap().paths.len(), 1);
    assert_eq!(g.sources_list.get(&1).unwrap().paths.get(&0).unwrap(), &5);
    assert_eq!(g.sources_list.get(&2).unwrap().minimal_cost, 7);
    assert_eq!(g.sources_list.get(&2).unwrap().paths.len(), 1);
    assert_eq!(g.sources_list.get(&2).unwrap().paths.get(&0).unwrap(), &7);
    assert_eq!(g.sources_list.get(&3).unwrap().minimal_cost, 10);
    assert_eq!(g.sources_list.get(&3).unwrap().paths.len(), 2);
    assert_eq!(g.sources_list.get(&3).unwrap().paths.get(&1).unwrap(), &10);
    assert_eq!(g.sources_list.get(&3).unwrap().paths.get(&2).unwrap(), &14);
    assert_eq!(path, vec![0, 1, 3]);
    assert_eq!(cost, 10);
}
