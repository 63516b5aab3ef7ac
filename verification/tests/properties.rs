use route_graph::Graph;

// The cost a query reports equals the sum of the cheapest edge costs along
// the path it returns.
#[test]
fn reported_cost_is_sum_of_edges_along_path() {
    let edge_list = vec![(0, 1, 5), (0, 2, 7), (1, 3, 5), (2, 3, 7), (1, 3, 9)];
    let mut g = Graph::from_edge_list(&edge_list);

    let (path, cost) = g.shortest_path(0, 3).unwrap();

    let mut sum: i32 = 0;
    for w in path.windows(2) {
        let mut best: Option<i32> = None;
        for &(f, t, c) in edge_list.iter() {
            if f == w[0] && t == w[1] && (best.is_none() || c < best.unwrap()) {
                best = Some(c);
            }
        }
        sum += best.unwrap();
    }
    assert_eq!(cost, sum);
    assert_eq!(cost, 10);
}

// No alternative route of the diamond beats the reported cost: both other
// start-to-goal routes cost more.
#[test]
fn no_cheaper_alternative_route() {
    let edge_list = vec![(0, 1, 5), (0, 2, 7), (1, 3, 5), (2, 3, 7), (0, 3, 13)];
    let mut g = Graph::from_edge_list(&edge_list);

    let (path, cost) = g.shortest_path(0, 3).unwrap();

    assert_eq!(path, vec![0, 1, 3]);
    assert_eq!(cost, 10);
    assert!(cost <= 7 + 7);
    assert!(cost <= 13);
}

// The same query against two graphs built from the same edge list gives the
// same answer.
#[test]
fn same_query_on_equal_graphs_agrees() {
    let edge_list = vec![(0, 1, 42), (1, 2, 21), (0, 2, 70)];
    let mut g1 = Graph::from_edge_list(&edge_list);
    let mut g2 = Graph::from_edge_list(&edge_list);

    let r1 = g1.shortest_path(0, 2);
    let r2 = g2.shortest_path(0, 2);

    assert_eq!(r1, r2);
    let (path, cost) = r1.unwrap();
    assert_eq!(path, vec![0, 1, 2]);
    assert_eq!(cost, 63);
}

// Repeating a query whose goal is a direct successor of the start gives the
// same answer again, even on the retained routing table.
#[test]
fn repeated_direct_query_agrees() {
    let edge_list = vec![(0, 1, 42), (0, 1, 21)];
    let mut g = Graph::from_edge_list(&edge_list);

    let first = g.shortest_path(0, 1);
    let second = g.shortest_path(0, 1);

    assert_eq!(first, second);
    assert_eq!(first.unwrap(), (vec![0, 1], 21));
}

// A later query may lower a node's recorded minimal cost but never raises it.
#[test]
fn minimal_cost_never_increases() {
    let edge_list = vec![(0, 2, 42), (1, 2, 21)];
    let mut g = Graph::from_edge_list(&edge_list);

    g.populate_sources_list(0, 2);
    let after_first = g.sources_list.get(&2).unwrap().minimal_cost;
    g.populate_sources_list(1, 2);
    let after_second = g.sources_list.get(&2).unwrap().minimal_cost;

    assert_eq!(after_first, 42);
    assert_eq!(after_second, 21);
    assert!(after_second <= after_first);
}

// A goal with no route from the start is reported as absent, not as a fault.
#[test]
fn unreachable_goal_is_none() {
    let edge_list = vec![(0, 1, 5)];
    let mut g = Graph::from_edge_list(&edge_list);

    assert!(g.shortest_path(1, 0).is_none());
}

// A start equal to the goal is found only when some cycle leads back to the
// start: the trivial zero-cost path is never considered, and the moment the
// walk is back at the start the path ends, so a round trip reports `[start]`
// with the cycle's cost.
#[test]
fn start_equals_goal_needs_a_cycle() {
    let edge_list = vec![(0, 1, 5), (1, 0, 5)];
    let mut g = Graph::from_edge_list(&edge_list);

    let (path, cost) = g.shortest_path(0, 0).unwrap();
    assert_eq!(path, vec![0]);
    assert_eq!(cost, 10);

    let edge_list2 = vec![(0, 1, 5)];
    let mut g2 = Graph::from_edge_list(&edge_list2);
    assert!(g2.shortest_path(0, 0).is_none());
}

// Candidate costs that would exceed the 32-bit range are never offered, so
// a goal only reachable through them is reported unreachable instead of the
// cost wrapping around.
#[test]
fn huge_costs_do_not_wrap() {
    let edge_list = vec![(0, 1, i32::MAX), (1, 2, i32::MAX)];
    let mut g = Graph::from_edge_list(&edge_list);

    let (path, cost) = g.shortest_path(0, 1).unwrap();
    assert_eq!(path, vec![0, 1]);
    assert_eq!(cost, i32::MAX);

    assert!(g.shortest_path(0, 2).is_none());
}

// Zero-cost edges are ordinary edges.
#[test]
fn zero_cost_edges() {
    let edge_list = vec![(0, 1, 0), (1, 2, 0), (0, 2, 1)];
    let mut g = Graph::from_edge_list(&edge_list);

    let (path, cost) = g.shortest_path(0, 2).unwrap();
    assert_eq!(path, vec![0, 1, 2]);
    assert_eq!(cost, 0);
}
