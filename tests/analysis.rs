use graph_resilience::{
    compute_degree_distribution, graph_from_edges, identify_supernodes, largest_component_size,
    simulate_resilience, simulate_resilience_with_picks, simulate_targeted_attacks, GraphStore,
};
use std::collections::HashMap;

fn sample_graph() -> (GraphStore, usize, usize, usize, usize) {
    let mut graph = GraphStore::new();
    let a = graph.add_node();
    let b = graph.add_node();
    let c = graph.add_node();
    let d = graph.add_node();
    graph.add_edge(a, b);
    graph.add_edge(a, c);
    graph.add_edge(c, d);
    (graph, a, b, c, d)
}

#[test]
fn test_compute_degree_distribution() {
    let mut graph = GraphStore::new();
    let a = graph.add_node();
    let b = graph.add_node();
    let c = graph.add_node();
    graph.add_edge(a, b);
    graph.add_edge(a, c);
    graph.add_edge(b, c);
    let degree_distribution = compute_degree_distribution(&graph);
    let expected: HashMap<usize, usize> = [(0, 1), (1, 1), (2, 1)].iter().cloned().collect();
    assert_eq!(degree_distribution, expected);
}

#[test]
fn test_simulate_resilience() {
    let (graph, _, _, _, _) = sample_graph();
    simulate_resilience(&graph, 2);
}

#[test]
fn resilience_trace_is_bounded_and_has_requested_length() {
    let (graph, _, _, _, _) = sample_graph();
    let trace = simulate_resilience(&graph, 2);
    assert_eq!(trace.len(), 2);
    for (node, size) in &trace {
        assert!(*node < 4);
        assert!(*size <= 4);
    }
    assert_ne!(trace[0].0, trace[1].0);
    assert_eq!(graph.node_count(), 4);
}

#[test]
fn resilience_stops_when_graph_is_exhausted() {
    let (graph, _, _, _, _) = sample_graph();
    let trace = simulate_resilience(&graph, 10);
    assert_eq!(trace.len(), 4);
    assert_eq!(trace[3].1, 0);
}

#[test]
fn resilience_with_picks_removes_ranked_nodes() {
    let mut graph = GraphStore::new();
    let a = graph.add_node();
    let b = graph.add_node();
    let c = graph.add_node();
    graph.add_edge(a, b);
    graph.add_edge(b, a);
    graph.add_edge(b, c);
    graph.add_edge(c, b);
    // Nodes left: [a, b, c]; pick 4 % 3 = 1 removes b, leaving a and c apart.
    let trace = simulate_resilience_with_picks(&graph, &vec![4, 0, 7]);
    assert_eq!(trace, vec![(b, 1), (a, 1), (c, 0)]);
}

#[test]
fn largest_component_of_empty_graph_is_zero() {
    let graph = GraphStore::new();
    assert_eq!(largest_component_size(&graph), 0);
}

#[test]
fn largest_component_of_edgeless_graph_is_one() {
    let mut graph = GraphStore::new();
    graph.add_node();
    graph.add_node();
    graph.add_node();
    assert_eq!(largest_component_size(&graph), 1);
}

#[test]
fn largest_component_of_cycle_with_tail() {
    let (mut graph, a, b, c, d) = sample_graph();
    assert_eq!(largest_component_size(&graph), 1);
    graph.add_edge(b, a);
    graph.add_edge(d, c);
    graph.add_edge(c, a);
    // a, b, c, d are now mutually reachable.
    assert_eq!(largest_component_size(&graph), 4);
}

#[test]
fn supernodes_are_sorted_by_degree_then_identity() {
    let mut graph = GraphStore::new();
    let n: Vec<usize> = (0..5).map(|_| graph.add_node()).collect();
    graph.add_edge(n[3], n[0]);
    graph.add_edge(n[3], n[1]);
    graph.add_edge(n[1], n[0]);
    graph.add_edge(n[2], n[0]);
    graph.add_edge(n[4], n[4]);
    let top = identify_supernodes(&graph, 3);
    assert_eq!(top, vec![(n[3], 2), (n[1], 1), (n[2], 1)]);
    let all = identify_supernodes(&graph, 10);
    assert_eq!(all.len(), 5);
    for w in all.windows(2) {
        assert!(w[0].1 >= w[1].1);
    }
    assert_eq!(identify_supernodes(&graph, 0), vec![]);
}

#[test]
fn targeted_attack_removes_supernodes_in_order() {
    let (graph, a, _, c, _) = sample_graph();
    let trace = simulate_targeted_attacks(&graph, 2);
    assert_eq!(trace, vec![(a, 1), (c, 1)]);
    assert_eq!(graph.node_count(), 4);
}

#[test]
fn removing_a_node_keeps_other_identities() {
    let (mut graph, a, b, c, d) = sample_graph();
    graph.remove_node(b);
    assert_eq!(graph.node_ids(), vec![a, c, d]);
    assert_eq!(graph.out_degree(a), 1);
    assert_eq!(graph.out_degree(b), 0);
    graph.remove_node(b);
    assert_eq!(graph.node_count(), 3);
}

#[test]
fn triangle_edge_list_gives_uniform_distribution() {
    let (graph, ids) = graph_from_edges(&vec![(1, 2), (2, 3), (3, 1)]);
    assert_eq!(graph.node_count(), 3);
    assert_eq!(ids.len(), 3);
    let expected: HashMap<usize, usize> = [(1, 3)].iter().cloned().collect();
    assert_eq!(compute_degree_distribution(&graph), expected);
    assert_eq!(largest_component_size(&graph), 3);
}

#[test]
fn distribution_counts_sum_to_node_count() {
    let (graph, _) = graph_from_edges(&vec![(7, 8), (7, 9), (8, 9), (9, 9), (10, 7)]);
    let dist = compute_degree_distribution(&graph);
    assert_eq!(dist.values().sum::<usize>(), graph.node_count());
    assert_eq!(dist.get(&2), Some(&1));
    assert_eq!(dist.get(&1), Some(&3));
}
