use bv_graph::graph::DiGraph;
use bv_graph::slack::{slack, total_float, zero_slack_nodes};
use bv_graph::topo::topological_sort;

fn chain_plus_pair() -> DiGraph {
    let mut g = DiGraph::new();
    for name in ["a", "b", "c", "d", "e"] {
        g.add_node(name);
    }
    g.add_edge(0, 1);
    g.add_edge(1, 2);
    g.add_edge(3, 4);
    g
}

#[test]
fn slack_values_of_mixed_graph() {
    let mut g = DiGraph::new();
    for i in 0..10 {
        g.add_node(&format!("n{}", i));
    }
    g.add_edge(0, 1);
    g.add_edge(1, 2);
    g.add_edge(2, 3);
    g.add_edge(0, 4);
    g.add_edge(4, 5);
    g.add_edge(5, 6);
    g.add_edge(6, 3);
    // Longest path 0-4-5-6-3 has 5 nodes; 0-1-2-3 has 4; nodes 7, 8, 9 are isolated.
    assert_eq!(slack(&g), vec![0, 1, 1, 0, 0, 0, 0, 4, 4, 4]);
    assert_eq!(total_float(&g), 4);
    assert_eq!(zero_slack_nodes(&g), vec![0, 3, 4, 5, 6]);
}

#[test]
fn slack_is_the_same_on_a_second_call() {
    let g = chain_plus_pair();
    let first = slack(&g);
    let second = slack(&g);
    assert_eq!(first, second);
    assert_eq!(first, vec![0, 0, 0, 1, 1]);
}

#[test]
fn total_float_of_empty_graph_is_zero() {
    let g = DiGraph::new();
    assert_eq!(total_float(&g), 0);
    assert!(zero_slack_nodes(&g).is_empty());
}

#[test]
fn total_float_is_largest_slack() {
    let g = chain_plus_pair();
    let s = slack(&g);
    assert_eq!(total_float(&g), *s.iter().max().unwrap());
    assert_eq!(total_float(&g), 1);
}

#[test]
fn total_float_of_cycle_is_zero() {
    let mut g = DiGraph::new();
    g.add_node("a");
    g.add_node("b");
    g.add_edge(0, 1);
    g.add_edge(1, 0);
    assert_eq!(total_float(&g), 0);
    assert_eq!(zero_slack_nodes(&g), vec![0, 1]);
}

#[test]
fn critical_nodes_of_chain_plus_pair() {
    let g = chain_plus_pair();
    assert_eq!(zero_slack_nodes(&g), vec![0, 1, 2]);
}

#[test]
fn self_loop_is_a_cycle() {
    let mut g = DiGraph::new();
    g.add_node("a");
    g.add_node("b");
    g.add_edge(0, 1);
    g.add_edge(1, 1);
    assert!(topological_sort(&g).is_none());
    assert_eq!(slack(&g), vec![0, 0]);
}

#[test]
fn duplicate_edge_changes_nothing() {
    let mut g = chain_plus_pair();
    g.add_edge(3, 4);
    assert_eq!(slack(&g), vec![0, 0, 0, 1, 1]);
}

#[test]
fn topological_order_respects_edges() {
    let mut g = DiGraph::new();
    for name in ["a", "b", "c", "d"] {
        g.add_node(name);
    }
    g.add_edge(3, 2);
    g.add_edge(2, 1);
    g.add_edge(1, 0);
    let order = topological_sort(&g).unwrap();
    assert_eq!(order, vec![3, 2, 1, 0]);
}

#[test]
fn topological_order_of_empty_graph() {
    let g = DiGraph::new();
    assert_eq!(topological_sort(&g), Some(vec![]));
}

#[test]
fn topological_sort_detects_cycle() {
    let mut g = DiGraph::new();
    for name in ["a", "b", "c"] {
        g.add_node(name);
    }
    g.add_edge(0, 1);
    g.add_edge(1, 2);
    g.add_edge(2, 0);
    assert_eq!(topological_sort(&g), None);
}

#[test]
fn graph_accessors() {
    let mut g = DiGraph::new();
    let a = g.add_node("alpha");
    let b = g.add_node("beta");
    g.add_edge(a, b);
    assert_eq!(g.len(), 2);
    assert_eq!(g.name(b), "beta");
    assert_eq!(g.successors_slice(a), &[b]);
    assert_eq!(g.predecessors_slice(b), &[a]);
    assert!(g.predecessors_slice(a).is_empty());
}
