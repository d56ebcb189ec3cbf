use bv_graph::graph::DiGraph;
use bv_graph::slack::{slack, total_float, zero_slack_nodes};

fn as_floats(s: Vec<usize>) -> Vec<f64> {
    s.iter().map(|&x| x as f64).collect()
}

#[test]
fn test_slack_empty() {
    let graph = DiGraph::new();
    let s = slack(&graph);
    assert!(s.is_empty());
}

#[test]
fn test_slack_single_node() {
    let mut graph = DiGraph::new();
    graph.add_node("a");
    let s = as_floats(slack(&graph));
    assert_eq!(s.len(), 1);
    assert_eq!(s[0], 0.0);
}

#[test]
fn test_slack_chain() {
    let mut graph = DiGraph::new();
    let a = graph.add_node("a");
    let b = graph.add_node("b");
    let c = graph.add_node("c");
    graph.add_edge(a, b);
    graph.add_edge(b, c);

    let s = as_floats(slack(&graph));
    assert_eq!(s[a], 0.0);
    assert_eq!(s[b], 0.0);
    assert_eq!(s[c], 0.0);
}

#[test]
fn test_slack_parallel_chains() {
    let mut graph = DiGraph::new();
    let a = graph.add_node("a");
    let b = graph.add_node("b");
    let c = graph.add_node("c");
    let d = graph.add_node("d");
    let e = graph.add_node("e");
    graph.add_edge(a, b);
    graph.add_edge(b, c);
    graph.add_edge(d, e);

    let s = as_floats(slack(&graph));
    assert_eq!(s[a], 0.0);
    assert_eq!(s[b], 0.0);
    assert_eq!(s[c], 0.0);
    assert_eq!(s[d], 1.0);
    assert_eq!(s[e], 1.0);
}

#[test]
fn test_slack_diamond() {
    let mut graph = DiGraph::new();
    let a = graph.add_node("a");
    let b = graph.add_node("b");
    let c = graph.add_node("c");
    let d = graph.add_node("d");
    graph.add_edge(a, b);
    graph.add_edge(a, c);
    graph.add_edge(b, d);
    graph.add_edge(c, d);

    let s = as_floats(slack(&graph));
    assert_eq!(s[a], 0.0);
    assert_eq!(s[b], 0.0);
    assert_eq!(s[c], 0.0);
    assert_eq!(s[d], 0.0);
}

#[test]
fn test_slack_with_shortcut() {
    let mut graph = DiGraph::new();
    let a = graph.add_node("a");
    let b = graph.add_node("b");
    let c = graph.add_node("c");
    graph.add_edge(a, b);
    graph.add_edge(b, c);
    graph.add_edge(a, c);

    let s = as_floats(slack(&graph));
    assert_eq!(s[a], 0.0);
    assert_eq!(s[b], 0.0);
    assert_eq!(s[c], 0.0);
}

#[test]
fn test_slack_branch_with_different_lengths() {
    let mut graph = DiGraph::new();
    let a = graph.add_node("a");
    let b = graph.add_node("b");
    let c = graph.add_node("c");
    let d = graph.add_node("d");
    let e = graph.add_node("e");
    let f = graph.add_node("f");
    graph.add_edge(a, b);
    graph.add_edge(a, c);
    graph.add_edge(b, f);
    graph.add_edge(c, d);
    graph.add_edge(d, e);

    let s = as_floats(slack(&graph));
    assert_eq!(s[a], 0.0);
    assert_eq!(s[c], 0.0);
    assert_eq!(s[d], 0.0);
    assert_eq!(s[e], 0.0);
    assert_eq!(s[b], 1.0);
    assert_eq!(s[f], 1.0);
}

#[test]
fn test_slack_cyclic() {
    let mut graph = DiGraph::new();
    let a = graph.add_node("a");
    let b = graph.add_node("b");
    let c = graph.add_node("c");
    graph.add_edge(a, b);
    graph.add_edge(b, c);
    graph.add_edge(c, a);

    let s = as_floats(slack(&graph));
    assert_eq!(s, vec![0.0, 0.0, 0.0]);
}

#[test]
fn test_zero_slack_nodes() {
    let mut graph = DiGraph::new();
    let a = graph.add_node("a");
    let b = graph.add_node("b");
    let c = graph.add_node("c");
    let d = graph.add_node("d");
    let e = graph.add_node("e");
    graph.add_edge(a, b);
    graph.add_edge(b, c);
    graph.add_edge(d, e);

    let critical = zero_slack_nodes(&graph);
    assert_eq!(critical.len(), 3);
    assert!(critical.contains(&a));
    assert!(critical.contains(&b));
    assert!(critical.contains(&c));
}

#[test]
fn test_total_float() {
    let mut graph = DiGraph::new();
    let a = graph.add_node("a");
    let b = graph.add_node("b");
    let c = graph.add_node("c");
    let _d = graph.add_node("d");
    graph.add_edge(a, b);
    graph.add_edge(b, c);

    let tf = total_float(&graph) as f64;
    assert_eq!(tf, 2.0);
}

#[test]
fn test_slack_non_negative() {
    let mut graph = DiGraph::new();
    for i in 0..10 {
        graph.add_node(&format!("n{}", i));
    }
    graph.add_edge(0, 1);
    graph.add_edge(1, 2);
    graph.add_edge(2, 3);
    graph.add_edge(0, 4);
    graph.add_edge(4, 5);
    graph.add_edge(5, 6);
    graph.add_edge(6, 3);

    let s = as_floats(slack(&graph));
    for (i, &slack_val) in s.iter().enumerate() {
        assert!(slack_val >= 0.0, "Node {} has negative slack: {}", i, slack_val);
    }
}
