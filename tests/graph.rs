use std::collections::HashMap;

use graph_centrality::graph::{add_edge, parse_node_id, Graph};

#[test]
fn add_edge_records_both_directions() {
    let mut graph: Graph = HashMap::new();
    add_edge(&mut graph, 1, 2);
    add_edge(&mut graph, 1, 3);
    assert_eq!(graph.len(), 3);
    assert_eq!(graph[&1], vec![2, 3]);
    assert_eq!(graph[&2], vec![1]);
    assert_eq!(graph[&3], vec![1]);
}

#[test]
fn add_edge_keeps_repeated_edges() {
    let mut graph: Graph = HashMap::new();
    add_edge(&mut graph, 4, 5);
    add_edge(&mut graph, 5, 4);
    assert_eq!(graph[&4], vec![5, 5]);
    assert_eq!(graph[&5], vec![4, 4]);
}

#[test]
fn add_edge_self_loop() {
    let mut graph: Graph = HashMap::new();
    add_edge(&mut graph, 7, 7);
    assert_eq!(graph.len(), 1);
    assert_eq!(graph[&7], vec![7, 7]);
}

#[test]
fn parse_node_id_reads_decimal() {
    assert_eq!(parse_node_id(b"0"), Some(0));
    assert_eq!(parse_node_id(b"4038"), Some(4038));
    assert_eq!(parse_node_id(b"+12"), Some(12));
    assert_eq!(parse_node_id(b"007"), Some(7));
}

#[test]
fn parse_node_id_rejects_malformed() {
    assert_eq!(parse_node_id(b""), None);
    assert_eq!(parse_node_id(b"+"), None);
    assert_eq!(parse_node_id(b"-3"), None);
    assert_eq!(parse_node_id(b"12a"), None);
    assert_eq!(parse_node_id(b"1 2"), None);
}

#[test]
fn parse_node_id_bounds() {
    let max = usize::MAX.to_string();
    assert_eq!(parse_node_id(max.as_bytes()), Some(usize::MAX));
    let over = format!("{}0", usize::MAX);
    assert_eq!(parse_node_id(over.as_bytes()), None);
    assert_eq!(parse_node_id(b"18446744073709551616"), None);
}
