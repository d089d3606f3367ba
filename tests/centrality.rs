use std::collections::HashMap;

use graph_centrality::centrality::{
    bfs_shortest_paths, closeness_totals, degree_centrality, shortest_path_dag, total_distance,
};
use graph_centrality::graph::Graph;

fn sample_graph() -> Graph {
    let mut graph: Graph = HashMap::new();
    graph.insert(1, vec![2, 3]);
    graph.insert(2, vec![1, 3]);
    graph.insert(3, vec![1, 2]);
    graph
}

fn graph_of(edges: &[(usize, usize)]) -> Graph {
    let mut graph: Graph = HashMap::new();
    for &(u, v) in edges {
        graph.entry(u).or_default().push(v);
        graph.entry(v).or_default().push(u);
    }
    graph
}

#[test]
fn test_degree_centrality() {
    let graph = sample_graph();
    let degrees = degree_centrality(&graph);
    assert_eq!(degrees.get(&1), Some(&2));
    assert_eq!(degrees.get(&2), Some(&2));
    assert_eq!(degrees.get(&3), Some(&2));
}

#[test]
fn test_closeness_centrality() {
    let graph = sample_graph();
    let totals = closeness_totals(&graph);
    let total = totals.get(&1).unwrap().unwrap();
    let value = 1.0 / total as f64;
    assert!(value > 0.0 && value < 1.0);
}

#[test]
fn degree_counts_duplicate_entries() {
    let mut graph: Graph = HashMap::new();
    graph.insert(1, vec![2, 2, 3]);
    graph.insert(2, vec![1, 1]);
    graph.insert(3, vec![1]);
    graph.insert(4, vec![]);
    let degrees = degree_centrality(&graph);
    assert_eq!(degrees.len(), 4);
    assert_eq!(degrees[&1], 3);
    assert_eq!(degrees[&2], 2);
    assert_eq!(degrees[&3], 1);
    assert_eq!(degrees[&4], 0);
}

#[test]
fn bfs_stays_in_its_component() {
    let graph = graph_of(&[(1, 2), (3, 4)]);
    let dist = bfs_shortest_paths(&graph, 1);
    let mut expected = HashMap::new();
    expected.insert(1, 0);
    expected.insert(2, 1);
    assert_eq!(dist, expected);
}

#[test]
fn bfs_on_a_path() {
    let graph = graph_of(&[(1, 2), (2, 3), (3, 4), (4, 5)]);
    let dist = bfs_shortest_paths(&graph, 2);
    assert_eq!(dist.len(), 5);
    assert_eq!(dist[&1], 1);
    assert_eq!(dist[&2], 0);
    assert_eq!(dist[&3], 1);
    assert_eq!(dist[&4], 2);
    assert_eq!(dist[&5], 3);
}

#[test]
fn bfs_isolated_source() {
    let mut graph: Graph = HashMap::new();
    graph.insert(7, vec![]);
    let dist = bfs_shortest_paths(&graph, 7);
    assert_eq!(dist.len(), 1);
    assert_eq!(dist[&7], 0);
}

#[test]
fn bfs_reaches_neighbor_outside_key_set() {
    let mut graph: Graph = HashMap::new();
    graph.insert(1, vec![9]);
    let dist = bfs_shortest_paths(&graph, 1);
    assert_eq!(dist.len(), 2);
    assert_eq!(dist[&9], 1);
}

#[test]
fn triangle_closeness_totals() {
    let graph = graph_of(&[(1, 2), (1, 3), (2, 3)]);
    let degrees = degree_centrality(&graph);
    assert_eq!(degrees[&1], 2);
    assert_eq!(degrees[&2], 2);
    assert_eq!(degrees[&3], 2);
    let totals = closeness_totals(&graph);
    assert_eq!(totals.len(), 3);
    for node in 1..=3 {
        assert_eq!(totals[&node], Some(2));
        assert_eq!(1.0 / totals[&node].unwrap() as f64, 0.5);
    }
}

#[test]
fn triangle_has_no_intermediate_nodes() {
    let graph = graph_of(&[(1, 2), (1, 3), (2, 3)]);
    for s in 1..=3 {
        let dag = shortest_path_dag(&graph, s).unwrap();
        assert_eq!(dag.order.len(), 3);
        assert_eq!(dag.order[0], s);
        for w in 1..=3 {
            assert_eq!(dag.sigma[&w], 1);
            if w == s {
                assert!(dag.pred[&w].is_empty());
            } else {
                assert_eq!(dag.pred[&w], vec![s]);
            }
        }
    }
}

#[test]
fn complete_graph_totals_are_equal() {
    let graph = graph_of(&[(1, 2), (1, 3), (1, 4), (2, 3), (2, 4), (3, 4)]);
    let totals = closeness_totals(&graph);
    for node in 1..=4 {
        assert_eq!(totals[&node], Some(3));
    }
}

#[test]
fn isolated_node_total_is_zero() {
    let mut graph = graph_of(&[(1, 2)]);
    graph.insert(3, vec![]);
    let totals = closeness_totals(&graph);
    assert_eq!(totals[&3], Some(0));
    assert_eq!(totals[&1], Some(1));
}

#[test]
fn star_paths_run_through_center() {
    let graph = graph_of(&[(1, 2), (1, 3), (1, 4), (1, 5)]);
    let degrees = degree_centrality(&graph);
    assert_eq!(degrees[&1], 4);
    for leaf in 2..=5 {
        assert_eq!(degrees[&leaf], 1);
    }
    let dag = shortest_path_dag(&graph, 2).unwrap();
    assert_eq!(dag.dist[&1], 1);
    for leaf in 3..=5 {
        assert_eq!(dag.dist[&leaf], 2);
        assert_eq!(dag.pred[&leaf], vec![1]);
        assert_eq!(dag.sigma[&leaf], 1);
    }
    assert_eq!(*dag.order.last().unwrap() != 1, true);
}

#[test]
fn path_counts_on_a_path() {
    let graph = graph_of(&[(1, 2), (2, 3), (3, 4), (4, 5)]);
    let dag = shortest_path_dag(&graph, 1).unwrap();
    assert_eq!(dag.order, vec![1, 2, 3, 4, 5]);
    assert_eq!(dag.pred[&3], vec![2]);
    assert_eq!(dag.pred[&5], vec![4]);
    assert_eq!(dag.sigma[&5], 1);
}

#[test]
fn path_counts_on_a_diamond() {
    let graph = graph_of(&[(1, 2), (1, 3), (2, 4), (3, 4)]);
    let dag = shortest_path_dag(&graph, 1).unwrap();
    assert_eq!(dag.dist[&4], 2);
    assert_eq!(dag.sigma[&4], 2);
    let mut preds = dag.pred[&4].clone();
    preds.sort();
    assert_eq!(preds, vec![2, 3]);
    assert_eq!(dag.order[3], 4);
}

#[test]
fn total_distance_sums_values() {
    let mut dist = HashMap::new();
    dist.insert(1, 0);
    dist.insert(2, 1);
    dist.insert(3, 2);
    dist.insert(4, 2);
    assert_eq!(total_distance(&dist), Some(5));
}

#[test]
fn total_distance_overflow_is_none() {
    let mut dist = HashMap::new();
    dist.insert(1, usize::MAX);
    dist.insert(2, 1);
    assert_eq!(total_distance(&dist), None);
    let mut fits = HashMap::new();
    fits.insert(1, usize::MAX);
    fits.insert(2, 0);
    assert_eq!(total_distance(&fits), Some(usize::MAX));
}

#[test]
fn repeated_entries_count_as_parallel_paths() {
    let mut graph: Graph = HashMap::new();
    graph.insert(1, vec![2, 2]);
    graph.insert(2, vec![1, 1, 3]);
    graph.insert(3, vec![2]);
    let dag = shortest_path_dag(&graph, 1).unwrap();
    assert_eq!(dag.pred[&2], vec![1, 1]);
    assert_eq!(dag.sigma[&2], 2);
    assert_eq!(dag.pred[&3], vec![2]);
    assert_eq!(dag.sigma[&3], 2);
    assert_eq!(dag.order, vec![1, 2, 3]);
}

#[test]
fn source_outside_key_set() {
    let graph = sample_graph();
    let dist = bfs_shortest_paths(&graph, 42);
    assert_eq!(dist.len(), 1);
    assert_eq!(dist[&42], 0);
    let dag = shortest_path_dag(&graph, 42).unwrap();
    assert_eq!(dag.order, vec![42]);
    assert_eq!(dag.sigma[&42], 1);
}

fn diamond_chain(links: usize) -> Graph {
    let mut edges = Vec::new();
    for i in 0..links {
        let a = 3 * i;
        let next = 3 * (i + 1);
        edges.push((a, a + 1));
        edges.push((a, a + 2));
        edges.push((a + 1, next));
        edges.push((a + 2, next));
    }
    graph_of(&edges)
}

#[test]
fn path_counts_double_along_a_diamond_chain() {
    let graph = diamond_chain(63);
    let dag = shortest_path_dag(&graph, 0).unwrap();
    assert_eq!(dag.sigma[&(3 * 63)], 1u64 << 63);
    assert_eq!(dag.dist[&(3 * 63)], 126);
}

#[test]
fn path_count_overflow_is_none() {
    let graph = diamond_chain(64);
    assert!(shortest_path_dag(&graph, 0).is_none());
}
