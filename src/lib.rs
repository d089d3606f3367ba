//! Degree, closeness and betweenness centrality over an undirected graph
//! held as an adjacency mapping.

pub mod graph;
pub mod centrality;
