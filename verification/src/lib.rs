//! An undirected multigraph keyed by string node names, with closeness and
//! degree centrality computed by breadth-first traversal from every node.

pub mod centrality;
pub mod graph;
