//! Minimum spanning trees of weighted undirected graphs, by Prim's and
//! Kruskal's algorithms, with the disjoint-set forest and the conversion from
//! an adjacency matrix to an edge list that they rely on.
pub mod disjoint_set;
pub mod graph;
pub mod kruskal;
pub mod prim;
pub mod random;
