//! Edges to leave out of a graph so that every cycle keeps one: the
//! complement of a maximum-weight spanning forest, found by Kruskal's greedy
//! pass over a disjoint-set forest, plus the forest's negative edges.
pub mod edge;
pub mod forest;
pub mod graph;
pub mod input;
pub mod optimality;
pub mod parser;
pub mod spanning;
pub mod text;
pub mod union_find;
