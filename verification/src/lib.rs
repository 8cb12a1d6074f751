//! Multi-criteria shortest paths: for every node of a weighted directed graph,
//! the Pareto-optimal cost vectors of the paths that reach it.

pub mod bag;
pub mod order;
pub mod queue;
pub mod maps;
pub mod limits;
pub mod graph;
pub mod node_map;
pub mod measure;
pub mod mlc;
pub mod paths;
pub mod text;
pub mod store;
pub mod read;
pub mod priority;
pub mod message;
pub mod translate;
