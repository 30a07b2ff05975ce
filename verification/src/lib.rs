pub mod algorithms;
pub mod containers;
pub mod graph;
pub mod order;
pub mod shortest_path;
pub mod subcontainers;
pub mod trees;
