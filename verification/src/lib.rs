pub mod graph;
pub mod path;
