pub mod graph;
pub mod grid;
pub mod node;
pub mod path;
pub mod search;
pub mod union_find;
