pub mod graph;
pub mod markdown;
pub mod model;
