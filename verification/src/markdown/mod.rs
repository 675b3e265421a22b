pub mod events;
pub mod lines;
pub mod reader;
pub mod tags;
