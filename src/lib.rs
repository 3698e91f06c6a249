pub mod graph;
pub mod shortest;
pub mod engine;
pub mod topology;
pub mod owner;
pub mod digest;
pub mod parser;
