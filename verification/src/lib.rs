//! Graph sampling primitives: uniform node sampling, random-walk sampling,
//! and bounded frontier (breadth-first) sampling over an in-memory graph.

pub mod adjacency;
pub mod graph;
pub mod laws;
pub mod protocol;
pub mod sampling;
