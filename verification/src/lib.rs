//! Per-entity pipeline scheduling: a population of entities with declared
//! predecessors and capability tags becomes an acyclic graph of pipeline
//! stages, which is then executed in dependency order.

pub mod entity;
pub mod graph;
pub mod builder;
pub mod runner;
pub mod extender;
pub mod store;
pub mod laws;
