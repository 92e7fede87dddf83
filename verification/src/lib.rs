//! Incremental single-source shortest paths with waypoint ("beer store")
//! routing.
//!
//! The engine in [`dijkstra`] advances Dijkstra's algorithm one settlement at
//! a time over an immutable weighted graph, so a caller can observe every tree
//! edge as it is finalized.  The orchestrator in [`route`] answers "shortest
//! path from a source to a target that passes through at least one waypoint"
//! by running the engine twice: once from the source, and once from a
//! synthetic node wired to every reached waypoint with the phase-one distance
//! as the edge weight.

pub mod dijkstra;
pub mod graph;
pub mod route;
