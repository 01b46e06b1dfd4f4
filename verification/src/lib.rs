//! Maximum dual simulation between directed attributed graphs.
//!
//! A pattern graph and a target graph are built node by node and edge by
//! edge. The engine computes, for every pattern node, the set of target nodes
//! that can stand for it: labels must be accepted by a label matcher, and
//! every outgoing and every incoming pattern edge must be answered by a target
//! edge between candidates. The result is the greatest relation of that kind.

pub mod adjacency;
pub mod engine;
pub mod graph;
pub mod keyed;
pub mod label;
pub mod laws;
pub mod model;
pub mod relation;
pub mod simulation;
