//! Topology decomposition for tree-and-loop pipe networks fed by a single
//! pressure source: feed extraction, node partition, spanning tree and cycle
//! edges, and the incidence matrices built on them.

pub mod formats;
pub mod graph;
pub mod matrices;
pub mod network;
pub mod select;
pub mod spanning;
