//! Package-registry engine: a height-balanced index of versioned packages,
//! a directed dependency graph with Eulerian / Hamiltonian / A* / hybrid
//! resolution strategies, a per-package fault-state machine with a banded
//! recovery policy, and a rate-limited observer hub.

pub mod fault;
pub mod graph;
pub mod keys;
pub mod observer;
pub mod registry;
pub mod resolve;
pub mod version;
