//! Partial-order alignment: sequences aligned against a directed acyclic graph
//! of symbols, merged into it, and read back as a heaviest-path consensus.
pub mod graph;
pub mod traceback;
pub mod poa;
pub mod laws;
pub mod lanes;
